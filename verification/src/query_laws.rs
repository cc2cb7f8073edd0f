//! What a query asks for, in terms of the characters of the query and of a command.
use vstd::prelude::*;

use crate::query::{
    first_occurs_at, next_token, query_matches, regex_found, regex_verdicts, tokens_of, SearchMode,
    TokenView,
};
use crate::text::{
    first_at, is_char, lemma_first_where, lemma_first_where_is, occurs_at, occurs_in,
    unicode_upper,
};

verus! {

/// Whether an upper-case character stands in a term: one of `A` to `Z`, or a character beyond
/// ASCII that is upper case in Unicode.
pub open spec fn minds_case(term: Seq<char>) -> bool {
    exists|k: int|
        0 <= k < term.len() && (('A' <= #[trigger] term[k] && term[k] <= 'Z') || (term[k] > '\x7f'
            && unicode_upper(term[k])))
}

/// Whether the character `c` of a command is taken for the character `t` of a term: they are the
/// same, or `c` is a letter from `A` to `Z`, case does not count, and `t` is the small one.
pub open spec fn taken_for(c: char, t: char, case_counts: bool) -> bool {
    if !case_counts && 'A' <= c && c <= 'Z' {
        t as int == c as int + 32
    } else {
        t == c
    }
}

/// Whether a term stands in a command from position `i` on, character by character. Case counts
/// where the term has an upper-case character.
pub open spec fn stands_at(command: Seq<char>, term: Seq<char>, i: int) -> bool {
    &&& 0 <= i
    &&& i + term.len() <= command.len()
    &&& forall|k: int|
        0 <= k < term.len() ==> taken_for(command[i + k], #[trigger] term[k], minds_case(term))
}

proof fn lemma_stands_at(command: Seq<char>, term: Seq<char>, i: int)
    requires
        0 <= i,
        i + term.len() <= command.len(),
    ensures
        ({
            let text = if crate::query::any_upper_case(term) {
                command
            } else {
                crate::text::ascii_lower_case(command)
            };
            (text.subrange(i, i + term.len()) == term) == stands_at(command, term, i)
        }),
{
    let text = if crate::query::any_upper_case(term) {
        command
    } else {
        crate::text::ascii_lower_case(command)
    };
    assert(minds_case(term) == crate::query::any_upper_case(term)) by {
        if minds_case(term) {
            let k = choose|k: int|
                0 <= k < term.len() && (('A' <= #[trigger] term[k] && term[k] <= 'Z') || (term[k]
                    > '\x7f' && unicode_upper(term[k])));
            assert(crate::text::upper_case(term[k]));
        }
        if crate::query::any_upper_case(term) {
            let k = choose|k: int| 0 <= k < term.len() && crate::text::upper_case(#[trigger] term[k]);
            assert(crate::text::upper_case(term[k]));
        }
    }
    let part = text.subrange(i, i + term.len());
    assert forall|k: int| 0 <= k < term.len() implies (part[k] == #[trigger] term[k]) == taken_for(
        command[i + k],
        term[k],
        minds_case(term),
    ) by {
        assert(part[k] == text[i + k]);
        let c = command[i + k];
        if !minds_case(term) && 'A' <= c && c <= 'Z' {
            assert(text[i + k] == crate::text::ascii_lower(c));
            assert(((c as int) + 32) as char as int == c as int + 32);
        }
    }
    if part == term {
        assert forall|k: int| 0 <= k < term.len() implies taken_for(
            command[i + k],
            #[trigger] term[k],
            minds_case(term),
        ) by {
            assert(part[k] == term[k]);
        }
    }
    if stands_at(command, term, i) {
        assert(part =~= term);
    }
}

/// What a token asks of a command. One that was marked asks for nothing.
pub open spec fn asked_for(token: TokenView, command: Seq<char>) -> bool {
    match token {
        TokenView::Match(term, marked) => marked || exists|i: int| stands_at(command, term, i),
        TokenView::MatchStart(term, marked) => marked || stands_at(command, term, 0),
        TokenView::MatchEnd(term, marked) => marked || stands_at(
            command,
            term,
            command.len() - term.len(),
        ),
        TokenView::MatchFull(term, marked) => marked || (command.len() == term.len() && stands_at(
            command,
            term,
            0,
        )),
        TokenView::Or => true,
        TokenView::Regex(pattern) => regex_found(pattern, command) == Some(true),
    }
}

proof fn lemma_asked_for(token: TokenView, command: Seq<char>)
    ensures
        (token.is_inverse() || crate::query::token_matches(
            token,
            command,
            token matches TokenView::Regex(pattern) && regex_found(pattern, command) == Some(true),
        )) == asked_for(token, command),
{
    let text = if token.has_uppercase() {
        command
    } else {
        crate::text::ascii_lower_case(command)
    };
    assert(text.len() == command.len());
    match token {
        TokenView::Match(term, _) => {
            if occurs_in(text, term) {
                let i = choose|i: int| occurs_at(text, term, i);
                lemma_stands_at(command, term, i);
                assert(stands_at(command, term, i));
            }
            if exists|i: int| stands_at(command, term, i) {
                let i = choose|i: int| stands_at(command, term, i);
                lemma_stands_at(command, term, i);
                assert(occurs_at(text, term, i));
            }
        },
        TokenView::MatchStart(term, _) => {
            if term.len() <= command.len() {
                lemma_stands_at(command, term, 0);
            }
        },
        TokenView::MatchEnd(term, _) => {
            if term.len() <= command.len() {
                lemma_stands_at(command, term, command.len() - term.len());
                assert(text.subrange(text.len() - term.len(), text.len() as int) == text.subrange(
                    command.len() - term.len(),
                    command.len() - term.len() + term.len(),
                ));
            }
        },
        TokenView::MatchFull(term, _) => {
            if term.len() == command.len() {
                lemma_stands_at(command, term, 0);
                assert(text.subrange(0, term.len() as int) =~= text);
            }
        },
        _ => {},
    }
}

/// In every mode but the prefix mode a query finds a command exactly where the command has what
/// each of its tokens asks for.
pub proof fn law_query_asks(command: Seq<char>, tokens: Seq<TokenView>, mode: SearchMode)
    requires
        mode != SearchMode::Prefix,
    ensures
        query_matches(command, tokens, mode, regex_verdicts(tokens, command)) <==> forall|i: int|
            0 <= i < tokens.len() ==> asked_for(#[trigger] tokens[i], command),
{
    let found = regex_verdicts(tokens, command);
    assert forall|i: int| 0 <= i < tokens.len() implies (tokens[i].is_inverse()
        || crate::query::token_matches(tokens[i], command, found[i])) == asked_for(
        #[trigger] tokens[i],
        command,
    ) by {
        lemma_asked_for(tokens[i], command);
    }
    if query_matches(command, tokens, mode, found) {
        assert forall|i: int| 0 <= i < tokens.len() implies asked_for(
            #[trigger] tokens[i],
            command,
        ) by {
            assert(tokens[i].is_inverse() || crate::query::token_matches(
                tokens[i],
                command,
                found[i],
            ));
        }
    }
}

/// A command that is found by a query with the unmarked token `term$` ends with the term: its
/// last characters are those of the term, its ASCII letters in lower case where the term has no
/// upper-case character. So one that is shorter than the term, or ends otherwise, is never found.
pub proof fn law_end_token(command: Seq<char>, tokens: Seq<TokenView>, mode: SearchMode, i: int)
    requires
        mode != SearchMode::Prefix,
        0 <= i < tokens.len(),
        tokens[i] matches TokenView::MatchEnd(_, false),
        query_matches(command, tokens, mode, regex_verdicts(tokens, command)),
    ensures
        tokens[i] matches TokenView::MatchEnd(term, _) && term.len() <= command.len() && forall|
            k: int,
        |
            0 <= k < term.len() ==> taken_for(
                command[command.len() - term.len() + k],
                #[trigger] term[k],
                minds_case(term),
            ),
{
    law_query_asks(command, tokens, mode);
    assert(asked_for(tokens[i], command));
}

/// A command that is found by a query with the unmarked token `^term` starts with the term.
pub proof fn law_start_token(command: Seq<char>, tokens: Seq<TokenView>, mode: SearchMode, i: int)
    requires
        mode != SearchMode::Prefix,
        0 <= i < tokens.len(),
        tokens[i] matches TokenView::MatchStart(_, false),
        query_matches(command, tokens, mode, regex_verdicts(tokens, command)),
    ensures
        tokens[i] matches TokenView::MatchStart(term, _) && term.len() <= command.len() && forall|
            k: int,
        |
            0 <= k < term.len() ==> taken_for(command[k], #[trigger] term[k], minds_case(term)),
{
    law_query_asks(command, tokens, mode);
    assert(asked_for(tokens[i], command));
}

/// A command that is found by a query with the unmarked token `'term` is the term, but for case
/// where that does not count.
pub proof fn law_full_token(command: Seq<char>, tokens: Seq<TokenView>, mode: SearchMode, i: int)
    requires
        mode != SearchMode::Prefix,
        0 <= i < tokens.len(),
        tokens[i] matches TokenView::MatchFull(_, false),
        query_matches(command, tokens, mode, regex_verdicts(tokens, command)),
    ensures
        tokens[i] matches TokenView::MatchFull(term, _) && term.len() == command.len() && forall|
            k: int,
        |
            0 <= k < term.len() ==> taken_for(command[k], #[trigger] term[k], minds_case(term)),
{
    law_query_asks(command, tokens, mode);
    assert(asked_for(tokens[i], command));
}

/// A command that is found by a query with a plain term that is not marked has the term in it, at
/// `at`.
pub proof fn law_plain_token(
    command: Seq<char>,
    tokens: Seq<TokenView>,
    mode: SearchMode,
    i: int,
) -> (at: int)
    requires
        mode != SearchMode::Prefix,
        0 <= i < tokens.len(),
        tokens[i] matches TokenView::Match(_, false),
        query_matches(command, tokens, mode, regex_verdicts(tokens, command)),
    ensures
        tokens[i] matches TokenView::Match(term, _) && 0 <= at && at + term.len() <= command.len()
            && forall|k: int|
            0 <= k < term.len() ==> taken_for(command[at + k], #[trigger] term[k], minds_case(term)),
{
    law_query_asks(command, tokens, mode);
    assert(asked_for(tokens[i], command));
    let term = tokens[i]->Match_0;
    choose|at: int| stands_at(command, term, at)
}

/// Tokens that are marked, and bars between tokens, change nothing: a query of nothing else finds
/// every command.
pub proof fn law_marked_tokens_find_all(
    command: Seq<char>,
    tokens: Seq<TokenView>,
    mode: SearchMode,
)
    requires
        mode != SearchMode::Prefix,
        forall|i: int|
            0 <= i < tokens.len() ==> match #[trigger] tokens[i] {
                TokenView::Match(_, marked) => marked,
                TokenView::MatchStart(_, marked) => marked,
                TokenView::MatchEnd(_, marked) => marked,
                TokenView::MatchFull(_, marked) => marked,
                TokenView::Or => true,
                TokenView::Regex(_) => false,
            },
    ensures
        query_matches(command, tokens, mode, regex_verdicts(tokens, command)),
{
    law_query_asks(command, tokens, mode);
}

/// The first token, where that is a plain term that is not marked.
pub open spec fn first_term(tokens: Seq<TokenView>) -> Option<Seq<char>> {
    if tokens.len() > 0 {
        match tokens[0] {
            TokenView::Match(term, false) => Some(term),
            _ => None,
        }
    } else {
        None
    }
}

/// In the prefix mode a query finds a command exactly where the command starts with its first
/// term, case counting; a query that does not start with a plain term finds every command.
pub proof fn law_prefix_mode(command: Seq<char>, tokens: Seq<TokenView>)
    ensures
        query_matches(command, tokens, SearchMode::Prefix, regex_verdicts(tokens, command)) <==> (
        match first_term(tokens) {
            Some(term) => term.len() <= command.len() && forall|k: int|
                0 <= k < term.len() ==> command[k] == #[trigger] term[k],
            None => true,
        }),
{
    if let Some(term) = first_term(tokens) {
        if term.is_prefix_of(command) {
            assert forall|k: int| 0 <= k < term.len() implies command[k] == #[trigger] term[k] by {
                assert(command.subrange(0, term.len() as int)[k] == command[k]);
            }
        }
        if term.len() <= command.len() && forall|k: int|
            0 <= k < term.len() ==> command[k] == #[trigger] term[k] {
            assert(command.subrange(0, term.len() as int) =~= term);
        }
    }
}

/// A mark, if there is one, and a text.
pub open spec fn with_mark(marked: bool, text: Seq<char>) -> Seq<char> {
    if marked {
        seq!['!'] + text
    } else {
        text
    }
}

/// A token as it is written in a query.
pub open spec fn written_token(token: TokenView) -> Seq<char> {
    match token {
        TokenView::Match(term, marked) => with_mark(marked, term),
        TokenView::MatchStart(term, marked) => with_mark(marked, seq!['^'] + term),
        TokenView::MatchEnd(term, marked) => with_mark(marked, term + seq!['$']),
        TokenView::MatchFull(term, marked) => with_mark(marked, seq!['\''] + term),
        TokenView::Or => seq!['|'],
        TokenView::Regex(pattern) => seq!['r', '/'] + pattern + seq!['/'],
    }
}

/// Whether what is written of a token can be told apart again: no space is in it, no other sign
/// is before or behind the term, and it does not start as a regular expression does.
pub open spec fn is_plain(token: TokenView) -> bool {
    let w = written_token(token);
    match token {
        TokenView::Regex(pattern) => forall|i: int|
            0 <= i && i + 1 < pattern.len() ==> !(#[trigger] pattern[i] == '/' && pattern[i + 1]
                == ' '),
        TokenView::Or => true,
        TokenView::Match(term, marked) => {
            &&& !w.contains(' ') && !(w.len() >= 2 && w[0] == 'r' && w[1] == '/')
            &&& w != seq!['|']
            &&& !marked ==> (term.len() > 0 ==> term[0] != '!')
            &&& term.len() > 0 ==> term[0] != '^' && term[0] != '\'' && term.last() != '$'
        },
        TokenView::MatchStart(term, marked) => !w.contains(' '),
        TokenView::MatchEnd(term, marked) => {
            &&& !w.contains(' ') && !(w.len() >= 2 && w[0] == 'r' && w[1] == '/')
            &&& !marked ==> (term.len() > 0 ==> term[0] != '!')
            &&& term.len() > 0 ==> term[0] != '^'
        },
        TokenView::MatchFull(term, marked) => !w.contains(' ') && (term.len() > 0 ==> term.last()
            != '$'),
    }
}

/// Tokens as they are written in a query, a space between each and the next.
pub open spec fn written_query(tokens: Seq<TokenView>) -> Seq<char>
    decreases tokens.len(),
{
    if tokens.len() == 0 {
        Seq::empty()
    } else if tokens.len() == 1 {
        written_token(tokens[0])
    } else {
        written_token(tokens[0]) + seq![' '] + written_query(tokens.skip(1))
    }
}

proof fn lemma_word_token(token: TokenView)
    requires
        is_plain(token),
        !(token is Regex),
    ensures
        crate::query::word_token(written_token(token)) == token,
        !written_token(token).contains(' '),
        !"r/"@.is_prefix_of(written_token(token)),
        !"r/"@.is_prefix_of(written_token(token).push(' ')),
{
    reveal_strlit("|");
    reveal_strlit("r/");
    let w = written_token(token);
    assert("|"@ =~= seq!['|']);
    if "r/"@.is_prefix_of(w) {
        assert(w.subrange(0, 2)[0] == w[0] && w.subrange(0, 2)[1] == w[1]);
        assert("r/"@[0] == 'r' && "r/"@[1] == '/');
    }
    if "r/"@.is_prefix_of(w.push(' ')) {
        let v = w.push(' ');
        assert(v.subrange(0, 2)[0] == v[0] && v.subrange(0, 2)[1] == v[1]);
        assert("r/"@[0] == 'r' && "r/"@[1] == '/');
        assert(w.len() >= 2);
    }
    match token {
        TokenView::Match(term, marked) => {
            if marked {
                assert(w.skip(1) =~= term);
            }
        },
        TokenView::MatchStart(term, marked) => {
            let part = seq!['^'] + term;
            if marked {
                assert(w.skip(1) =~= part);
            }
            assert(w != seq!['|']) by {
                if w == seq!['|'] {
                    assert(w[0] == '|');
                }
            }
            assert(part.skip(1) =~= term);
        },
        TokenView::MatchEnd(term, marked) => {
            let part = term + seq!['$'];
            if marked {
                assert(w.skip(1) =~= part);
            }
            assert(part.drop_last() =~= term);
            assert(w != seq!['|']) by {
                if w == seq!['|'] {
                    assert(w.last() == '$');
                }
            }
        },
        TokenView::MatchFull(term, marked) => {
            let part = seq!['\''] + term;
            if marked {
                assert(w.skip(1) =~= part);
            }
            assert(part.skip(1) =~= term);
            assert(w != seq!['|']) by {
                if w == seq!['|'] {
                    assert(w[0] == '|');
                }
            }
            if term.len() > 0 {
                assert(part.last() == term.last());
            }
        },
        _ => {
            assert(w =~= "|"@);
        },
    }
}

proof fn lemma_next_token(token: TokenView, rest: Seq<char>)
    requires
        is_plain(token),
    ensures
        next_token(written_token(token) + seq![' '] + rest) == (token, rest),
        next_token(written_token(token)) == (token, Seq::<char>::empty()),
{
    let w = written_token(token);
    let all = w + seq![' '] + rest;
    reveal_strlit("r/");
    reveal_strlit("/ ");
    assert("/ "@[0] == '/' && "/ "@[1] == ' ');
    if let TokenView::Regex(pattern) = token {
        assert("r/"@ =~= seq!['r', '/']);
        assert(all.subrange(0, 2) =~= "r/"@);
        assert(w.subrange(0, 2) =~= "r/"@);
        let s = all.skip(2);
        let n = pattern.len() as int;
        assert(s =~= pattern + seq!['/', ' '] + rest);
        assert(s.subrange(n, n + 2) =~= "/ "@);
        assert(occurs_at(s, "/ "@, n));
        assert forall|j: int| 0 <= j < n implies !occurs_at(s, "/ "@, j) by {
            if occurs_at(s, "/ "@, j) {
                assert(s.subrange(j, j + 2)[0] == s[j] && s.subrange(j, j + 2)[1] == s[j + 1]);
                assert(s[j] == pattern[j]);
                if j + 1 < n {
                    assert(s[j + 1] == pattern[j + 1]);
                }
            }
        }
        assert(first_occurs_at(s, "/ "@, n));
        crate::query::lemma_first_occurs_is(s, "/ "@, n);
        assert(s.take(n) =~= pattern);
        assert(s.skip(n + 2) =~= rest);
        let t = w.skip(2);
        assert(t =~= pattern + seq!['/']);
        if occurs_in(t, "/ "@) {
            let j = choose|j: int| occurs_at(t, "/ "@, j);
            assert(t.subrange(j, j + 2)[0] == t[j] && t.subrange(j, j + 2)[1] == t[j + 1]);
            assert(t[j] == pattern[j]);
        }
        assert(t.drop_last() =~= pattern);
    } else {
        lemma_word_token(token);
        let n = w.len() as int;
        assert forall|j: int| 0 <= j < n implies !is_char(' ')(#[trigger] all[j]) by {
            assert(all[j] == w[j]);
            assert(w.contains(w[j]));
        }
        assert(all[n] == ' ');
        lemma_first_where_is(all, is_char(' '), n);
        assert(all.take(n) =~= w);
        assert(all.skip(n + 1) =~= rest);
        assert(!"r/"@.is_prefix_of(all)) by {
            if "r/"@.is_prefix_of(all) {
                assert(all.subrange(0, 2)[0] == all[0] && all.subrange(0, 2)[1] == all[1]);
                assert("r/"@[0] == 'r' && "r/"@[1] == '/');
                if w.len() >= 2 {
                    assert(w.subrange(0, 2) =~= "r/"@);
                }
            }
        }
        lemma_first_where(w, is_char(' '));
        let i = first_at(w, ' ');
        if i < w.len() {
            assert(w.contains(w[i]));
        }
    }
}

/// A query is read as the tokens that were written: plain terms, `^start`, `end$`, `'full`, each
/// with a `!` before it or not, bars, and regular expressions between `r/` and `/`.
pub proof fn law_query_read(tokens: Seq<TokenView>)
    requires
        forall|i: int| 0 <= i < tokens.len() ==> is_plain(#[trigger] tokens[i]),
        tokens.len() > 0 ==> written_token(tokens.last()).len() > 0,
    ensures
        tokens_of(written_query(tokens)) == tokens,
    decreases tokens.len(),
{
    let all = written_query(tokens);
    if tokens.len() == 1 {
        assert(is_plain(tokens[0]));
        lemma_next_token(tokens[0], Seq::empty());
        assert(tokens_of(Seq::<char>::empty()) =~= Seq::empty());
        assert(tokens_of(all) =~= tokens);
    } else if tokens.len() > 1 {
        let rest = tokens.skip(1);
        assert(is_plain(tokens[0]));
        assert forall|i: int| 0 <= i < rest.len() implies is_plain(#[trigger] rest[i]) by {
            assert(rest[i] == tokens[i + 1]);
        }
        assert(rest.last() == tokens.last());
        law_query_read(rest);
        lemma_next_token(tokens[0], written_query(rest));
        assert(seq![tokens[0]] + rest =~= tokens);
    }
}

/// A regular expression that no slash ends goes on to the end of the query, spaces and all.
pub proof fn law_open_regex(pattern: Seq<char>)
    requires
        pattern.len() > 0 ==> pattern.last() != '/',
        forall|i: int|
            0 <= i && i + 1 < pattern.len() ==> !(#[trigger] pattern[i] == '/' && pattern[i + 1]
                == ' '),
    ensures
        tokens_of(seq!['r', '/'] + pattern) == seq![TokenView::Regex(pattern)],
{
    reveal_strlit("r/");
    reveal_strlit("/ ");
    assert("/ "@[0] == '/' && "/ "@[1] == ' ');
    let all = seq!['r', '/'] + pattern;
    assert(all.subrange(0, 2) =~= "r/"@);
    let t = all.skip(2);
    assert(t =~= pattern);
    if occurs_in(t, "/ "@) {
        let j = choose|j: int| occurs_at(t, "/ "@, j);
        assert(t.subrange(j, j + 2)[0] == t[j] && t.subrange(j, j + 2)[1] == t[j + 1]);
        assert(t[j] == pattern[j]);
    }
    assert(tokens_of(Seq::<char>::empty()) =~= Seq::empty());
    assert(tokens_of(all) =~= seq![TokenView::Regex(pattern)]);
}

/// A space at the end of a query adds nothing.
pub proof fn law_space_at_end(token: TokenView)
    requires
        is_plain(token),
    ensures
        tokens_of(written_token(token) + seq![' ']) == seq![token],
{
    let none = Seq::<char>::empty();
    lemma_next_token(token, none);
    let all = written_token(token) + seq![' '];
    assert(all + none =~= all);
    assert(tokens_of(none) =~= Seq::empty());
    assert(tokens_of(all) =~= seq![token]);
}

} // verus!

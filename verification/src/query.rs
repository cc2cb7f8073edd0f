//! Queries: how a query is cut into tokens, and which commands it matches.
use vstd::prelude::*;
use vstd::slice::slice_subrange;

use crate::settings::Settings;
use crate::text::{
    ascii_lower, ascii_lower_case, chars_of, contains_text, ends_with, find_char, find_text,
    first_at, is_char, lemma_first_where, occurs_at, occurs_in, same_chars, starts_with, upper_case,
};

verus! {

/// How a query is matched with commands.
#[derive(Clone, Copy, Debug, PartialEq, Eq, Structural)]
pub enum SearchMode {
    Prefix,
    FullText,
    Fuzzy,
    Skim,
    DaemonFuzzy,
}

impl SearchMode {
    /// The label that the mode is shown under.
    pub open spec fn label(self) -> Seq<char> {
        match self {
            SearchMode::Prefix => "PREFIX"@,
            SearchMode::FullText => "FULLTXT"@,
            SearchMode::Fuzzy => "FUZZY"@,
            SearchMode::Skim => "SKIM"@,
            SearchMode::DaemonFuzzy => "DAEMON"@,
        }
    }

    /// The label that the mode is shown under.
    pub fn as_str(&self) -> (s: &'static str)
        ensures
            s@ == self.label(),
    {
        match self {
            SearchMode::Prefix => "PREFIX",
            SearchMode::FullText => "FULLTXT",
            SearchMode::Fuzzy => "FUZZY",
            SearchMode::Skim => "SKIM",
            SearchMode::DaemonFuzzy => "DAEMON",
        }
    }

    /// The mode after this one, where the settings name `chosen` as the mode to start with:
    /// prefix, full text, and then the fuzzy mode that is chosen, or plain fuzzy search.
    pub open spec fn after(self, chosen: SearchMode) -> SearchMode {
        match self {
            SearchMode::Prefix => SearchMode::FullText,
            SearchMode::FullText => match chosen {
                SearchMode::Skim => SearchMode::Skim,
                SearchMode::DaemonFuzzy => SearchMode::DaemonFuzzy,
                _ => SearchMode::Fuzzy,
            },
            _ => SearchMode::Prefix,
        }
    }

    /// The mode after this one.
    pub fn next(&self, settings: &Settings) -> (mode: Self)
        ensures
            mode == self.after(settings.search_mode),
    {
        match self {
            SearchMode::Prefix => SearchMode::FullText,
            SearchMode::FullText => match settings.search_mode {
                SearchMode::Skim => SearchMode::Skim,
                SearchMode::DaemonFuzzy => SearchMode::DaemonFuzzy,
                _ => SearchMode::Fuzzy,
            },
            SearchMode::Fuzzy | SearchMode::Skim | SearchMode::DaemonFuzzy => SearchMode::Prefix,
        }
    }
}

/// Three steps lead from the prefix mode back to it, and from every mode two steps or fewer
/// lead to it.
pub proof fn law_search_modes_cycle(mode: SearchMode, chosen: SearchMode)
    ensures
        SearchMode::Prefix.after(chosen).after(chosen).after(chosen) == SearchMode::Prefix,
        mode == SearchMode::Prefix || mode.after(chosen) == SearchMode::Prefix || mode.after(
            chosen,
        ).after(chosen) == SearchMode::Prefix,
{
}

/// One token of a query. The flag tells whether the token was marked with a `!`.
pub enum QueryToken<'a> {
    Match(&'a str, bool),
    MatchStart(&'a str, bool),
    MatchEnd(&'a str, bool),
    MatchFull(&'a str, bool),
    Or,
    Regex(&'a str),
}

/// What a token says.
pub enum TokenView {
    Match(Seq<char>, bool),
    MatchStart(Seq<char>, bool),
    MatchEnd(Seq<char>, bool),
    MatchFull(Seq<char>, bool),
    Or,
    Regex(Seq<char>),
}

impl<'a> View for QueryToken<'a> {
    type V = TokenView;

    open spec fn view(&self) -> TokenView {
        match self {
            QueryToken::Match(term, inverse) => TokenView::Match(term@, *inverse),
            QueryToken::MatchStart(term, inverse) => TokenView::MatchStart(term@, *inverse),
            QueryToken::MatchEnd(term, inverse) => TokenView::MatchEnd(term@, *inverse),
            QueryToken::MatchFull(term, inverse) => TokenView::MatchFull(term@, *inverse),
            QueryToken::Or => TokenView::Or,
            QueryToken::Regex(pattern) => TokenView::Regex(pattern@),
        }
    }
}

/// Whether an upper-case character stands in the text.
pub open spec fn any_upper_case(s: Seq<char>) -> bool {
    exists|i: int| 0 <= i < s.len() && upper_case(#[trigger] s[i])
}

impl TokenView {
    /// Whether the token looks for a term with an upper-case character.
    pub open spec fn has_uppercase(self) -> bool {
        match self {
            TokenView::Match(term, _) => any_upper_case(term),
            TokenView::MatchStart(term, _) => any_upper_case(term),
            TokenView::MatchEnd(term, _) => any_upper_case(term),
            TokenView::MatchFull(term, _) => any_upper_case(term),
            _ => false,
        }
    }

    /// Whether the token was marked with a `!`.
    pub open spec fn is_inverse(self) -> bool {
        match self {
            TokenView::Match(_, inverse) => inverse,
            TokenView::MatchStart(_, inverse) => inverse,
            TokenView::MatchEnd(_, inverse) => inverse,
            TokenView::MatchFull(_, inverse) => inverse,
            _ => false,
        }
    }
}

fn has_upper_case(s: &str) -> (b: bool)
    ensures
        b == any_upper_case(s@),
{
    let chars = chars_of(s);
    let mut i: usize = 0;
    while i < chars.len()
        invariant
            i <= chars.len(),
            chars@ == s@,
            forall|j: int| 0 <= j < i ==> !upper_case(#[trigger] s@[j]),
        decreases chars.len() - i,
    {
        if chars[i].is_uppercase() {
            assert(upper_case(s@[i as int]));
            return true;
        }
        i = i + 1;
    }
    false
}

impl<'a> QueryToken<'a> {
    /// Whether the token looks for a term with an upper-case character.
    pub fn has_uppercase(&self) -> (b: bool)
        ensures
            b == self@.has_uppercase(),
    {
        match self {
            QueryToken::Match(term, _) => has_upper_case(term),
            QueryToken::MatchStart(term, _) => has_upper_case(term),
            QueryToken::MatchEnd(term, _) => has_upper_case(term),
            QueryToken::MatchFull(term, _) => has_upper_case(term),
            _ => false,
        }
    }

    /// Whether the token was marked with a `!`.
    pub fn is_inverse(&self) -> (b: bool)
        ensures
            b == self@.is_inverse(),
    {
        match self {
            QueryToken::Match(_, inverse) => *inverse,
            QueryToken::MatchStart(_, inverse) => *inverse,
            QueryToken::MatchEnd(_, inverse) => *inverse,
            QueryToken::MatchFull(_, inverse) => *inverse,
            _ => false,
        }
    }
}

/// Whether `needle` stands in `s` at `i` and at no place before.
pub open spec fn first_occurs_at(s: Seq<char>, needle: Seq<char>, i: int) -> bool {
    occurs_at(s, needle, i) && forall|j: int| 0 <= j < i ==> !occurs_at(s, needle, j)
}

/// The token that a regular expression at the start of a query makes, and what follows it.
/// `s` is what stands after `r/`; a slash and a space end the expression, and so does a slash
/// at the end of the query.
pub open spec fn regex_token(s: Seq<char>) -> (TokenView, Seq<char>) {
    if occurs_in(s, "/ "@) {
        let end = choose|i: int| first_occurs_at(s, "/ "@, i);
        (TokenView::Regex(s.take(end)), s.skip(end + 2))
    } else if s.len() > 0 && s.last() == '/' {
        (TokenView::Regex(s.drop_last()), Seq::empty())
    } else {
        (TokenView::Regex(s), Seq::empty())
    }
}

/// The token that a word of a query makes. A `!` at its start marks it, and then a `^` at its
/// start, a `$` at its end or a quote at its start tell where the rest is looked for.
pub open spec fn word_token(word: Seq<char>) -> TokenView {
    if word == "|"@ {
        TokenView::Or
    } else {
        let inverse = word.len() > 0 && word[0] == '!';
        let part = if inverse {
            word.skip(1)
        } else {
            word
        };
        if part.len() > 0 && part[0] == '^' {
            TokenView::MatchStart(part.skip(1), inverse)
        } else if part.len() > 0 && part.last() == '$' {
            TokenView::MatchEnd(part.drop_last(), inverse)
        } else if part.len() > 0 && part[0] == '\'' {
            TokenView::MatchFull(part.skip(1), inverse)
        } else {
            TokenView::Match(part, inverse)
        }
    }
}

/// The first token of a query, and what follows it.
pub open spec fn next_token(s: Seq<char>) -> (TokenView, Seq<char>) {
    if "r/"@.is_prefix_of(s) {
        regex_token(s.skip(2))
    } else {
        let i = first_at(s, ' ');
        if i < s.len() {
            (word_token(s.take(i)), s.skip(i + 1))
        } else {
            (word_token(s), Seq::empty())
        }
    }
}

/// What follows the first token of a query is shorter than the query.
pub proof fn lemma_next_token_shrinks(s: Seq<char>)
    requires
        s.len() > 0,
    ensures
        next_token(s).1.len() < s.len(),
{
    lemma_first_where(s, is_char(' '));
    reveal_strlit("r/");
    reveal_strlit("/ ");
    if occurs_in(s.skip(2), "/ "@) {
        lemma_first_occurs(s.skip(2), "/ "@);
    }
}

/// Where a text stands somewhere, there is a first place.
proof fn lemma_first_occurs(s: Seq<char>, needle: Seq<char>)
    requires
        occurs_in(s, needle),
    ensures
        exists|i: int| first_occurs_at(s, needle, i),
{
    let i = choose|i: int| occurs_at(s, needle, i);
    lemma_first_occurs_by(s, needle, i);
}

proof fn lemma_first_occurs_by(s: Seq<char>, needle: Seq<char>, i: int)
    requires
        occurs_at(s, needle, i),
    ensures
        exists|j: int| first_occurs_at(s, needle, j),
    decreases i,
{
    if forall|j: int| 0 <= j < i ==> !occurs_at(s, needle, j) {
        assert(first_occurs_at(s, needle, i));
    } else {
        let j = choose|j: int| 0 <= j < i && occurs_at(s, needle, j);
        lemma_first_occurs_by(s, needle, j);
    }
}

/// There is one first place.
pub proof fn lemma_first_occurs_is(s: Seq<char>, needle: Seq<char>, i: int)
    requires
        first_occurs_at(s, needle, i),
    ensures
        (choose|j: int| first_occurs_at(s, needle, j)) == i,
{
    let j = choose|j: int| first_occurs_at(s, needle, j);
    assert(first_occurs_at(s, needle, j));
    if j < i {
        assert(!occurs_at(s, needle, j));
    } else if i < j {
        assert(!occurs_at(s, needle, i));
    }
}

/// The tokens of a query.
pub open spec fn tokens_of(s: Seq<char>) -> Seq<TokenView>
    decreases s.len(),
{
    if s.len() == 0 {
        Seq::empty()
    } else {
        proof {
            lemma_next_token_shrinks(s);
        }
        seq![next_token(s).0] + tokens_of(next_token(s).1)
    }
}

/// Cuts a query into tokens, one at a time.
pub struct QueryTokenizer<'a> {
    query: &'a str,
    chars: Vec<char>,
    last_pos: usize,
}

impl<'a> QueryTokenizer<'a> {
    /// What of the query has not been cut into tokens yet.
    pub closed spec fn remaining(&self) -> Seq<char> {
        self.query@.skip(self.last_pos as int)
    }

    /// Whether the position is within the query.
    pub closed spec fn wf(&self) -> bool {
        self.chars@ == self.query@ && self.last_pos <= self.chars.len()
    }

    /// Starts at the first token of `query`.
    pub fn new(query: &'a str) -> (tokenizer: Self)
        ensures
            tokenizer.wf(),
            tokenizer.remaining() == query@,
    {
        let chars = chars_of(query);
        assert(query@.skip(0) =~= query@);
        QueryTokenizer { query, chars, last_pos: 0 }
    }

    /// The next token of the query, if there is one.
    pub fn next(&mut self) -> (token: Option<QueryToken<'a>>)
        requires
            old(self).wf(),
        ensures
            final(self).wf(),
            old(self).remaining().len() == 0 ==> token is None && final(self).remaining() == old(
                self,
            ).remaining(),
            old(self).remaining().len() > 0 ==> {
                &&& token matches Some(t) && t@ == next_token(old(self).remaining()).0
                &&& final(self).remaining() == next_token(old(self).remaining()).1
            },
    {
        let n: usize = self.chars.len();
        let from: usize = self.last_pos;
        if from >= n {
            return None;
        }
        let query: &'a str = self.query;
        let rest = slice_subrange(self.chars.as_slice(), from, n);
        let ghost s = self.remaining();
        assert(rest@ =~= s);
        let mark = chars_of("r/");
        proof {
            reveal_strlit("r/");
            reveal_strlit("/ ");
        }
        if starts_with(rest, mark.as_slice()) {
            let body = slice_subrange(rest, 2, rest.len());
            assert(body@ =~= s.skip(2));
            let stop = chars_of("/ ");
            match find_text(body, stop.as_slice()) {
                Some(end) => {
                    proof {
                        lemma_first_occurs_is(s.skip(2), "/ "@, end as int);
                    }
                    let pattern = query.substring_char(from + 2, from + 2 + end);
                    self.last_pos = from + 2 + end + 2;
                    assert(pattern@ =~= s.skip(2).take(end as int));
                    assert(self.remaining() =~= s.skip(2).skip(end + 2));
                    Some(QueryToken::Regex(pattern))
                },
                None => {
                    let to: usize = if body.len() > 0 && body[body.len() - 1] == '/' {
                        n - 1
                    } else {
                        n
                    };
                    let pattern = query.substring_char(from + 2, to);
                    self.last_pos = n;
                    assert(to == n ==> pattern@ =~= s.skip(2));
                    assert(to < n ==> pattern@ =~= s.skip(2).drop_last());
                    assert(self.remaining() =~= Seq::empty());
                    Some(QueryToken::Regex(pattern))
                },
            }
        } else {
            proof {
                lemma_first_where(s, is_char(' '));
            }
            let to: usize = match find_char(rest, ' ') {
                Some(i) => {
                    self.last_pos = from + i + 1;
                    from + i
                },
                None => {
                    self.last_pos = n;
                    n
                },
            };
            let ghost word = query@.subrange(from as int, to as int);
            assert(first_at(s, ' ') < s.len() ==> word =~= s.take(first_at(s, ' ')));
            assert(first_at(s, ' ') == s.len() ==> word =~= s);
            assert(first_at(s, ' ') < s.len() ==> self.remaining() =~= s.skip(first_at(s, ' ') + 1));
            assert(first_at(s, ' ') == s.len() ==> self.remaining() =~= Seq::empty());
            Some(self.word_at(from, to))
        }
    }

    /// The token that the word between two positions makes.
    fn word_at(&self, from: usize, to: usize) -> (token: QueryToken<'a>)
        requires
            self.wf(),
            from <= to <= self.query@.len(),
        ensures
            token@ == word_token(self.query@.subrange(from as int, to as int)),
    {
        let query: &'a str = self.query;
        let ghost word = query@.subrange(from as int, to as int);
        proof {
            reveal_strlit("|");
        }
        if to - from == 1 && self.chars[from] == '|' {
            assert(word =~= "|"@);
            return QueryToken::Or;
        }
        assert(word != "|"@) by {
            if word == "|"@ {
                assert(word.len() == 1 && word[0] == '|');
                assert(word[0] == self.chars@[from as int]);
            }
        }
        let inverse: bool = from < to && self.chars[from] == '!';
        let start: usize = if inverse {
            from + 1
        } else {
            from
        };
        let ghost part = query@.subrange(start as int, to as int);
        assert(part =~= (if inverse {
            word.skip(1)
        } else {
            word
        }));
        if start < to && self.chars[start] == '^' {
            let term = query.substring_char(start + 1, to);
            assert(term@ =~= part.skip(1));
            QueryToken::MatchStart(term, inverse)
        } else if start < to && self.chars[to - 1] == '$' {
            let term = query.substring_char(start, to - 1);
            assert(term@ =~= part.drop_last());
            QueryToken::MatchEnd(term, inverse)
        } else if start < to && self.chars[start] == '\'' {
            let term = query.substring_char(start + 1, to);
            assert(term@ =~= part.skip(1));
            QueryToken::MatchFull(term, inverse)
        } else {
            QueryToken::Match(query.substring_char(start, to), inverse)
        }
    }

    /// The tokens that are left.
    pub fn tokens(self) -> (tokens: Vec<QueryToken<'a>>)
        requires
            self.wf(),
        ensures
            token_views(tokens@) == tokens_of(self.remaining()),
    {
        let mut rest = self;
        let mut tokens: Vec<QueryToken<'a>> = Vec::new();
        let ghost all = tokens_of(self.remaining());
        let mut more = rest.last_pos < rest.chars.len();
        assert(token_views(tokens@) + all =~= all);
        while more
            invariant
                rest.wf(),
                token_views(tokens@) + tokens_of(rest.remaining()) == all,
                more == (rest.remaining().len() > 0),
            decreases rest.remaining().len(),
        {
            proof {
                lemma_next_token_shrinks(rest.remaining());
            }
            let ghost before = rest.remaining();
            let ghost so_far = tokens@;
            match rest.next() {
                Some(token) => {
                    tokens.push(token);
                    assert(token_views(tokens@) =~= token_views(so_far).push(token@));
                },
                None => {},
            }
            assert(tokens_of(before) == seq![next_token(before).0] + tokens_of(rest.remaining()));
            assert(token_views(tokens@) + tokens_of(rest.remaining()) =~= token_views(so_far)
                + tokens_of(before));
            more = rest.last_pos < rest.chars.len();
        }
        assert(tokens_of(rest.remaining()) =~= Seq::empty());
        assert(token_views(tokens@) =~= all);
        tokens
    }
}

/// What each token says.
pub open spec fn token_views<'a>(tokens: Seq<QueryToken<'a>>) -> Seq<TokenView> {
    tokens.map_values(|t: QueryToken<'a>| t@)
}

/// A text with the upper-case ASCII letters in lower case.
fn to_ascii_lower_case(s: &[char]) -> (out: Vec<char>)
    ensures
        out@ == ascii_lower_case(s@),
{
    let mut out: Vec<char> = Vec::with_capacity(s.len());
    let mut i: usize = 0;
    while i < s.len()
        invariant
            i <= s.len(),
            out.len() == i,
            forall|j: int| 0 <= j < i ==> #[trigger] out@[j] == ascii_lower(s@[j]),
        decreases s.len() - i,
    {
        let c: char = s[i];
        if 'A' <= c && c <= 'Z' {
            let lower: u8 = c as u8 + 32u8;
            out.push(lower as char);
        } else {
            out.push(c);
        }
        i = i + 1;
    }
    assert(out@ =~= ascii_lower_case(s@));
    out
}

/// What `regex::Regex` finds of a pattern in a text: `None` where the pattern is not a valid
/// one, and else whether it matches somewhere in the text.
pub uninterp spec fn regex_found(pattern: Seq<char>, text: Seq<char>) -> Option<bool>;

/// `regex::Regex::new` and `regex::Regex::is_match`. Both depend on the pattern and the text
/// alone; which patterns are valid, and what they match, is left to the crate.
#[verifier::external_body]
pub(crate) fn regex_search(pattern: &str, text: &str) -> (found: Option<bool>)
    ensures
        found == regex_found(pattern@, text@),
{
    match regex::Regex::new(pattern) {
        Ok(re) => Some(re.is_match(text)),
        Err(_) => None,
    }
}

/// Whether a token that was not marked matches a command; `found` tells that of a regular
/// expression. A term without an upper-case character is looked for in the command with its
/// ASCII letters in lower case.
pub open spec fn token_matches(token: TokenView, command: Seq<char>, found: bool) -> bool {
    let text = if token.has_uppercase() {
        command
    } else {
        ascii_lower_case(command)
    };
    match token {
        TokenView::Match(term, _) => occurs_in(text, term),
        TokenView::MatchStart(term, _) => term.is_prefix_of(text),
        TokenView::MatchEnd(term, _) => term.is_suffix_of(text),
        TokenView::MatchFull(term, _) => text == term,
        TokenView::Or => true,
        TokenView::Regex(_) => found,
    }
}

/// Whether a query matches a command, where `found` tells of each token that is a regular
/// expression whether it matches. In the prefix mode only a first token that is a plain term
/// counts, and it has to be what the command starts with. In any other mode every token counts
/// that was not marked, and has to match.
pub open spec fn query_matches(
    command: Seq<char>,
    tokens: Seq<TokenView>,
    mode: SearchMode,
    found: Seq<bool>,
) -> bool {
    if mode == SearchMode::Prefix {
        tokens.len() > 0 ==> (tokens[0] matches TokenView::Match(term, false)
            ==> term.is_prefix_of(command))
    } else {
        forall|i: int|
            0 <= i < tokens.len() ==> (#[trigger] tokens[i]).is_inverse() || token_matches(
                tokens[i],
                command,
                found[i],
            )
    }
}

/// Of each token, whether it is a valid regular expression that matches a command.
pub open spec fn regex_verdicts(tokens: Seq<TokenView>, command: Seq<char>) -> Seq<bool> {
    tokens.map_values(
        |t: TokenView|
            match t {
                TokenView::Regex(pattern) => regex_found(pattern, command) == Some(true),
                _ => false,
            },
    )
}

fn token_matches_command<'a>(
    token: &QueryToken<'a>,
    command: &[char],
    lower: &[char],
    found: bool,
) -> (b: bool)
    requires
        lower@ == ascii_lower_case(command@),
    ensures
        b == token_matches(token@, command@, found),
{
    let text: &[char] = if token.has_uppercase() {
        command
    } else {
        lower
    };
    match token {
        QueryToken::Match(term, _) => {
            let term = chars_of(term);
            contains_text(text, term.as_slice())
        },
        QueryToken::MatchStart(term, _) => {
            let term = chars_of(term);
            starts_with(text, term.as_slice())
        },
        QueryToken::MatchEnd(term, _) => {
            let term = chars_of(term);
            ends_with(text, term.as_slice())
        },
        QueryToken::MatchFull(term, _) => {
            let term = chars_of(term);
            same_chars(text, term.as_slice())
        },
        QueryToken::Or => true,
        QueryToken::Regex(_) => found,
    }
}

/// Whether a query matches a command, where `found` tells of each token that is a regular
/// expression whether it matches.
pub fn matches_given<'a>(
    command: &str,
    tokens: &Vec<QueryToken<'a>>,
    mode: SearchMode,
    found: &Vec<bool>,
) -> (b: bool)
    requires
        found.len() == tokens.len(),
    ensures
        b == query_matches(command@, token_views(tokens@), mode, found@),
{
    let ghost views = token_views(tokens@);
    let chars = chars_of(command);
    match mode {
        SearchMode::Prefix => {
            if tokens.len() == 0 {
                return true;
            }
            assert(views[0] == tokens@[0]@);
            match &tokens[0] {
                QueryToken::Match(term, false) => {
                    let term = chars_of(term);
                    starts_with(chars.as_slice(), term.as_slice())
                },
                _ => true,
            }
        },
        _ => {
            let lower = to_ascii_lower_case(chars.as_slice());
            let mut i: usize = 0;
            while i < tokens.len()
                invariant
                    i <= tokens.len(),
                    found.len() == tokens.len(),
                    mode != SearchMode::Prefix,
                    views == token_views(tokens@),
                    chars@ == command@,
                    lower@ == ascii_lower_case(command@),
                    forall|j: int|
                        0 <= j < i ==> (#[trigger] views[j]).is_inverse() || token_matches(
                            views[j],
                            command@,
                            found@[j],
                        ),
                decreases tokens.len() - i,
            {
                let token = &tokens[i];
                assert(views[i as int] == token@);
                if !token.is_inverse() && !token_matches_command(
                    token,
                    chars.as_slice(),
                    lower.as_slice(),
                    found[i],
                ) {
                    return false;
                }
                i = i + 1;
            }
            true
        },
    }
}

/// Whether a query matches a command. A regular expression that is not valid matches nothing.
pub fn matches_query<'a>(command: &str, tokens: &Vec<QueryToken<'a>>, mode: SearchMode) -> (b: bool)
    ensures
        b == query_matches(
            command@,
            token_views(tokens@),
            mode,
            regex_verdicts(token_views(tokens@), command@),
        ),
{
    let ghost views = token_views(tokens@);
    let mut found: Vec<bool> = Vec::with_capacity(tokens.len());
    let mut i: usize = 0;
    while i < tokens.len()
        invariant
            i <= tokens.len(),
            found.len() == i,
            views == token_views(tokens@),
            forall|j: int|
                0 <= j < i ==> #[trigger] found@[j] == regex_verdicts(views, command@)[j],
        decreases tokens.len() - i,
    {
        assert(views[i as int] == tokens@[i as int]@);
        let verdict: bool = match &tokens[i] {
            QueryToken::Regex(pattern) => match regex_search(pattern, command) {
                Some(b) => b,
                None => false,
            },
            _ => false,
        };
        found.push(verdict);
        i = i + 1;
    }
    assert(found@ =~= regex_verdicts(views, command@));
    matches_given(command, tokens, mode, &found)
}

/// A query of nothing matches every command.
pub proof fn law_empty_query_matches(command: Seq<char>, mode: SearchMode)
    ensures
        query_matches(
            command,
            tokens_of(Seq::empty()),
            mode,
            regex_verdicts(tokens_of(Seq::empty()), command),
        ),
{
}

/// In every mode but the prefix mode, two queries put together match exactly what each of them
/// matches; so adding tokens to a query never adds matches.
pub proof fn law_queries_put_together(
    command: Seq<char>,
    tokens: Seq<TokenView>,
    more: Seq<TokenView>,
    mode: SearchMode,
)
    requires
        mode != SearchMode::Prefix,
    ensures
        query_matches(command, tokens + more, mode, regex_verdicts(tokens + more, command)) <==> (
        query_matches(command, tokens, mode, regex_verdicts(tokens, command)) && query_matches(
            command,
            more,
            mode,
            regex_verdicts(more, command),
        )),
{
    let all = tokens + more;
    let n = tokens.len() as int;
    let found = regex_verdicts(all, command);
    if query_matches(command, all, mode, found) {
        assert forall|i: int| 0 <= i < tokens.len() implies (#[trigger] tokens[i]).is_inverse()
            || token_matches(tokens[i], command, regex_verdicts(tokens, command)[i]) by {
            assert(all[i] == tokens[i]);
        }
        assert forall|i: int| 0 <= i < more.len() implies (#[trigger] more[i]).is_inverse()
            || token_matches(more[i], command, regex_verdicts(more, command)[i]) by {
            assert(all[n + i] == more[i]);
        }
    }
    if query_matches(command, tokens, mode, regex_verdicts(tokens, command)) && query_matches(
        command,
        more,
        mode,
        regex_verdicts(more, command),
    ) {
        assert forall|i: int| 0 <= i < all.len() implies (#[trigger] all[i]).is_inverse()
            || token_matches(all[i], command, found[i]) by {
            if i < n {
                assert(all[i] == tokens[i]);
            } else {
                assert(all[i] == more[i - n]);
            }
        }
    }
}

} // verus!

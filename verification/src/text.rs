//! Text as sequences of characters: searching, splitting, trimming, and numbers in decimal.
use vstd::prelude::*;
use vstd::slice::slice_subrange;
use vstd::utf8::{decode_utf8, valid_utf8};

verus! {

/// `String::push` appends one character to the end of the string.
pub assume_specification[ String::push ](s: &mut String, c: char)
    ensures
        final(s)@ == old(s)@.push(c),
;

/// The characters that have Unicode's `White_Space` property.
pub open spec fn white_space(c: char) -> bool {
    ||| '\u{9}' <= c <= '\u{d}'
    ||| c == ' '
    ||| c == '\u{85}'
    ||| c == '\u{a0}'
    ||| c == '\u{1680}'
    ||| '\u{2000}' <= c <= '\u{200a}'
    ||| c == '\u{2028}'
    ||| c == '\u{2029}'
    ||| c == '\u{202f}'
    ||| c == '\u{205f}'
    ||| c == '\u{3000}'
}

/// `char::is_whitespace` tells whether the character has the `White_Space` property that
/// Unicode's property list gives; `white_space` lists those characters.
pub assume_specification[ char::is_whitespace ](c: char) -> (b: bool)
    ensures
        b == white_space(c),
;

/// Whether `char::is_uppercase` holds of a character: whether it has Unicode's `Uppercase`
/// property.
pub uninterp spec fn unicode_upper(c: char) -> bool;

/// Whether a character is upper case: of the ASCII characters the letters from `A` to `Z` are,
/// and of the others those that have Unicode's `Uppercase` property.
pub open spec fn upper_case(c: char) -> bool {
    if c <= '\x7f' {
        'A' <= c <= 'Z'
    } else {
        unicode_upper(c)
    }
}

/// `char::is_uppercase` depends on its argument alone. Of the ASCII characters it holds of the
/// letters from `A` to `Z`; which others have the property is left to Unicode's tables.
pub assume_specification[ char::is_uppercase ](c: char) -> (b: bool)
    ensures
        b == unicode_upper(c),
        c <= '\x7f' ==> b == ('A' <= c <= 'Z'),
;

/// A character, an upper-case ASCII letter in lower case.
pub open spec fn ascii_lower(c: char) -> char {
    if 'A' <= c <= 'Z' {
        ((c as int) + 32) as char
    } else {
        c
    }
}

/// A text with the upper-case ASCII letters in lower case.
pub open spec fn ascii_lower_case(s: Seq<char>) -> Seq<char> {
    s.map_values(|c: char| ascii_lower(c))
}

/// Whether all characters of a text are ASCII characters.
pub open spec fn all_ascii(s: Seq<char>) -> bool {
    forall|i: int| 0 <= i < s.len() ==> #[trigger] s[i] <= '\x7f'
}

/// What `str::to_lowercase` makes of a text.
pub uninterp spec fn unicode_lower(s: Seq<char>) -> Seq<char>;

/// A text in lower case: letter by letter where it is all ASCII, and else by Unicode's tables.
pub open spec fn lower_case(s: Seq<char>) -> Seq<char> {
    if all_ascii(s) {
        ascii_lower_case(s)
    } else {
        unicode_lower(s)
    }
}

/// `str::to_lowercase` depends on the text alone. In a text of ASCII characters the letters from
/// `A` to `Z` are replaced and no others; the mapping of other texts is left to Unicode's tables.
pub assume_specification[ str::to_lowercase ](s: &str) -> (out: String)
    ensures
        out@ == unicode_lower(s@),
        all_ascii(s@) ==> out@ == ascii_lower_case(s@),
;

/// What `String::from_utf8_lossy` makes of a run of bytes.
pub uninterp spec fn replaced_text(bytes: Seq<u8>) -> Seq<char>;

/// Bytes read as text: what they encode where they are valid UTF-8, and else something with
/// replacements in it.
pub open spec fn lossy_text(bytes: Seq<u8>) -> Seq<char> {
    if valid_utf8(bytes) {
        decode_utf8(bytes)
    } else {
        replaced_text(bytes)
    }
}

/// `String::from_utf8_lossy` reads bytes as UTF-8. Bytes that are valid UTF-8 come out as the
/// text they encode; what stands for the invalid ones is left unsaid.
#[verifier::external_body]
pub(crate) fn text_of_bytes(bytes: &[u8]) -> (out: String)
    ensures
        out@ == replaced_text(bytes@),
        valid_utf8(bytes@) ==> out@ == decode_utf8(bytes@),
{
    String::from_utf8_lossy(bytes).into_owned()
}

/// The characters of `s`, in order.
pub fn chars_of(s: &str) -> (out: Vec<char>)
    ensures
        out@ == s@,
{
    let mut out: Vec<char> = Vec::new();
    for c in it: s.chars()
        invariant
            out@ == it.seq().take(it.index()),
            it.seq() == s@,
    {
        out.push(c);
        assert(it.seq().take(it.index() + 1) =~= it.seq().take(it.index()).push(c));
    }
    assert(s@.take(s@.len() as int) =~= s@);
    out
}

/// The string that holds `chars`.
pub fn text_of(chars: &[char]) -> (out: String)
    ensures
        out@ == chars@,
{
    let mut out = String::new();
    let mut i: usize = 0;
    while i < chars.len()
        invariant
            i <= chars.len(),
            out@ == chars@.take(i as int),
        decreases chars.len() - i,
    {
        out.push(chars[i]);
        i = i + 1;
        assert(chars@.take(i as int) =~= chars@.take(i - 1).push(chars@[i - 1]));
    }
    assert(chars@.take(i as int) =~= chars@);
    out
}

/// Whether two runs of characters are the same.
pub fn same_chars(a: &[char], b: &[char]) -> (same: bool)
    ensures
        same == (a@ == b@),
{
    if a.len() != b.len() {
        return false;
    }
    let mut i: usize = 0;
    while i < a.len()
        invariant
            a.len() == b.len(),
            i <= a.len(),
            forall|j: int| 0 <= j < i ==> a@[j] == b@[j],
        decreases a.len() - i,
    {
        if a[i] != b[i] {
            return false;
        }
        i = i + 1;
    }
    assert(a@ =~= b@);
    true
}

/// Whether two strings hold the same text.
pub fn same_text(a: &str, b: &str) -> (same: bool)
    ensures
        same == (a@ == b@),
{
    let x = chars_of(a);
    let y = chars_of(b);
    same_chars(x.as_slice(), y.as_slice())
}

/// The position of the first character that `p` picks out, or the length where none is.
pub open spec fn first_where(s: Seq<char>, p: spec_fn(char) -> bool) -> int
    decreases s.len(),
{
    if s.len() == 0 {
        0
    } else if p(s[0]) {
        0
    } else {
        1 + first_where(s.drop_first(), p)
    }
}

/// `first_where` is the one position with nothing picked out before it and, short of the end,
/// a character that is picked out on it.
pub proof fn lemma_first_where(s: Seq<char>, p: spec_fn(char) -> bool)
    ensures
        0 <= first_where(s, p) <= s.len(),
        forall|j: int| 0 <= j < first_where(s, p) ==> !p(#[trigger] s[j]),
        first_where(s, p) < s.len() ==> p(s[first_where(s, p)]),
    decreases s.len(),
{
    if s.len() > 0 && !p(s[0]) {
        let rest = s.drop_first();
        lemma_first_where(rest, p);
        let k = first_where(rest, p);
        assert forall|j: int| 0 <= j < k + 1 implies !p(#[trigger] s[j]) by {
            if j > 0 {
                assert(s[j] == rest[j - 1]);
            }
        }
        if k < rest.len() {
            assert(rest[k] == s[k + 1]);
        }
    }
}

/// Nothing picked out before `i`, and a character that is picked out on `i` or the end there:
/// then `first_where` is `i`.
pub proof fn lemma_first_where_is(s: Seq<char>, p: spec_fn(char) -> bool, i: int)
    requires
        0 <= i <= s.len(),
        forall|j: int| 0 <= j < i ==> !p(#[trigger] s[j]),
        i < s.len() ==> p(s[i]),
    ensures
        first_where(s, p) == i,
{
    lemma_first_where(s, p);
    let k = first_where(s, p);
    if k < i {
        assert(!p(s[k]));
    } else if i < k {
        assert(!p(s[i]));
    }
}

/// Picks out the character `c`.
pub open spec fn is_char(c: char) -> spec_fn(char) -> bool {
    |x: char| x == c
}

/// The position of the first `c`, or the length where there is none.
pub open spec fn first_at(s: Seq<char>, c: char) -> int {
    first_where(s, is_char(c))
}

/// The position of the first `c` in `s`.
pub fn find_char(s: &[char], c: char) -> (at: Option<usize>)
    ensures
        at matches Some(i) ==> i == first_at(s@, c) && i < s@.len(),
        at is None ==> first_at(s@, c) == s@.len(),
        at is Some <==> s@.contains(c),
{
    let mut i: usize = 0;
    while i < s.len()
        invariant
            i <= s.len(),
            forall|j: int| 0 <= j < i ==> s@[j] != c,
        decreases s.len() - i,
    {
        if s[i] == c {
            proof {
                lemma_first_where_is(s@, is_char(c), i as int);
            }
            return Some(i);
        }
        i = i + 1;
    }
    proof {
        lemma_first_where_is(s@, is_char(c), i as int);
    }
    None
}

/// Picks out what is not white space.
pub open spec fn not_white_space() -> spec_fn(char) -> bool {
    |c: char| !white_space(c)
}

/// `s` without the white space at its start.
pub open spec fn trimmed_start(s: Seq<char>) -> Seq<char> {
    s.skip(first_where(s, not_white_space()))
}

/// `s` without the white space at its end.
pub open spec fn trimmed_end(s: Seq<char>) -> Seq<char>
    decreases s.len(),
{
    if s.len() > 0 && white_space(s.last()) {
        trimmed_end(s.drop_last())
    } else {
        s
    }
}

/// `s` without the white space at either end.
pub open spec fn trimmed(s: Seq<char>) -> Seq<char> {
    trimmed_end(trimmed_start(s))
}

/// `s` without the white space at its start.
pub fn trim_start(s: &[char]) -> (out: &[char])
    ensures
        out@ == trimmed_start(s@),
{
    let mut i: usize = 0;
    while i < s.len() && s[i].is_whitespace()
        invariant
            i <= s.len(),
            forall|j: int| 0 <= j < i ==> white_space(#[trigger] s@[j]),
        decreases s.len() - i,
    {
        i = i + 1;
    }
    proof {
        lemma_first_where_is(s@, not_white_space(), i as int);
    }
    slice_subrange(s, i, s.len())
}

/// `s` without the white space at either end.
pub fn trim(s: &[char]) -> (out: &[char])
    ensures
        out@ == trimmed(s@),
{
    let t = trim_start(s);
    let mut n: usize = t.len();
    assert(t@.take(n as int) =~= t@);
    while n > 0 && t[n - 1].is_whitespace()
        invariant
            n <= t.len(),
            trimmed_end(t@.take(n as int)) == trimmed_end(t@),
        decreases n,
    {
        assert(t@.take(n as int).drop_last() =~= t@.take(n - 1));
        n = n - 1;
    }
    assert(trimmed_end(t@.take(n as int)) == t@.take(n as int));
    slice_subrange(t, 0, n)
}

/// Whether `s` begins with `prefix`.
pub fn starts_with(s: &[char], prefix: &[char]) -> (b: bool)
    ensures
        b == prefix@.is_prefix_of(s@),
{
    if prefix.len() > s.len() {
        return false;
    }
    let head = slice_subrange(s, 0, prefix.len());
    same_chars(head, prefix)
}

/// Whether `s` ends with `suffix`.
pub fn ends_with(s: &[char], suffix: &[char]) -> (b: bool)
    ensures
        b == suffix@.is_suffix_of(s@),
{
    if suffix.len() > s.len() {
        return false;
    }
    let tail = slice_subrange(s, s.len() - suffix.len(), s.len());
    same_chars(tail, suffix)
}

/// Whether `needle` stands in `s` from position `i` on.
pub open spec fn occurs_at(s: Seq<char>, needle: Seq<char>, i: int) -> bool {
    0 <= i && i + needle.len() <= s.len() && s.subrange(i, i + needle.len()) == needle
}

/// Whether `needle` stands somewhere in `s`.
pub open spec fn occurs_in(s: Seq<char>, needle: Seq<char>) -> bool {
    exists|i: int| occurs_at(s, needle, i)
}

/// The first place at which `needle` stands in `s`.
pub fn find_text(s: &[char], needle: &[char]) -> (at: Option<usize>)
    ensures
        at matches Some(i) ==> occurs_at(s@, needle@, i as int) && forall|j: int|
            0 <= j < i ==> !occurs_at(s@, needle@, j),
        at is None ==> !occurs_in(s@, needle@),
{
    if needle.len() > s.len() {
        return None;
    }
    let last: usize = s.len() - needle.len();
    let mut i: usize = 0;
    while i <= last
        invariant
            last == s.len() - needle.len(),
            i <= last + 1,
            forall|j: int| 0 <= j < i ==> !occurs_at(s@, needle@, j),
        decreases last + 1 - i,
    {
        let window = slice_subrange(s, i, i + needle.len());
        if same_chars(window, needle) {
            assert(occurs_at(s@, needle@, i as int));
            return Some(i);
        }
        assert(!occurs_at(s@, needle@, i as int));
        if i == last {
            return None;
        }
        i = i + 1;
    }
    None
}

/// Whether `needle` stands somewhere in `s`.
pub fn contains_text(s: &[char], needle: &[char]) -> (b: bool)
    ensures
        b == occurs_in(s@, needle@),
{
    match find_text(s, needle) {
        Some(_) => true,
        None => false,
    }
}

/// The parts of `s` between one `sep` and the next.
pub open spec fn split_at_char(s: Seq<char>, sep: char) -> Seq<Seq<char>>
    decreases s.len(),
{
    proof {
        lemma_first_where(s, is_char(sep));
    }
    let i = first_at(s, sep);
    if i == s.len() {
        seq![s]
    } else {
        seq![s.take(i)] + split_at_char(s.skip(i + 1), sep)
    }
}

/// Whether `part` is one of the parts of `s` between one `sep` and the next.
pub open spec fn has_part(s: Seq<char>, sep: char, part: Seq<char>) -> bool {
    split_at_char(s, sep).contains(part)
}

/// The parts of a text that has a separator at `i`: the parts before it, and those after it.
pub proof fn lemma_split_append(a: Seq<char>, b: Seq<char>, sep: char)
    ensures
        split_at_char(a + seq![sep] + b, sep) == split_at_char(a, sep) + split_at_char(b, sep),
    decreases a.len(),
{
    let whole = a + seq![sep] + b;
    let i = first_at(a, sep);
    lemma_first_where(a, is_char(sep));
    if i == a.len() {
        assert forall|j: int| 0 <= j < i implies !is_char(sep)(#[trigger] whole[j]) by {
            assert(whole[j] == a[j]);
        }
        assert(whole[i] == sep);
        lemma_first_where_is(whole, is_char(sep), i);
        assert(whole.take(i) =~= a);
        assert(whole.skip(i + 1) =~= b);
    } else {
        assert forall|j: int| 0 <= j < i implies !is_char(sep)(#[trigger] whole[j]) by {
            assert(whole[j] == a[j]);
        }
        assert(whole[i] == a[i]);
        lemma_first_where_is(whole, is_char(sep), i);
        let rest = a.skip(i + 1);
        lemma_split_append(rest, b, sep);
        assert(whole.take(i) =~= a.take(i));
        assert(whole.skip(i + 1) =~= rest + seq![sep] + b);
        assert(split_at_char(whole, sep) =~= split_at_char(a, sep) + split_at_char(b, sep));
    }
}

/// Whether `part` is one of the parts of `s` between one `sep` and the next.
pub fn contains_part(s: &[char], sep: char, part: &[char]) -> (b: bool)
    ensures
        b == has_part(s@, sep, part@),
{
    let mut rest = s;
    loop
        invariant
            has_part(s@, sep, part@) == has_part(rest@, sep, part@),
        decreases rest.len(),
    {
        let ghost whole = rest@;
        proof {
            lemma_first_where(whole, is_char(sep));
        }
        match find_char(rest, sep) {
            None => {
                assert(split_at_char(whole, sep) == seq![whole]);
                let same = same_chars(rest, part);
                assert(seq![whole].contains(part@) == (whole == part@)) by {
                    assert(seq![whole][0] == whole);
                }
                return same;
            },
            Some(i) => {
                let head = slice_subrange(rest, 0, i);
                let next = slice_subrange(rest, i + 1, rest.len());
                assert(head@ =~= whole.take(i as int));
                assert(next@ =~= whole.skip(i + 1));
                assert(split_at_char(whole, sep) == seq![head@] + split_at_char(next@, sep));
                assert((seq![head@] + split_at_char(next@, sep)).contains(part@) <==> (head@
                    == part@ || split_at_char(next@, sep).contains(part@))) by {
                    let parts = split_at_char(next@, sep);
                    let both = seq![head@] + parts;
                    if both.contains(part@) {
                        let k = choose|k: int| 0 <= k < both.len() && both[k] == part@;
                        if k > 0 {
                            assert(parts[k - 1] == part@);
                        }
                    }
                    if head@ == part@ {
                        assert(both[0] == part@);
                    }
                    if parts.contains(part@) {
                        let k = choose|k: int| 0 <= k < parts.len() && parts[k] == part@;
                        assert(both[k + 1] == part@);
                    }
                }
                if same_chars(head, part) {
                    return true;
                }
                rest = next;
            },
        }
    }
}

/// `s` without a carriage return at its end.
pub open spec fn without_return(s: Seq<char>) -> Seq<char> {
    if s.len() > 0 && s.last() == '\r' {
        s.drop_last()
    } else {
        s
    }
}

/// The lines of a text. A line feed, with a carriage return before it or not, ends a line; the
/// last line need not have one.
pub open spec fn lines_of(s: Seq<char>) -> Seq<Seq<char>>
    decreases s.len(),
{
    proof {
        lemma_first_where(s, is_char('\n'));
    }
    let i = first_at(s, '\n');
    if s.len() == 0 {
        Seq::empty()
    } else if i == s.len() {
        seq![s]
    } else {
        seq![without_return(s.take(i))] + lines_of(s.skip(i + 1))
    }
}

/// The characters of each slice.
pub open spec fn slice_views(v: Seq<&[char]>) -> Seq<Seq<char>> {
    v.map_values(|l: &[char]| l@)
}

/// The lines of a text.
pub fn split_lines<'a>(s: &'a [char]) -> (out: Vec<&'a [char]>)
    ensures
        slice_views(out@) == lines_of(s@),
{
    let mut out: Vec<&'a [char]> = Vec::new();
    let mut rest = s;
    assert(slice_views(out@) + lines_of(s@) =~= lines_of(s@));
    while rest.len() > 0
        invariant
            slice_views(out@) + lines_of(rest@) == lines_of(s@),
        decreases rest.len(),
    {
        let ghost whole = rest@;
        let ghost before = out@;
        proof {
            lemma_first_where(whole, is_char('\n'));
        }
        match find_char(rest, '\n') {
            None => {
                out.push(rest);
                assert(slice_views(out@) =~= slice_views(before) + seq![whole]);
                assert(slice_views(out@) =~= lines_of(s@));
                return out;
            },
            Some(i) => {
                let end: usize = if i > 0 && rest[i - 1] == '\r' {
                    i - 1
                } else {
                    i
                };
                let line = slice_subrange(rest, 0, end);
                let next = slice_subrange(rest, i + 1, rest.len());
                out.push(line);
                assert(line@ =~= without_return(whole.take(i as int)));
                assert(next@ =~= whole.skip(i + 1));
                assert(slice_views(out@) =~= slice_views(before).push(line@));
                assert(slice_views(out@) + lines_of(next@) =~= slice_views(before) + (seq![line@]
                    + lines_of(next@)));
                rest = next;
            },
        }
    }
    assert(slice_views(out@) =~= lines_of(s@));
    out
}

} // verus!

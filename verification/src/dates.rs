//! Dates in everyday English, such as `yesterday`, `last friday 8pm` or `4 July 2017`.
use vstd::prelude::*;
use vstd::slice::slice_subrange;

use crate::clock::{clock_shows, in_calendar, read_clock};
use crate::text::{chars_of, text_of};

verus! {

/// Which English a date is written in.
#[derive(Clone, Copy, Debug, PartialEq, Eq, Structural)]
pub enum Dialect {
    Us,
    Uk,
}

/// What a text gives as a date.
#[derive(Clone, Copy, Debug, PartialEq, Eq, Structural)]
pub enum DateRead {
    /// A date, in nanoseconds since 1970-01-01 UTC.
    Date(i128),
    /// No date: the text ends with an hour to which something is missing, as in `today 8`.
    OpenHour,
    /// No date for another reason.
    Refused,
}

/// Whether `c` is an ASCII letter.
pub open spec fn is_letter(c: char) -> bool {
    ('a' <= c <= 'z') || ('A' <= c <= 'Z')
}

/// Whether a word starts at position `p`.
pub open spec fn word_at(s: Seq<char>, p: int) -> bool {
    &&& 0 <= p < s.len()
    &&& is_letter(s[p])
    &&& p == 0 || !is_letter(s[p - 1])
}

/// The end of the run of letters that starts at position `p`.
pub open spec fn word_end(s: Seq<char>, p: int) -> int
    decreases s.len() - p,
{
    if 0 <= p < s.len() && is_letter(s[p]) {
        word_end(s, p + 1)
    } else {
        p
    }
}

/// Whether the word at position `p` is lower case and shorter than sixteen letters.
pub open spec fn is_plain_word(s: Seq<char>, p: int) -> bool {
    word_end(s, p) - p < 16 && forall|i: int| p <= i < word_end(s, p) ==> 'a' <= #[trigger] s[i]
}

/// What `interim::parse_date_string` reads from a text: relative to `now`, a time in UTC, and in
/// British English or not.
pub uninterp spec fn english_date(text: Seq<char>, now: i128, british: bool) -> DateRead;

/// Whether every word of a text that is not plain stands where the parser takes it: not right
/// after an hour that is still open.
pub open spec fn takes_words(text: Seq<char>, now: i128, british: bool) -> bool {
    forall|p: int| #[trigger]
        word_at(text, p) && !is_plain_word(text, p) ==> english_date(text.take(p), now, british)
            != DateRead::OpenHour
}

/// `interim::parse_date_string` on a time in UTC. Which texts it takes, and as what, is left to
/// that crate; the date that it gives is one of the calendar. After an hour that is still open it
/// panics on a word that is not plain, as in `today 8PM`; how far it has read there is what it
/// says of the text before the word.
#[verifier::external_body]
pub(crate) fn parse_date_string(text: &str, now: i128, dialect: Dialect) -> (out: DateRead)
    requires
        in_calendar(now as int),
        takes_words(text@, now, dialect == Dialect::Uk),
    ensures
        out == english_date(text@, now, dialect == Dialect::Uk),
        out matches DateRead::Date(nanos) ==> in_calendar(nanos as int),
{
    let from = time::OffsetDateTime::from_unix_timestamp_nanos(now).unwrap();
    let english = match dialect {
        Dialect::Uk => interim::Dialect::Uk,
        Dialect::Us => interim::Dialect::Us,
    };
    match interim::parse_date_string(text, from, english) {
        Ok(t) => DateRead::Date(t.unix_timestamp_nanos()),
        Err(interim::DateError::EndOfText("am/pm, ':' or '.'")) => DateRead::OpenHour,
        Err(_) => DateRead::Refused,
    }
}

/// The date that a text gives at the time `now`, if the parser takes its words and it gives one.
pub open spec fn date_value(text: Seq<char>, now: i128, dialect: Dialect) -> Option<i128> {
    if takes_words(text, now, dialect == Dialect::Uk) {
        match english_date(text, now, dialect == Dialect::Uk) {
            DateRead::Date(nanos) => Some(nanos),
            _ => None,
        }
    } else {
        None
    }
}

fn letter(c: char) -> (b: bool)
    ensures
        b == is_letter(c),
{
    ('a' <= c && c <= 'z') || ('A' <= c && c <= 'Z')
}

fn end_of_word(s: &[char], p: usize) -> (q: usize)
    requires
        p <= s@.len(),
    ensures
        q == word_end(s@, p as int),
        p <= q <= s@.len(),
{
    let mut q: usize = p;
    while q < s.len() && letter(s[q])
        invariant
            p <= q <= s@.len(),
            word_end(s@, q as int) == word_end(s@, p as int),
        decreases s.len() - q,
    {
        q = q + 1;
    }
    q
}

fn plain_word(s: &[char], p: usize) -> (b: bool)
    requires
        p <= s@.len(),
    ensures
        b == is_plain_word(s@, p as int),
{
    let end = end_of_word(s, p);
    if end - p >= 16 {
        return false;
    }
    let mut i: usize = p;
    while i < end
        invariant
            p <= i <= end <= s@.len(),
            end == word_end(s@, p as int),
            forall|j: int| p <= j < i ==> 'a' <= #[trigger] s@[j],
        decreases end - i,
    {
        if !('a' <= s[i]) {
            return false;
        }
        i = i + 1;
    }
    true
}

/// A word that stands before the start of another is the same word where the text ends there.
proof fn lemma_word_before(s: Seq<char>, p: int, q: int)
    requires
        0 <= q <= p <= s.len(),
        p == 0 || !is_letter(s[p - 1]),
    ensures
        q < p ==> word_end(s.take(p), q) == word_end(s, q),
        q <= word_end(s.take(p), q) <= p,
    decreases p - q,
{
    if q < p && is_letter(s[q]) {
        lemma_word_before(s, p, q + 1);
    }
}

/// Where the parser takes the words of a text up to the start of one, it takes all words of the
/// text that ends there.
proof fn lemma_takes_words_before(s: Seq<char>, now: i128, british: bool, p: int)
    requires
        0 <= p <= s.len(),
        p == 0 || !is_letter(s[p - 1]),
        forall|q: int|
            q < p && #[trigger] word_at(s, q) && !is_plain_word(s, q) ==> english_date(
                s.take(q),
                now,
                british,
            ) != DateRead::OpenHour,
    ensures
        takes_words(s.take(p), now, british),
{
    let front = s.take(p);
    assert forall|q: int| #[trigger]
        word_at(front, q) && !is_plain_word(front, q) implies english_date(
        front.take(q),
        now,
        british,
    ) != DateRead::OpenHour by {
        lemma_word_before(s, p, q);
        assert(word_at(s, q));
        assert(front.take(q) =~= s.take(q));
        if is_plain_word(s, q) {
            assert forall|i: int| q <= i < word_end(front, q) implies 'a' <= #[trigger] front[i] by {
                assert(front[i] == s[i]);
            }
        }
    }
}

/// The date that a text gives at the time `now`, given in nanoseconds since 1970-01-01 UTC.
pub fn parse_date_at(text: &str, now: i128, dialect: Dialect) -> (out: Option<i128>)
    requires
        in_calendar(now as int),
    ensures
        out == date_value(text@, now, dialect),
        out matches Some(nanos) ==> in_calendar(nanos as int),
{
    let all = chars_of(text);
    let s = all.as_slice();
    let ghost british = dialect == Dialect::Uk;
    let mut p: usize = 0;
    while p < s.len()
        invariant
            s@ == text@,
            in_calendar(now as int),
            british == (dialect == Dialect::Uk),
            forall|q: int|
                q < p && #[trigger] word_at(text@, q) && !is_plain_word(text@, q) ==> english_date(
                    text@.take(q),
                    now,
                    british,
                ) != DateRead::OpenHour,
        decreases s.len() - p,
    {
        if letter(s[p]) && (p == 0 || !letter(s[p - 1])) && !plain_word(s, p) {
            let front = text_of(slice_subrange(s, 0, p));
            proof {
                lemma_takes_words_before(text@, now, british, p as int);
                assert(front@ =~= text@.take(p as int));
            }
            if parse_date_string(front.as_str(), now, dialect) == DateRead::OpenHour {
                assert(word_at(text@, p as int));
                return None;
            }
        }
        p = p + 1;
    }
    match parse_date_string(text, now, dialect) {
        DateRead::Date(nanos) => Some(nanos),
        _ => None,
    }
}

/// The date that a text gives right now: what it gives at the time that the machine's clock is
/// read as.
pub fn parse_date(text: &str, dialect: Dialect) -> (out: Option<i128>)
    ensures
        exists|now: i128| #[trigger]
            clock_shows(now) && in_calendar(now as int) && out == date_value(text@, now, dialect),
        out matches Some(nanos) ==> in_calendar(nanos as int),
{
    let now = read_clock();
    parse_date_at(text, now, dialect)
}

/// The date that a text gives at a time is what the parser reads from the whole text at that time
/// and in that English, where no word of it comes where the parser would not take it; nothing
/// else is a date.
pub proof fn law_date_is_read(text: Seq<char>, now: i128, dialect: Dialect)
    ensures
        date_value(text, now, dialect) matches Some(nanos) ==> english_date(
            text,
            now,
            dialect == Dialect::Uk,
        ) == DateRead::Date(nanos),
        forall|nanos: i128|
            english_date(text, now, dialect == Dialect::Uk) == DateRead::Date(nanos) && takes_words(
                text,
                now,
                dialect == Dialect::Uk,
            ) ==> date_value(text, now, dialect) == Some(nanos),
{
}

} // verus!

//! Time zones as distances from UTC.
use vstd::prelude::*;

use crate::clock::is_offset;
use crate::numbers::{push_zero_padded, zero_padded};
use crate::text::{lower_case, same_text};

verus! {

/// How many seconds local time is ahead of UTC.
#[derive(Clone, Copy, Debug, PartialEq, Eq, Structural)]
pub struct Timezone(pub i32);

/// A text that is not a time zone.
#[derive(Debug)]
pub struct InvalidTimezone {
    pub text: String,
}

impl InvalidTimezone {
    /// What is wrong, in words.
    pub fn message(&self) -> (out: String)
        ensures
            out@ == "\""@ + self.text@ + "\" is not a valid timezone spec"@,
    {
        let mut out = "\"".to_owned();
        out.append(self.text.as_str());
        out.append("\" is not a valid timezone spec");
        out
    }
}

/// The form of a distance from UTC: hours with a sign, and then minutes and seconds, each after
/// a colon, as far as they are there.
pub const OFFSET_FORMAT: &'static str = "[offset_hour sign:mandatory padding:none][optional [:[offset_minute padding:none][optional [:[offset_second padding:none]]]]]";

/// What `time::UtcOffset::parse` reads from a text by a format description, in seconds.
pub uninterp spec fn offset_value(text: Seq<char>, format: Seq<char>) -> Option<i32>;

/// `time::UtcOffset::parse` with the description that `time::format_description::parse_owned`
/// makes of `format`, in the first version of that syntax. Which texts fit a description is
/// left to the crate; what is read is a distance from UTC.
#[verifier::external_body]
pub(crate) fn parse_offset(text: &str, format: &str) -> (out: Option<i32>)
    ensures
        out == offset_value(text@, format@),
        out matches Some(seconds) ==> is_offset(seconds as int),
{
    let description = time::format_description::parse_owned::<1>(format).ok()?;
    time::UtcOffset::parse(text, &description).ok().map(|o| o.whole_seconds())
}

/// `time::UtcOffset::current_local_offset`: how many seconds local time is ahead of UTC right
/// now, where that can be told. It depends on the machine.
#[verifier::external_body]
pub(crate) fn current_local_offset() -> (out: Option<i32>)
    ensures
        out matches Some(seconds) ==> is_offset(seconds as int),
{
    time::UtcOffset::current_local_offset().ok().map(|o| o.whole_seconds())
}

/// Whether `local` is what the machine was asked for and gave as its distance from UTC, or `None`
/// where it could not tell: a call of `current_local_offset` gave it.
pub closed spec fn machine_offset(local: Option<i32>) -> bool {
    call_ensures(current_local_offset, (), local)
}

/// Whether a text names the local time zone.
pub open spec fn names_local(text: Seq<char>) -> bool {
    lower_case(text) == "l"@ || lower_case(text) == "local"@
}

/// Whether a text names UTC.
pub open spec fn names_utc(text: Seq<char>) -> bool {
    lower_case(text) == "0"@ || lower_case(text) == "utc"@
}

/// The time zone that a text stands for, where `local` is how far the local one is ahead of UTC
/// and `read` is what the text says as a distance: the local one for `l` and `local`, UTC for
/// `0` and `utc`, both in any case, and else that distance.
pub open spec fn timezone_of(text: Seq<char>, local: Option<i32>, read: Option<i32>) -> Option<i32> {
    if names_local(text) {
        match local {
            Some(seconds) => Some(seconds),
            None => Some(0i32),
        }
    } else if names_utc(text) {
        Some(0i32)
    } else {
        read
    }
}

/// A distance from UTC as text: a sign, and hours, minutes and seconds of two digits each, with
/// colons between them.
pub open spec fn offset_text(seconds: int) -> Seq<char> {
    let n = if seconds < 0 {
        -seconds
    } else {
        seconds
    };
    seq![if seconds < 0 {
        '-'
    } else {
        '+'
    }] + zero_padded((n / 3600) as nat, 2) + seq![':'] + zero_padded((n / 60 % 60) as nat, 2)
        + seq![':'] + zero_padded((n % 60) as nat, 2)
}

impl Timezone {
    /// The distance from UTC as text, such as `+02:00:00`.
    pub fn text(&self) -> (out: String)
        ensures
            out@ == offset_text(self.0 as int),
    {
        let seconds: i64 = self.0 as i64;
        let n: u64 = if seconds < 0 {
            (0 - seconds) as u64
        } else {
            seconds as u64
        };
        let mut out = String::new();
        if seconds < 0 {
            out.push('-');
        } else {
            out.push('+');
        }
        push_zero_padded(&mut out, n / 3600, 2);
        out.push(':');
        push_zero_padded(&mut out, n / 60 % 60, 2);
        out.push(':');
        push_zero_padded(&mut out, n % 60, 2);
        assert(out@ =~= offset_text(self.0 as int));
        out
    }

    /// The time zone that a text stands for, where `local` is how far the local one is ahead of
    /// UTC and `read` is what the text says as a distance.
    pub fn from_parts(s: &str, local: Option<i32>, read: Option<i32>) -> (out: Option<Timezone>)
        ensures
            out == (match timezone_of(s@, local, read) {
                Some(seconds) => Some(Timezone(seconds)),
                None => None,
            }),
    {
        let lower = s.to_lowercase();
        if same_text(lower.as_str(), "l") || same_text(lower.as_str(), "local") {
            return match local {
                Some(seconds) => Some(Timezone(seconds)),
                None => Some(Timezone(0)),
            };
        }
        if same_text(lower.as_str(), "0") || same_text(lower.as_str(), "utc") {
            return Some(Timezone(0));
        }
        match read {
            Some(seconds) => Some(Timezone(seconds)),
            None => None,
        }
    }

    /// The time zone that a text stands for. That of `l` and `local` is up to the machine.
    pub fn from_str(s: &str) -> (out: Result<Timezone, InvalidTimezone>)
        ensures
            match out {
                Ok(zone) => is_offset(zone.0 as int) && (names_local(s@) || Some(zone.0)
                    == timezone_of(s@, None, offset_value(s@, OFFSET_FORMAT@))),
                Err(e) => e.text@ == s@ && timezone_of(
                    s@,
                    None,
                    offset_value(s@, OFFSET_FORMAT@),
                ) is None,
            },
            exists|local: Option<i32>| #[trigger]
                machine_offset(local) && match timezone_of(
                    s@,
                    local,
                    offset_value(s@, OFFSET_FORMAT@),
                ) {
                    Some(seconds) => out matches Ok(zone) && zone.0 == seconds,
                    None => out is Err,
                },
    {
        let local = current_local_offset();
        assert(machine_offset(local));
        let read = parse_offset(s, OFFSET_FORMAT);
        match Timezone::from_parts(s, local, read) {
            Some(zone) => Ok(zone),
            None => Err(InvalidTimezone { text: s.to_owned() }),
        }
    }
}

/// The time zone of `local`, and of `l`, in whatever case, is the one that the machine gives, or
/// UTC where it gives none; that of `utc`, and of `0`, is UTC whatever the machine gives. Any
/// other text stands for the distance that is read from it.
pub proof fn law_timezones(text: Seq<char>, local: Option<i32>, read: Option<i32>)
    ensures
        lower_case(text) == "local"@ || lower_case(text) == "l"@ ==> timezone_of(text, local, read)
            == Some(
            match local {
                Some(seconds) => seconds,
                None => 0i32,
            },
        ),
        lower_case(text) == "utc"@ || lower_case(text) == "0"@ ==> timezone_of(text, local, read)
            == Some(0i32),
        lower_case(text) != "local"@ && lower_case(text) != "l"@ && lower_case(text) != "utc"@
            && lower_case(text) != "0"@ ==> timezone_of(text, local, read) == read,
{
    reveal_strlit("local");
    reveal_strlit("l");
    reveal_strlit("utc");
    reveal_strlit("0");
    assert("local"@[0] == 'l' && "l"@[0] == 'l' && "utc"@[0] == 'u' && "0"@[0] == '0');
}

/// A distance from UTC is shown as a sign and six digits, two each for the hours, the minutes and
/// the seconds, with colons between them; together they are the distance.
pub proof fn law_offset_text(seconds: int)
    requires
        -360_000 < seconds < 360_000,
    ensures
        ({
            let text = offset_text(seconds);
            let digit = |i: int| text[i] as int - 48;
            let size = if seconds < 0 {
                -seconds
            } else {
                seconds
            };
            &&& text.len() == 9
            &&& text[0] == (if seconds < 0 {
                '-'
            } else {
                '+'
            })
            &&& text[3] == ':' && text[6] == ':'
            &&& forall|i: int|
                (i == 1 || i == 2 || i == 4 || i == 5 || i == 7 || i == 8) ==> 0 <= #[trigger] digit(
                    i,
                ) <= 9
            &&& 10 * digit(4) + digit(5) < 60 && 10 * digit(7) + digit(8) < 60
            &&& 3600 * (10 * digit(1) + digit(2)) + 60 * (10 * digit(4) + digit(5)) + (10 * digit(7)
                + digit(8)) == size
        }),
{
    let n = if seconds < 0 {
        -seconds
    } else {
        seconds
    };
    crate::inspect_laws::lemma_two_digits(n / 3600);
    crate::inspect_laws::lemma_two_digits(n / 60 % 60);
    crate::inspect_laws::lemma_two_digits(n % 60);
    crate::inspect_laws::lemma_digit_char(n / 3600 / 10);
    crate::inspect_laws::lemma_digit_char(n / 3600 % 10);
    crate::inspect_laws::lemma_digit_char(n / 60 % 60 / 10);
    crate::inspect_laws::lemma_digit_char(n / 60 % 60 % 10);
    crate::inspect_laws::lemma_digit_char(n % 60 / 10);
    crate::inspect_laws::lemma_digit_char(n % 60 % 10);
}

} // verus!

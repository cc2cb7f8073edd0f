//! Whole numbers as decimal text.
use vstd::prelude::*;
use vstd::slice::slice_subrange;

use crate::text::chars_of;

verus! {

/// What a hexadecimal digit stands for.
pub open spec fn hex_digit(c: char) -> Option<u8> {
    if '0' <= c <= '9' {
        Some((c as int - '0' as int) as u8)
    } else if 'a' <= c <= 'f' {
        Some((c as int - 'a' as int + 10) as u8)
    } else if 'A' <= c <= 'F' {
        Some((c as int - 'A' as int + 10) as u8)
    } else {
        None
    }
}

/// Whether `c` is one of `0` to `9`.
pub open spec fn is_digit(c: char) -> bool {
    '0' <= c <= '9'
}

/// The number that a decimal digit stands for.
pub open spec fn digit_value(c: char) -> int {
    c as int - '0' as int
}

/// The digit that stands for a number below ten.
pub open spec fn digit_of(n: int) -> char {
    (n + '0' as int) as char
}

/// One digit or more, and nothing else.
pub open spec fn all_digits(s: Seq<char>) -> bool {
    s.len() > 0 && forall|i: int| 0 <= i < s.len() ==> is_digit(#[trigger] s[i])
}

/// The number that a run of digits stands for.
pub open spec fn digits_value(s: Seq<char>) -> int
    decreases s.len(),
{
    if s.len() == 0 {
        0
    } else {
        digits_value(s.drop_last()) * 10 + digit_value(s.last())
    }
}

/// The decimal text of a number, without leading zeros.
pub open spec fn decimal(n: nat) -> Seq<char>
    decreases n,
{
    if n < 10 {
        seq![digit_of(n as int)]
    } else {
        decimal(n / 10).push(digit_of((n % 10) as int))
    }
}

/// `s` without the one sign `sign` at its start, if it is there.
pub open spec fn without_sign(s: Seq<char>, sign: char) -> Seq<char> {
    if s.len() > 0 && s[0] == sign {
        s.skip(1)
    } else {
        s
    }
}

/// The `u32` that a text stands for: digits, with a `+` before them or not, whose value fits.
pub open spec fn u32_value(s: Seq<char>) -> Option<u32> {
    let body = without_sign(s, '+');
    if all_digits(body) && digits_value(body) <= u32::MAX {
        Some(digits_value(body) as u32)
    } else {
        None
    }
}

/// The `i64` that a text stands for: digits, with a sign before them or not, whose value fits.
pub open spec fn i64_value(s: Seq<char>) -> Option<i64> {
    if s.len() > 0 && s[0] == '-' {
        let body = s.skip(1);
        if all_digits(body) && -digits_value(body) >= i64::MIN {
            Some((-digits_value(body)) as i64)
        } else {
            None
        }
    } else {
        let body = without_sign(s, '+');
        if all_digits(body) && digits_value(body) <= i64::MAX {
            Some(digits_value(body) as i64)
        } else {
            None
        }
    }
}

/// The value of a text is no less than the value of any part of it from the start.
proof fn lemma_digits_value_grows(s: Seq<char>, n: int)
    requires
        all_digits(s),
        0 <= n <= s.len(),
    ensures
        0 <= digits_value(s.take(n)) <= digits_value(s),
    decreases s.len(),
{
    if s.len() == 1 {
        assert(s.take(1) =~= s);
        assert(s.take(0) =~= Seq::<char>::empty());
        assert(s.drop_last() =~= Seq::<char>::empty());
        assert(digits_value(s.drop_last()) == 0);
        assert(is_digit(s.last()));
    } else {
        let front = s.drop_last();
        if n == s.len() {
            assert(s.take(n) =~= s);
            lemma_digits_value_grows(front, 0);
            assert(front.take(0) =~= s.take(0));
        } else {
            assert(s.take(n) =~= front.take(n));
            lemma_digits_value_grows(front, n);
        }
        assert(is_digit(s.last()));
    }
}

/// The value of a run of digits, where it is no more than `limit`.
fn parse_digits(s: &[char], limit: u64) -> (out: Option<u64>)
    ensures
        out is Some <==> all_digits(s@) && digits_value(s@) <= limit,
        out matches Some(v) ==> v == digits_value(s@),
{
    if s.len() == 0 {
        return None;
    }
    let mut i: usize = 0;
    let mut bad: bool = false;
    while i < s.len()
        invariant
            i <= s.len(),
            bad <==> exists|j: int| 0 <= j < i && !is_digit(#[trigger] s@[j]),
        decreases s.len() - i,
    {
        if !('0' <= s[i] && s[i] <= '9') {
            bad = true;
        }
        i = i + 1;
    }
    if bad {
        return None;
    }
    assert(all_digits(s@));
    let mut value: u128 = 0;
    i = 0;
    assert(s@.take(0) =~= Seq::<char>::empty());
    while i < s.len()
        invariant
            all_digits(s@),
            i <= s.len(),
            value == digits_value(s@.take(i as int)),
            value <= limit,
        decreases s.len() - i,
    {
        let c = s[i];
        assert(is_digit(s@[i as int]));
        let d: u128 = (c as u32 - '0' as u32) as u128;
        proof {
            assert(s@.take(i + 1).drop_last() =~= s@.take(i as int));
            assert(s@.take(i + 1).last() == c);
            lemma_digits_value_grows(s@, i + 1);
        }
        value = value * 10 + d;
        i = i + 1;
        if value > limit as u128 {
            return None;
        }
    }
    assert(s@.take(i as int) =~= s@);
    Some(value as u64)
}

/// Reads a `u32` as its decimal text.
pub fn parse_u32(s: &[char]) -> (out: Option<u32>)
    ensures
        out == u32_value(s@),
{
    let body = if s.len() > 0 && s[0] == '+' {
        slice_subrange(s, 1, s.len())
    } else {
        s
    };
    match parse_digits(body, u32::MAX as u64) {
        Some(v) => Some(v as u32),
        None => None,
    }
}

/// Reads an `i64` as its decimal text.
pub fn parse_i64(s: &[char]) -> (out: Option<i64>)
    ensures
        out == i64_value(s@),
{
    if s.len() > 0 && s[0] == '-' {
        let body = slice_subrange(s, 1, s.len());
        match parse_digits(body, 0x8000_0000_0000_0000u64) {
            Some(v) => Some((-(v as i128)) as i64),
            None => None,
        }
    } else {
        let body = if s.len() > 0 && s[0] == '+' {
            slice_subrange(s, 1, s.len())
        } else {
            s
        };
        match parse_digits(body, i64::MAX as u64) {
            Some(v) => Some(v as i64),
            None => None,
        }
    }
}

/// The digit that stands for `d`.
pub fn digit_char(d: u8) -> (c: char)
    requires
        d < 10,
    ensures
        c == digit_of(d as int),
        is_digit(c),
        digit_value(c) == d,
{
    (d + 48u8) as char
}

/// Writes the decimal text of `n` at the end of `out`.
pub fn push_decimal(out: &mut String, n: u64)
    ensures
        final(out)@ == old(out)@ + decimal(n as nat),
    decreases n,
{
    if n < 10 {
        out.push(digit_char(n as u8));
    } else {
        push_decimal(out, n / 10);
        out.push(digit_char((n % 10) as u8));
    }
    assert(out@ =~= old(out)@ + decimal(n as nat));
}

/// The decimal text of `n`.
pub fn decimal_text(n: u64) -> (out: String)
    ensures
        out@ == decimal(n as nat),
{
    let mut out = String::new();
    push_decimal(&mut out, n);
    assert(out@ =~= decimal(n as nat));
    out
}

/// The decimal text of a number is digits alone, and its value is that number.
pub proof fn lemma_decimal(n: nat)
    ensures
        all_digits(decimal(n)),
        digits_value(decimal(n)) == n,
    decreases n,
{
    if n < 10 {
        let s = decimal(n);
        assert(s.drop_last() =~= Seq::<char>::empty());
        assert(digits_value(s.drop_last()) == 0);
        assert(digits_value(s) == digit_value(s.last()));
    } else {
        lemma_decimal(n / 10);
        let s = decimal(n);
        assert(s.drop_last() =~= decimal(n / 10));
        assert(s.last() == digit_of((n % 10) as int));
        assert forall|i: int| 0 <= i < s.len() implies is_digit(#[trigger] s[i]) by {
            if i < s.len() - 1 {
                assert(s[i] == decimal(n / 10)[i]);
            }
        }
    }
}

/// Reading the decimal text of a `u32` gives that number back.
pub proof fn law_u32_round_trip(n: u32)
    ensures
        u32_value(decimal(n as nat)) == Some(n),
{
    lemma_decimal(n as nat);
    assert(is_digit(decimal(n as nat)[0]));
}

/// The decimal text of a number, with a `-` before it where the number is negative.
pub open spec fn signed_decimal(n: int) -> Seq<char> {
    if n < 0 {
        seq!['-'] + decimal((-n) as nat)
    } else {
        decimal(n as nat)
    }
}

/// Reading the decimal text of an `i64` gives that number back.
pub proof fn law_i64_round_trip(n: i64)
    ensures
        i64_value(signed_decimal(n as int)) == Some(n),
{
    if n < 0 {
        lemma_decimal((-n) as nat);
        assert(signed_decimal(n as int).skip(1) =~= decimal((-n) as nat));
    } else {
        lemma_decimal(n as nat);
        assert(is_digit(decimal(n as nat)[0]));
    }
}

/// The decimal text of a number with zeros before it, so that it is at least `width` long.
pub open spec fn zero_padded(n: nat, width: nat) -> Seq<char> {
    let digits = decimal(n);
    if digits.len() < width {
        Seq::new((width - digits.len()) as nat, |i: int| '0') + digits
    } else {
        digits
    }
}

/// Writes the decimal text of `n`, at least `width` long with zeros before it, at the end of
/// `out`.
pub fn push_zero_padded(out: &mut String, n: u64, width: usize)
    ensures
        final(out)@ == old(out)@ + zero_padded(n as nat, width as nat),
{
    let digits = decimal_text(n);
    let chars = chars_of(digits.as_str());
    let mut len: usize = chars.len();
    let ghost mut zeros: nat = 0;
    assert(out@ =~= old(out)@ + Seq::new(zeros, |i: int| '0'));
    while len < width
        invariant
            out@ == old(out)@ + Seq::new(zeros, |i: int| '0'),
            len == zeros + chars.len(),
            len <= width || zeros == 0,
        decreases width - len,
    {
        out.push('0');
        proof {
            zeros = zeros + 1;
        }
        assert(out@ =~= old(out)@ + Seq::new(zeros, |i: int| '0'));
        len = len + 1;
    }
    push_decimal(out, n);
    assert(out@ =~= old(out)@ + zero_padded(n as nat, width as nat));
}

/// The number that an integer is counted as in sixty-four bits: the one that differs from it by
/// a multiple of 2^64.
pub open spec fn wrapped_i64(n: int) -> i64 {
    let r = n % 0x1_0000_0000_0000_0000;
    if r >= 0x8000_0000_0000_0000 {
        (r - 0x1_0000_0000_0000_0000) as i64
    } else {
        r as i64
    }
}

/// Adding to what an integer is counted as, and wrapping, is what the sum is counted as.
pub proof fn lemma_wrapped_add(a: int, b: i64)
    ensures
        wrapped_i64(a).wrapping_add(b) == wrapped_i64(a + b),
        i64::MIN <= a <= i64::MAX ==> wrapped_i64(a) == a,
{
}

/// Decimal text is what one writes: a number below ten is one digit, and a digit behind the text
/// of another number makes ten times that number and the digit.
pub proof fn law_decimal(n: nat, d: int)
    requires
        0 <= d < 10,
    ensures
        decimal(d as nat) == seq![(48 + d) as char],
        n > 0 ==> decimal((10 * n + d) as nat) == decimal(n).push((48 + d) as char),
{
    if n > 0 {
        assert((10 * n + d) / 10 == n && (10 * n + d) % 10 == d);
    }
}

/// Digits are read as one reads them: one digit stands for itself, and a digit behind others adds
/// to ten times what they stand for. A text with anything else in it, but for a sign before them,
/// is no number, and neither is one that does not fit.
pub proof fn law_digits_read(s: Seq<char>, d: int)
    requires
        0 <= d < 10,
    ensures
        u32_value(seq![(48 + d) as char]) == Some(d as u32),
        i64_value(seq![(48 + d) as char]) == Some(d as i64),
        s.len() > 0 && s[0] != '+' ==> (u32_value(s) matches Some(n) && 10 * n + d <= u32::MAX
            ==> u32_value(s.push((48 + d) as char)) == Some((10 * u32_value(s).unwrap() + d) as u32)),
        s.len() > 0 && s[0] != '+' && s[0] != '-' ==> (i64_value(s) matches Some(n) && 10 * n + d
            <= i64::MAX ==> i64_value(s.push((48 + d) as char)) == Some(
            (10 * i64_value(s).unwrap() + d) as i64,
        )),
        s.len() > 0 && s[0] != '+' ==> u32_value(seq!['+'] + s) == u32_value(s),
        s.len() > 0 && s[0] != '+' && s[0] != '-' ==> i64_value(seq!['+'] + s) == i64_value(s),
        s.len() > 0 && s[0] != '+' && s[0] != '-' ==> (i64_value(s) matches Some(n) ==> i64_value(
            seq!['-'] + s,
        ) == Some((-i64_value(s).unwrap()) as i64)),
        u32_value(s) is Some ==> forall|i: int|
            0 <= i < s.len() ==> ('0' <= #[trigger] s[i] <= '9') || (i == 0 && s[i] == '+'),
        i64_value(s) is Some ==> forall|i: int|
            0 <= i < s.len() ==> ('0' <= #[trigger] s[i] <= '9') || (i == 0 && (s[i] == '+' || s[i]
                == '-')),
{
    let c = (48 + d) as char;
    let one = seq![c];
    assert(c as int == 48 + d);
    assert(one.drop_last() =~= Seq::empty());
    assert(digits_value(one.drop_last()) == 0);
    assert(all_digits(one));
    let more = s.push(c);
    assert(more.drop_last() =~= s);
    if s.len() > 0 && all_digits(s) {
        assert(all_digits(more)) by {
            assert forall|i: int| 0 <= i < more.len() implies is_digit(#[trigger] more[i]) by {
                if i < s.len() {
                    assert(is_digit(s[i]));
                }
            }
        }
        assert(s.take(0) =~= Seq::<char>::empty());
        lemma_digits_value_grows(s, 0);
    }
    assert((seq!['+'] + s).skip(1) =~= s);
    assert((seq!['-'] + s).skip(1) =~= s);
    if u32_value(s) is Some {
        let body = without_sign(s, '+');
        assert forall|i: int| 0 <= i < s.len() implies ('0' <= #[trigger] s[i] <= '9') || (i == 0
            && s[i] == '+') by {
            if body.len() < s.len() {
                if i > 0 {
                    assert(is_digit(body[i - 1]));
                }
            } else {
                assert(is_digit(body[i]));
            }
        }
    }
    if i64_value(s) is Some {
        let body = if s[0] == '-' {
            s.skip(1)
        } else {
            without_sign(s, '+')
        };
        assert forall|i: int| 0 <= i < s.len() implies ('0' <= #[trigger] s[i] <= '9') || (i == 0
            && (s[i] == '+' || s[i] == '-')) by {
            if body.len() < s.len() {
                if i > 0 {
                    assert(is_digit(body[i - 1]));
                }
            } else {
                assert(is_digit(body[i]));
            }
        }
    }
}

} // verus!

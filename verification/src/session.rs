//! Sessions: the ids that entries carry for them, and when they started.
use vstd::prelude::*;
use vstd::slice::slice_subrange;
use vstd::utf8::{encode_scalar, encode_utf8};

use crate::clock::{in_calendar, instant_of_nanos};
use crate::numbers::hex_digit;

verus! {

/// How many bytes the id of a session takes.
pub const SESSION_BYTES: usize = 32;

/// The `k`-th run of `SESSION_BYTES` bytes; the last one may be shorter.
pub open spec fn session_chunk(bytes: Seq<u8>, k: int) -> Seq<u8> {
    bytes.subrange(
        k * SESSION_BYTES,
        if k * SESSION_BYTES + SESSION_BYTES <= bytes.len() {
            k * SESSION_BYTES + SESSION_BYTES
        } else {
            bytes.len() as int
        },
    )
}

/// Whether `part` is one of the runs of `SESSION_BYTES` bytes that `bytes` is made of.
pub open spec fn has_chunk(bytes: Seq<u8>, part: Seq<u8>) -> bool {
    exists|k: int|
        0 <= k && k * SESSION_BYTES < bytes.len() && #[trigger] session_chunk(bytes, k) == part
}

/// Whether `session` is one of the ids of which `sessions` is made.
pub open spec fn in_sessions(sessions: Seq<char>, session: Seq<char>) -> bool {
    has_chunk(encode_utf8(sessions), encode_utf8(session))
}

fn same_bytes(a: &[u8], b: &[u8]) -> (same: bool)
    ensures
        same == (a@ == b@),
{
    if a.len() != b.len() {
        return false;
    }
    let mut i: usize = 0;
    while i < a.len()
        invariant
            i <= a.len(),
            a.len() == b.len(),
            forall|j: int| 0 <= j < i ==> a@[j] == b@[j],
        decreases a.len() - i,
    {
        if a[i] != b[i] {
            return false;
        }
        i = i + 1;
    }
    assert(a@ =~= b@);
    true
}

/// Whether `session` is one of the ids of which `sessions` is made.
pub fn is_in_sessions(sessions: &str, session: &str) -> (b: bool)
    ensures
        b == in_sessions(sessions@, session@),
{
    let bytes = sessions.as_bytes();
    let part = session.as_bytes();
    let n: usize = bytes.len();
    let mut from: usize = 0;
    let ghost mut k: int = 0;
    while from < n
        invariant
            n == bytes.len(),
            bytes@ == encode_utf8(sessions@),
            part@ == encode_utf8(session@),
            0 <= k,
            from <= n,
            from == k * SESSION_BYTES || (from == n && n <= k * SESSION_BYTES),
            forall|j: int| 0 <= j < k ==> #[trigger] session_chunk(bytes@, j) != part@,
        decreases n - from,
    {
        let to: usize = if n - from > SESSION_BYTES {
            from + SESSION_BYTES
        } else {
            n
        };
        let chunk = slice_subrange(bytes, from, to);
        assert(chunk@ =~= session_chunk(bytes@, k));
        if same_bytes(chunk, part) {
            return true;
        }
        proof {
            k = k + 1;
        }
        from = to;
    }
    assert forall|j: int|
        0 <= j && j * SESSION_BYTES < bytes@.len() implies #[trigger] session_chunk(bytes@, j)
        != part@ by {
        assert(j < k);
    }
    false
}

/// What `uuid::Uuid::parse_str` reads from a text: a number of 128 bits.
pub uninterp spec fn parsed_uuid(text: Seq<char>) -> Option<u128>;

/// Whether a text is a UUID without hyphens: thirty-two hexadecimal digits.
pub open spec fn is_simple_uuid(text: Seq<char>) -> bool {
    text.len() == 32 && forall|i: int| 0 <= i < 32 ==> hex_digit(#[trigger] text[i]) is Some
}

/// The number that hexadecimal digits stand for.
pub open spec fn hex_number(text: Seq<char>) -> nat
    decreases text.len(),
{
    if text.len() == 0 {
        0
    } else {
        hex_number(text.drop_last()) * 16 + hex_digit(text.last()).unwrap() as nat
    }
}

/// The UUID that a text stands for: the number itself where the text is nothing but its digits.
pub open spec fn uuid_value(text: Seq<char>) -> Option<u128> {
    if is_simple_uuid(text) {
        Some(hex_number(text) as u128)
    } else {
        parsed_uuid(text)
    }
}

/// `uuid::Uuid::parse_str`. It depends on the text alone; thirty-two hexadecimal digits give the
/// number that they stand for. Which other texts it takes is left to the crate.
#[verifier::external_body]
pub(crate) fn parse_uuid(text: &str) -> (out: Option<u128>)
    ensures
        out == parsed_uuid(text@),
        out == uuid_value(text@),
{
    uuid::Uuid::parse_str(text).ok().map(|u| u.as_u128())
}

/// The version of a UUID: the four bits after the first forty-eight.
pub open spec fn uuid_version(value: u128) -> int {
    (value as int / 0x1_0000_0000_0000_0000_000) % 16
}

/// The hundreds of nanoseconds since 1582-10-15 that a UUID of version 1 or 6 holds in the sixty
/// bits of its first half beside the version. Version 1 starts with the lowest thirty-two bits
/// and ends with the highest twelve, version 6 has them in order.
pub open spec fn uuid_ticks(value: u128) -> int {
    let first = value as int / 0x1_0000_0000_0000_0000_0000_0000;
    let second = (value as int / 0x1_0000_0000_0000_0000_0000) % 0x1_0000;
    let third = (value as int / 0x1_0000_0000_0000_0000) % 0x1000;
    if uuid_version(value) == 1 {
        third * 0x1_0000_0000_0000 + second * 0x1_0000_0000 + first
    } else {
        first * 0x1000_0000 + second * 0x1000 + third
    }
}

/// The hundreds of nanoseconds from 1582-10-15 to 1970-01-01.
pub const TICKS_BEFORE_UNIX: u64 = 0x01B2_1DD2_1381_4000;

/// The time that a UUID holds, in seconds and nanoseconds since 1970-01-01: milliseconds in the
/// first forty-eight bits for version 7, and `uuid_ticks` for versions 1 and 6, where a time
/// before 1970 is counted modulo the range of sixty-four bits.
pub open spec fn uuid_unix_time(value: u128) -> Option<(u64, u32)> {
    if uuid_version(value) == 7 {
        let ms = value as int / 0x1_0000_0000_0000_0000_0000;
        Some(((ms / 1000) as u64, (ms % 1000 * 1_000_000) as u32))
    } else if uuid_version(value) == 1 || uuid_version(value) == 6 {
        let ticks = (uuid_ticks(value) - TICKS_BEFORE_UNIX) % 0x1_0000_0000_0000_0000;
        Some(((ticks / 10_000_000) as u64, (ticks % 10_000_000 * 100) as u32))
    } else {
        None
    }
}

/// `uuid::Uuid::get_timestamp` and `uuid::Timestamp::to_unix`: the time that a UUID of version
/// 1, 6 or 7 holds, and none for another version.
#[verifier::external_body]
pub(crate) fn uuid_time(value: u128) -> (out: Option<(u64, u32)>)
    ensures
        out == uuid_unix_time(value),
        out matches Some((_, nanos)) ==> nanos < 1_000_000_000,
{
    uuid::Uuid::from_u128(value).get_timestamp().map(|t| t.to_unix())
}

/// When a session started whose id is the UUID `value`, in nanoseconds since 1970-01-01: the
/// time that the UUID holds, where it holds one and the calendar has it.
pub open spec fn start_of_uuid(value: u128) -> Option<i128> {
    match uuid_unix_time(value) {
        Some((seconds, nanos)) => if in_calendar(seconds * 1_000_000_000 + nanos) {
            Some((seconds * 1_000_000_000 + nanos) as i128)
        } else {
            None
        },
        None => None,
    }
}

/// When a session started, where its id is a UUID that tells.
pub open spec fn session_start_of(session: Seq<char>) -> Option<i128> {
    match uuid_value(session) {
        Some(value) => start_of_uuid(value),
        None => None,
    }
}

/// When a session started whose id is the UUID `value`.
pub fn uuid_start(value: u128) -> (start: Option<i128>)
    ensures
        start == start_of_uuid(value),
{
    match uuid_time(value) {
        Some((seconds, nanos)) => instant_of_nanos(
            seconds as i128 * 1_000_000_000 + nanos as i128,
        ),
        None => None,
    }
}

/// When a session started, where its id is a UUID that tells.
pub fn session_start(session: &str) -> (start: Option<i128>)
    ensures
        start == session_start_of(session@),
{
    match parse_uuid(session) {
        Some(value) => uuid_start(value),
        None => None,
    }
}

/// The bytes of two texts put together are the bytes of the one and then those of the other.
proof fn lemma_encode_add(a: Seq<char>, b: Seq<char>)
    ensures
        encode_utf8(a + b) == encode_utf8(a) + encode_utf8(b),
    decreases a.len(),
{
    if a.len() == 0 {
        assert(a + b =~= b);
        assert(encode_utf8(a) + encode_utf8(b) =~= encode_utf8(b));
    } else {
        lemma_encode_add(a.drop_first(), b);
        assert((a + b).drop_first() =~= a.drop_first() + b);
        assert(encode_utf8(a + b) =~= encode_scalar(a[0] as u32) + (encode_utf8(a.drop_first())
            + encode_utf8(b)));
        assert(encode_utf8(a + b) =~= encode_utf8(a) + encode_utf8(b));
    }
}

/// Where the id of a session takes `SESSION_BYTES` bytes, putting it before other ids adds that
/// session to them and no other.
pub proof fn law_sessions_put_together(first: Seq<char>, rest: Seq<char>, session: Seq<char>)
    requires
        encode_utf8(first).len() == SESSION_BYTES,
    ensures
        in_sessions(first + rest, session) == (encode_utf8(session) == encode_utf8(first)
            || in_sessions(rest, session)),
{
    lemma_encode_add(first, rest);
    let a = encode_utf8(first);
    let b = encode_utf8(rest);
    let all = a + b;
    let part = encode_utf8(session);
    assert(session_chunk(all, 0) =~= a);
    assert forall|k: int| 0 <= k && k * SESSION_BYTES < b.len() implies #[trigger] session_chunk(
        b,
        k,
    ) == session_chunk(all, k + 1) by {
        assert(session_chunk(b, k) =~= session_chunk(all, k + 1));
    }
    if in_sessions(first + rest, session) {
        let k = choose|k: int|
            0 <= k && k * SESSION_BYTES < all.len() && #[trigger] session_chunk(all, k) == part;
        if k > 0 {
            assert(session_chunk(b, k - 1) == session_chunk(all, k));
        }
    }
    if in_sessions(rest, session) {
        let k = choose|k: int|
            0 <= k && k * SESSION_BYTES < b.len() && #[trigger] session_chunk(b, k) == part;
        assert(session_chunk(all, k + 1) == part);
    }
    if part == a {
        assert(session_chunk(all, 0) == part);
    }
}

} // verus!

//! Bytes as lines of text.
use vstd::prelude::*;
use vstd::slice::slice_subrange;
use vstd::utf8::{
    decode_utf8, decode_utf8_split, encode_utf8, encode_utf8_decode_utf8, encode_utf8_valid_utf8,
    is_char_boundary, is_char_boundary_iff_not_is_continuation_byte,
    is_char_boundary_start_end_of_seq, is_continuation_byte, is_leading_byte_width_1,
    length_of_first_scalar, pop_first_scalar, valid_utf8, valid_utf8_split,
};

use crate::text::{lossy_text, text_of_bytes};

verus! {

/// The position of the first line feed, or the length where there is none.
pub open spec fn first_line_feed(bytes: Seq<u8>) -> int
    decreases bytes.len(),
{
    if bytes.len() == 0 || bytes[0] == 10 {
        0
    } else {
        1 + first_line_feed(bytes.skip(1))
    }
}

proof fn lemma_first_line_feed(bytes: Seq<u8>, i: int)
    requires
        0 <= i <= bytes.len(),
        forall|j: int| 0 <= j < i ==> #[trigger] bytes[j] != 10,
        i < bytes.len() ==> bytes[i] == 10,
    ensures
        first_line_feed(bytes) == i,
    decreases bytes.len(),
{
    if i > 0 {
        assert(bytes[0] != 10);
        assert forall|j: int| 0 <= j < i - 1 implies #[trigger] bytes.skip(1)[j] != 10 by {
            assert(bytes[j + 1] != 10);
        }
        lemma_first_line_feed(bytes.skip(1), i - 1);
    }
}

/// The first line feed is one, or there is none.
pub proof fn lemma_first_line_feed_is(bytes: Seq<u8>)
    ensures
        0 <= first_line_feed(bytes) <= bytes.len(),
        first_line_feed(bytes) < bytes.len() ==> bytes[first_line_feed(bytes)] == 10,
    decreases bytes.len(),
{
    if bytes.len() > 0 && bytes[0] != 10 {
        lemma_first_line_feed_is(bytes.skip(1));
    }
}

/// The position of the first line feed in `bytes`, or its length.
pub fn find_line_feed(bytes: &[u8]) -> (at: usize)
    ensures
        at == first_line_feed(bytes@),
        at <= bytes.len(),
{
    let mut i: usize = 0;
    while i < bytes.len() && bytes[i] != 10
        invariant
            i <= bytes.len(),
            forall|j: int| 0 <= j < i ==> #[trigger] bytes@[j] != 10,
        decreases bytes.len() - i,
    {
        i = i + 1;
    }
    proof {
        lemma_first_line_feed(bytes@, i as int);
    }
    i
}

/// Bytes read as text line by line: each line by itself, with a line feed after each that ends
/// with one.
pub open spec fn text_by_lines(bytes: Seq<u8>) -> Seq<char>
    decreases bytes.len(),
{
    let i = first_line_feed(bytes);
    if i < bytes.len() {
        proof {
            lemma_first_line_feed_is(bytes);
        }
        lossy_text(bytes.take(i)) + seq!['\n'] + text_by_lines(bytes.skip(i + 1))
    } else {
        lossy_text(bytes)
    }
}

/// Reads bytes as text line by line. A line feed is no part of any longer character, so no
/// replacement for bytes that are not UTF-8 reaches from one line into another.
pub fn text_of_file(bytes: &[u8]) -> (out: String)
    ensures
        out@ == text_by_lines(bytes@),
{
    let mut out = String::new();
    let mut rest = bytes;
    assert(out@ + text_by_lines(rest@) =~= text_by_lines(bytes@));
    let mut at: usize = find_line_feed(rest);
    while at < rest.len()
        invariant
            at == first_line_feed(rest@),
            at <= rest.len(),
            out@ + text_by_lines(rest@) == text_by_lines(bytes@),
        decreases rest@.len(),
    {
        let n: usize = rest.len();
        let ghost before = out@;
        let ghost s = rest@;
        let line = slice_subrange(rest, 0, at);
        assert(line@ =~= s.take(at as int));
        let text = text_of_bytes(line);
        out.append(text.as_str());
        out.push('\n');
        rest = slice_subrange(rest, at + 1, n);
        assert(rest@ =~= s.skip(at + 1));
        assert(out@ + text_by_lines(rest@) =~= before + text_by_lines(s));
        at = find_line_feed(rest);
    }
    let text = text_of_bytes(rest);
    out.append(text.as_str());
    out
}

/// Text that is read after a line feed is read by itself: what is cut there is read as the texts
/// of the two parts, whatever the bytes are.
pub proof fn law_text_of_parts(a: Seq<u8>, b: Seq<u8>)
    requires
        a.len() > 0 ==> a.last() == 10,
    ensures
        text_by_lines(a + b) == text_by_lines(a) + text_by_lines(b),
        a.len() > 0 ==> text_by_lines(a).len() > 0 && text_by_lines(a).last() == '\n',
        a.len() == 0 ==> text_by_lines(a).len() == 0,
    decreases a.len(),
{
    let all = a + b;
    if a.len() == 0 {
        assert(all =~= b);
        assert(text_by_lines(a) =~= Seq::empty());
        assert(text_by_lines(a) + text_by_lines(b) =~= text_by_lines(b));
    } else {
        lemma_first_line_feed_is(a);
        let i = first_line_feed(a);
        lemma_none_before(a);
        if i == a.len() {
            assert(a[a.len() - 1] != 10);
        }
        assert forall|j: int| 0 <= j < i implies #[trigger] all[j] != 10 by {
            assert(all[j] == a[j]);
        }
        assert(all[i] == a[i]);
        lemma_first_line_feed(all, i);
        let rest = a.skip(i + 1);
        assert(all.take(i) =~= a.take(i));
        assert(all.skip(i + 1) =~= rest + b);
        if rest.len() > 0 {
            assert(rest.last() == a.last());
        }
        law_text_of_parts(rest, b);
        let line = lossy_text(a.take(i)) + seq!['\n'];
        assert(text_by_lines(a) =~= line + text_by_lines(rest));
        assert(text_by_lines(all) =~= line + (text_by_lines(rest) + text_by_lines(b)));
        assert(text_by_lines(all) =~= text_by_lines(a) + text_by_lines(b));
        if rest.len() == 0 {
            assert(text_by_lines(a) =~= line);
        }
    }
}

/// No line feed stands before the first.
pub proof fn lemma_none_before(bytes: Seq<u8>)
    ensures
        forall|j: int| 0 <= j < first_line_feed(bytes) ==> #[trigger] bytes[j] != 10,
    decreases bytes.len(),
{
    if bytes.len() > 0 && bytes[0] != 10 {
        let rest = bytes.skip(1);
        lemma_none_before(rest);
        lemma_first_line_feed_is(rest);
        assert forall|j: int| 0 <= j < first_line_feed(bytes) implies #[trigger] bytes[j] != 10 by {
            if j > 0 {
                assert(rest[j - 1] == bytes[j]);
            }
        }
    }
}

/// Behind a line feed a character starts, or the text ends.
proof fn lemma_boundary_behind(s: Seq<u8>, q: int)
    requires
        valid_utf8(s),
        0 <= q < s.len(),
        s[q] == 10,
    ensures
        is_char_boundary(s, q + 1),
    decreases s.len(),
{
    assert(!is_continuation_byte(10u8) && is_leading_byte_width_1(10u8)) by {
        assert(10u8 & 0xc0 != 0x80) by (bit_vector);
        assert(10u8 & 0x80 == 0) by (bit_vector);
    }
    let rest = pop_first_scalar(s);
    let n = length_of_first_scalar(s);
    if q == 0 {
        assert(n == 1);
        is_char_boundary_start_end_of_seq(rest);
    } else {
        is_char_boundary_iff_not_is_continuation_byte(s, q);
        assert(q >= n) by {
            reveal_with_fuel(is_char_boundary, 2);
        }
        assert(rest[q - n] == s[q]);
        lemma_boundary_behind(rest, q - n);
    }
}

proof fn lemma_line_feed_last(s: Seq<u8>)
    requires
        valid_utf8(s),
        s.len() > 0,
        s.last() == 10,
    ensures
        valid_utf8(s.drop_last()),
        decode_utf8(s) == decode_utf8(s.drop_last()) + seq!['\n'],
{
    let n = s.len() - 1;
    assert(!is_continuation_byte(10u8)) by {
        assert(10u8 & 0xc0 != 0x80) by (bit_vector);
    }
    is_char_boundary_iff_not_is_continuation_byte(s, n);
    valid_utf8_split(s, n);
    decode_utf8_split(s, n);
    assert(s.subrange(0, n) =~= s.drop_last());
    let end = s.subrange(n, s.len() as int);
    assert(end =~= seq![10u8]);
    reveal_with_fuel(decode_utf8, 2);
    assert(10u8 & 0x80 == 0) by (bit_vector);
    assert(10u8 & 0x7f == 10) by (bit_vector);
    assert(decode_utf8(end) =~= seq!['\n']);
}

/// Bytes that are valid UTF-8 are read as the text that they encode.
pub proof fn law_utf8_read(bytes: Seq<u8>)
    requires
        valid_utf8(bytes),
    ensures
        text_by_lines(bytes) == decode_utf8(bytes),
    decreases bytes.len(),
{
    lemma_first_line_feed_is(bytes);
    let i = first_line_feed(bytes);
    if i < bytes.len() {
        let front = bytes.subrange(0, i + 1);
        let rest = bytes.skip(i + 1);
        assert(rest =~= bytes.subrange(i + 1, bytes.len() as int));
        lemma_boundary_behind(bytes, i);
        valid_utf8_split(bytes, i + 1);
        decode_utf8_split(bytes, i + 1);
        law_utf8_read(rest);
        lemma_line_feed_last(front);
        assert(front.drop_last() =~= bytes.take(i));
    }
}

/// Bytes that encode a text are read as that text.
pub proof fn law_encoded_text_read(text: Seq<char>)
    ensures
        text_by_lines(encode_utf8(text)) == text,
{
    encode_utf8_valid_utf8(text);
    encode_utf8_decode_utf8(text);
    law_utf8_read(encode_utf8(text));
}

} // verus!

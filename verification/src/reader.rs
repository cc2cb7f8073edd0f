//! Reading a history file: its tail at once, and the rest of it backwards in blocks.
use std::path::PathBuf;

use vstd::prelude::*;
use vstd::slice::slice_subrange;

use crate::bytes::{
    find_line_feed, first_line_feed, lemma_first_line_feed_is, text_by_lines, text_of_file,
};
use crate::history::History;
use crate::input::{is_history_of, parse_fullhistory, recorded, views_without_ids};
use crate::round_trip::law_history_chronological;
use crate::text::{first_at, is_char, lemma_first_where, lemma_first_where_is, lines_of};

verus! {

/// A file of up to this many bytes is read whole; of a larger one this much and up to a block
/// more is read first.
pub const TAIL_BYTES: u64 = 131072;

/// The tail of a file starts at a multiple of this, which the block size of a network file
/// system is commonly a multiple of.
pub const NFS_ALIGN: u64 = 4096;

/// The rest of a file is read in blocks of this many bytes.
pub const HEAD_BLOCK: u64 = 1048576;

/// `std::path::PathBuf`: where a file is, in the form that the system has for it.
#[verifier::external_type_specification]
#[verifier::external_body]
pub struct ExPathBuf(PathBuf);

/// Where the tail of a file of `size` bytes starts, or `None` where the file is read whole.
pub open spec fn tail_start_of(size: u64) -> Option<u64> {
    if size <= TAIL_BYTES {
        None
    } else {
        Some(((size - TAIL_BYTES) / NFS_ALIGN as int * NFS_ALIGN) as u64)
    }
}

/// How much of `bytes` belongs to a line that starts before it: all through the first line
/// feed, or nothing where there is none.
pub open spec fn broken_line(bytes: Seq<u8>) -> int {
    if first_line_feed(bytes) < bytes.len() {
        first_line_feed(bytes) + 1
    } else {
        0
    }
}

/// Whether `entries` are those that `text` records, latest first, each under a new id.
pub open spec fn is_newest_first(entries: Seq<History>, text: Seq<char>) -> bool {
    is_history_of(entries.reverse(), text)
}

/// `entries` from the last to the first.
fn reversed(entries: Vec<History>) -> (out: Vec<History>)
    ensures
        out@ == entries@.reverse(),
{
    let mut rest = entries;
    let mut out: Vec<History> = Vec::with_capacity(rest.len());
    while rest.len() > 0
        invariant
            out.len() + rest.len() == entries.len(),
            rest@ == entries@.take(rest.len() as int),
            forall|j: int| 0 <= j < out.len() ==> #[trigger] out@[j] == entries@.reverse()[j],
        decreases rest.len(),
    {
        let ghost n = rest.len();
        match rest.pop() {
            Some(h) => {
                out.push(h);
            },
            None => {},
        }
        assert(rest@ =~= entries@.take(n - 1));
    }
    assert(out@ =~= entries@.reverse());
    out
}

/// What reading the tail of a file gave.
pub enum TailRead {
    /// The file could not be read.
    Unreadable,
    /// The text of the whole file.
    Whole(String),
    /// The bytes from `start` to the end of the file.
    From { start: u64, bytes: Vec<u8> },
}

/// Reads a history file.
pub struct FullHistoryReader {
    pub path: PathBuf,
}

impl FullHistoryReader {
    /// Reads the file at `path`.
    pub fn new(path: PathBuf) -> (reader: Self)
        ensures
            reader.path == path,
    {
        FullHistoryReader { path }
    }

    /// Where the tail of a file of `size` bytes starts, or `None` where the file is read whole.
    /// The tail starts on a block boundary and is at least `TAIL_BYTES` long.
    pub fn tail_start(size: u64) -> (start: Option<u64>)
        ensures
            start == tail_start_of(size),
            start is None == (size <= TAIL_BYTES),
            start matches Some(s) ==> s % NFS_ALIGN == 0 && TAIL_BYTES <= size - s < TAIL_BYTES
                + NFS_ALIGN,
    {
        if size <= TAIL_BYTES {
            None
        } else {
            let raw: u64 = size - TAIL_BYTES;
            Some(raw / NFS_ALIGN * NFS_ALIGN)
        }
    }

    /// The entries in the tail of a file, latest first, and the offset at which the first whole
    /// line of that tail starts; no offset where nothing stands before the tail, or nothing
    /// could be read.
    pub fn read_tail(read: TailRead) -> (out: (Vec<History>, Option<u64>))
        requires
            read matches TailRead::From { start, bytes } ==> start + bytes.len() <= u64::MAX,
        ensures
            match read {
                TailRead::Unreadable => out.0.len() == 0 && out.1 is None,
                TailRead::Whole(text) => is_newest_first(out.0@, text@) && out.1 is None,
                TailRead::From { start, bytes } => {
                    let skip = broken_line(bytes@);
                    &&& is_newest_first(out.0@, text_by_lines(bytes@.skip(skip)))
                    &&& out.1 == Some((start + skip) as u64)
                },
            },
    {
        match read {
            TailRead::Unreadable => (Vec::new(), None),
            TailRead::Whole(text) => {
                let entries = parse_fullhistory(text.as_str());
                let out = reversed(entries);
                assert(out@.reverse() =~= entries@);
                (out, None)
            },
            TailRead::From { start, bytes } => {
                let at: usize = find_line_feed(bytes.as_slice());
                let skip: usize = if at < bytes.len() {
                    at + 1
                } else {
                    0
                };
                let tail = slice_subrange(bytes.as_slice(), skip, bytes.len());
                assert(tail@ =~= bytes@.skip(skip as int));
                let text = text_of_file(tail);
                let entries = parse_fullhistory(text.as_str());
                let out = reversed(entries);
                assert(out@.reverse() =~= entries@);
                (out, Some(start + skip as u64))
            },
        }
    }

    /// Starts reading what stands before `end_offset`.
    pub fn read_head(end_offset: u64) -> (head: HeadReader)
        ensures
            head.cursor == end_offset,
            head.carry@ == Seq::<u8>::empty(),
            head.blocks@ == Seq::<Vec<History>>::empty(),
            forall|file: Seq<u8>|
                end_offset <= file.len() ==> #[trigger] head.has_read(file, end_offset),
    {
        let head = HeadReader { cursor: end_offset, carry: Vec::new(), blocks: Vec::new() };
        assert forall|file: Seq<u8>| end_offset <= file.len() implies #[trigger] head.has_read(
            file,
            end_offset,
        ) by {
            let done = Seq::<Seq<u8>>::empty();
            assert(head.carry@ =~= Seq::empty());
            assert(is_read_of(head.blocks@, done));
            assert(done + head_pieces(file, end_offset, head.carry@) =~= head_pieces(
                file,
                end_offset,
                Seq::empty(),
            ));
        }
        head
    }
}

/// What has been read of the head of a file, from its end backwards.
pub struct HeadReader {
    /// What stands before this offset has not been read yet.
    pub cursor: u64,
    /// The end of a line whose start has not been read yet.
    pub carry: Vec<u8>,
    /// The entries that were read, one list for each block in which there were any, the block
    /// nearest the end of the file first.
    pub blocks: Vec<Vec<History>>,
}

/// Where the block that ends at `cursor` starts.
pub open spec fn block_start(cursor: u64) -> u64 {
    if cursor <= HEAD_BLOCK {
        0
    } else {
        (cursor - HEAD_BLOCK) as u64
    }
}

/// Of what was read from the offset `start` on, the part that belongs to a line which starts
/// further ahead: all through the first line feed, or all of it where there is none. Nothing
/// stands ahead of the start of the file.
pub open spec fn held_back(start: u64, bytes: Seq<u8>) -> Seq<u8> {
    if start == 0 {
        Seq::empty()
    } else if first_line_feed(bytes) < bytes.len() {
        bytes.take(first_line_feed(bytes) + 1)
    } else {
        bytes
    }
}

/// Of what was read from the offset `start` on, the lines that are complete.
pub open spec fn whole_lines(start: u64, bytes: Seq<u8>) -> Seq<u8> {
    bytes.skip(held_back(start, bytes).len() as int)
}

/// Whether `after` is `before` and the entries that `bytes` record as one block more, or no
/// more where they record none.
pub open spec fn adds_block(
    before: Seq<Vec<History>>,
    after: Seq<Vec<History>>,
    bytes: Seq<u8>,
) -> bool {
    let text = text_by_lines(bytes);
    if recorded(text).len() == 0 {
        after == before
    } else {
        &&& after.len() == before.len() + 1
        &&& after.drop_last() == before
        &&& is_history_of(after.last()@, text)
    }
}

/// The runs of bytes that are read as text one by one when the head of `file` before `cursor`
/// is read with `carry` held back, the one nearest the end first.
pub open spec fn head_pieces(file: Seq<u8>, cursor: u64, carry: Seq<u8>) -> Seq<Seq<u8>>
    decreases cursor,
{
    if cursor == 0 {
        if carry.len() == 0 {
            Seq::empty()
        } else {
            seq![carry]
        }
    } else {
        let start = block_start(cursor);
        let bytes = file.subrange(start as int, cursor as int) + carry;
        seq![whole_lines(start, bytes)] + head_pieces(file, start, held_back(start, bytes))
    }
}

/// Whether `blocks` are the entries that runs of bytes record, one list for each run that
/// records any.
pub open spec fn is_read_of(blocks: Seq<Vec<History>>, pieces: Seq<Seq<u8>>) -> bool
    decreases pieces.len(),
{
    if pieces.len() == 0 {
        blocks.len() == 0
    } else {
        let text = text_by_lines(pieces.last());
        if recorded(text).len() == 0 {
            is_read_of(blocks, pieces.drop_last())
        } else {
            &&& blocks.len() > 0
            &&& is_history_of(blocks.last()@, text)
            &&& is_read_of(blocks.drop_last(), pieces.drop_last())
        }
    }
}

impl HeadReader {
    /// Whether the reader has read what stands from `cursor` on before the end `end` of the head
    /// of `file`: its blocks are those of runs of bytes after which there remain the ones that it
    /// will come to.
    pub open spec fn has_read(self, file: Seq<u8>, end: u64) -> bool {
        &&& self.cursor <= end <= file.len()
        &&& exists|done: Seq<Seq<u8>>| #[trigger]
            is_read_of(self.blocks@, done) && done + head_pieces(file, self.cursor, self.carry@)
                == head_pieces(file, end, Seq::empty())
    }

    /// The offset and the length of the block to read next, or `None` where all is read.
    pub fn next_block(&self) -> (block: Option<(u64, u64)>)
        ensures
            block == (if self.cursor == 0 {
                None
            } else {
                Some((block_start(self.cursor), (self.cursor - block_start(self.cursor)) as u64))
            }),
            block matches Some((start, len)) ==> 0 < len <= HEAD_BLOCK && start + len
                == self.cursor,
    {
        if self.cursor == 0 {
            None
        } else if self.cursor <= HEAD_BLOCK {
            Some((0, self.cursor))
        } else {
            Some((self.cursor - HEAD_BLOCK, HEAD_BLOCK))
        }
    }

    fn add_block(&mut self, bytes: &[u8])
        ensures
            final(self).cursor == old(self).cursor,
            final(self).carry == old(self).carry,
            adds_block(old(self).blocks@, final(self).blocks@, bytes@),
    {
        let text = text_of_file(bytes);
        let entries = parse_fullhistory(text.as_str());
        assert(views_without_ids(entries@).len() == recorded(text@).len());
        if entries.len() > 0 {
            self.blocks.push(entries);
            assert(self.blocks@.drop_last() =~= old(self).blocks@);
        }
    }

    /// Takes in the block that was to be read next. Its lines that are complete, with what was
    /// held back before, give one block of entries; the rest is held back. At the start of the
    /// file all lines are complete.
    pub fn accept(&mut self, block: Vec<u8>)
        requires
            block.len() == old(self).cursor - block_start(old(self).cursor),
        ensures
            final(self).cursor == block_start(old(self).cursor),
            final(self).carry@ == held_back(
                block_start(old(self).cursor),
                block@ + old(self).carry@,
            ),
            adds_block(
                old(self).blocks@,
                final(self).blocks@,
                whole_lines(block_start(old(self).cursor), block@ + old(self).carry@),
            ),
            forall|file: Seq<u8>, end: u64| #[trigger]
                old(self).has_read(file, end) && old(self).cursor > 0 && block@ == file.subrange(
                    block_start(old(self).cursor) as int,
                    old(self).cursor as int,
                ) ==> final(self).has_read(file, end),
    {
        let start: u64 = if self.cursor <= HEAD_BLOCK {
            0
        } else {
            self.cursor - HEAD_BLOCK
        };
        let mut buf = block;
        let mut carry = Vec::new();
        std::mem::swap(&mut carry, &mut self.carry);
        buf.append(&mut carry);
        let ghost all = buf@;
        assert(all =~= block@ + old(self).carry@);
        let cut: usize = if start == 0 {
            0
        } else {
            let at: usize = find_line_feed(buf.as_slice());
            if at < buf.len() {
                at + 1
            } else {
                buf.len()
            }
        };
        let rest = slice_subrange(buf.as_slice(), cut, buf.len());
        assert(held_back(start, all) =~= all.take(cut as int));
        assert(rest@ =~= whole_lines(start, all));
        self.add_block(rest);
        buf.truncate(cut);
        self.carry = buf;
        self.cursor = start;
        proof {
            assert forall|file: Seq<u8>, end: u64| #[trigger]
                old(self).has_read(file, end) && old(self).cursor > 0 && block@ == file.subrange(
                    start as int,
                    old(self).cursor as int,
                ) implies self.has_read(file, end) by {
                lemma_block_read(*old(self), *self, file, end);
            }
        }
    }

    /// The blocks of entries, once no more is read: what is still held back gives one more.
    pub fn finish(self) -> (blocks: Vec<Vec<History>>)
        ensures
            self.carry.len() == 0 ==> blocks == self.blocks,
            self.carry.len() > 0 ==> adds_block(self.blocks@, blocks@, self.carry@),
            forall|file: Seq<u8>, end: u64| #[trigger]
                self.has_read(file, end) && self.cursor == 0 ==> is_read_of(
                    blocks@,
                    head_pieces(file, end, Seq::empty()),
                ),
    {
        let mut head = HeadReader { cursor: self.cursor, carry: Vec::new(), blocks: self.blocks };
        if self.carry.len() > 0 {
            head.add_block(self.carry.as_slice());
        }
        proof {
            assert forall|file: Seq<u8>, end: u64| #[trigger]
                self.has_read(file, end) && self.cursor == 0 implies is_read_of(
                head.blocks@,
                head_pieces(file, end, Seq::empty()),
            ) by {
                let done = choose|done: Seq<Seq<u8>>| #[trigger]
                    is_read_of(self.blocks@, done) && done + head_pieces(
                        file,
                        self.cursor,
                        self.carry@,
                    ) == head_pieces(file, end, Seq::empty());
                if self.carry.len() > 0 {
                    lemma_one_more_read(self.blocks@, head.blocks@, done, self.carry@);
                    assert(done + seq![self.carry@] =~= done.push(self.carry@));
                } else {
                    assert(done + Seq::<Seq<u8>>::empty() =~= done);
                }
            }
        }
        head.blocks
    }
}

/// One more run of bytes that is read adds its block.
proof fn lemma_one_more_read(
    before: Seq<Vec<History>>,
    after: Seq<Vec<History>>,
    done: Seq<Seq<u8>>,
    piece: Seq<u8>,
)
    requires
        is_read_of(before, done),
        adds_block(before, after, piece),
    ensures
        is_read_of(after, done.push(piece)),
{
    assert(done.push(piece).drop_last() =~= done);
}

proof fn lemma_block_read(before: HeadReader, after: HeadReader, file: Seq<u8>, end: u64)
    requires
        before.has_read(file, end),
        before.cursor > 0,
        after.cursor == block_start(before.cursor),
        ({
            let start = block_start(before.cursor);
            let bytes = file.subrange(start as int, before.cursor as int) + before.carry@;
            &&& after.carry@ == held_back(start, bytes)
            &&& adds_block(before.blocks@, after.blocks@, whole_lines(start, bytes))
        }),
    ensures
        after.has_read(file, end),
{
    let start = block_start(before.cursor);
    let bytes = file.subrange(start as int, before.cursor as int) + before.carry@;
    let piece = whole_lines(start, bytes);
    let done = choose|done: Seq<Seq<u8>>| #[trigger]
        is_read_of(before.blocks@, done) && done + head_pieces(file, before.cursor, before.carry@)
            == head_pieces(file, end, Seq::empty());
    lemma_one_more_read(before.blocks@, after.blocks@, done, piece);
    assert(done.push(piece) + head_pieces(file, start, after.carry@) =~= done + head_pieces(
        file,
        before.cursor,
        before.carry@,
    ));
}

/// Runs of bytes put together, the last one first.
pub open spec fn oldest_first(pieces: Seq<Seq<u8>>) -> Seq<u8>
    decreases pieces.len(),
{
    if pieces.len() == 0 {
        Seq::empty()
    } else {
        oldest_first(pieces.skip(1)) + pieces[0]
    }
}

proof fn lemma_head_pieces(file: Seq<u8>, cursor: u64, carry: Seq<u8>)
    requires
        cursor <= file.len(),
    ensures
        oldest_first(head_pieces(file, cursor, carry)) == file.take(cursor as int) + carry,
    decreases cursor,
{
    let p = head_pieces(file, cursor, carry);
    if cursor == 0 {
        if carry.len() > 0 {
            assert(p.skip(1) =~= Seq::empty());
            assert(oldest_first(p.skip(1)) =~= Seq::empty());
            assert(oldest_first(p) =~= carry);
        }
        assert(file.take(0) + carry =~= carry);
    } else {
        let start = block_start(cursor);
        let bytes = file.subrange(start as int, cursor as int) + carry;
        let held = held_back(start, bytes);
        lemma_first_line_feed_is(bytes);
        lemma_head_pieces(file, start, held);
        assert(p.skip(1) =~= head_pieces(file, start, held));
        assert(held + whole_lines(start, bytes) =~= bytes);
        assert(oldest_first(p) =~= file.take(start as int) + (held + whole_lines(start, bytes)));
        assert(oldest_first(p) =~= file.take(cursor as int) + carry);
    }
}

/// Nothing of the head of a file is lost or read twice: the runs of bytes that are read as
/// text, put together, are what stands before the end of the head.
pub proof fn law_head_complete(file: Seq<u8>, end: u64)
    requires
        end <= file.len(),
    ensures
        oldest_first(head_pieces(file, end, Seq::empty())) == file.take(end as int),
{
    lemma_head_pieces(file, end, Seq::empty());
    assert(file.take(end as int) + Seq::<u8>::empty() =~= file.take(end as int));
}

/// The tail of a file and its head together are the file: where the tail starts at an offset,
/// what is read as text before the first whole line of the tail and what is read from there on
/// are, put together, all of the file.
pub proof fn law_file_covered(file: Seq<u8>, size: u64, start: u64)
    requires
        file.len() == size,
        tail_start_of(size) == Some(start),
    ensures
        start + broken_line(file.skip(start as int)) <= size,
        oldest_first(
            head_pieces(
                file,
                (start + broken_line(file.skip(start as int))) as u64,
                Seq::empty(),
            ),
        ) + file.skip(start as int).skip(broken_line(file.skip(start as int))) == file,
{
    let tail = file.skip(start as int);
    lemma_first_line_feed_is(tail);
    let end = (start + broken_line(tail)) as u64;
    law_head_complete(file, end);
    assert(file.take(end as int) + tail.skip(broken_line(tail)) =~= file);
}

/// No line is cut in two: wherever something is read as text, what stands before it in the
/// file is nothing, or ends with a line feed.
pub proof fn law_head_lines_whole(file: Seq<u8>, end: u64, k: int)
    requires
        end <= file.len(),
        0 <= k < head_pieces(file, end, Seq::empty()).len(),
        head_pieces(file, end, Seq::empty())[k].len() > 0,
    ensures
        ({
            let before = oldest_first(head_pieces(file, end, Seq::empty()).skip(k + 1));
            before.len() > 0 ==> before.last() == 10
        }),
{
    lemma_lines_whole(file, end, Seq::empty(), k);
}

proof fn lemma_lines_whole(file: Seq<u8>, cursor: u64, carry: Seq<u8>, k: int)
    requires
        cursor <= file.len(),
        0 <= k < head_pieces(file, cursor, carry).len(),
        head_pieces(file, cursor, carry)[k].len() > 0,
    ensures
        ({
            let before = oldest_first(head_pieces(file, cursor, carry).skip(k + 1));
            before.len() > 0 ==> before.last() == 10
        }),
    decreases cursor,
{
    let p = head_pieces(file, cursor, carry);
    if cursor > 0 {
        let start = block_start(cursor);
        let bytes = file.subrange(start as int, cursor as int) + carry;
        let held = held_back(start, bytes);
        let rest = head_pieces(file, start, held);
        assert(p.skip(1) =~= rest);
        if k == 0 {
            lemma_first_line_feed_is(bytes);
            lemma_head_pieces(file, start, held);
        } else {
            assert(p[k] == rest[k - 1]);
            lemma_lines_whole(file, start, held, k - 1);
            assert(p.skip(k + 1) =~= rest.skip(k));
        }
    } else {
        assert(p.skip(k + 1) =~= Seq::empty());
    }
}

/// A head of no more than one block is read as one text, from its first line to its last.
pub proof fn law_one_block_head(file: Seq<u8>, end: u64)
    requires
        0 < end <= file.len(),
        end <= HEAD_BLOCK,
    ensures
        head_pieces(file, end, Seq::empty()) == seq![file.take(end as int)],
{
    let bytes = file.subrange(0, end as int) + Seq::<u8>::empty();
    assert(held_back(0, bytes) =~= Seq::empty());
    assert(whole_lines(0, bytes) =~= file.take(end as int));
    assert(head_pieces(file, 0, Seq::empty()) =~= Seq::empty());
    assert(head_pieces(file, end, Seq::empty()) =~= seq![file.take(end as int)]);
}

/// The entries in the tail of a file are in the order of the times at which the commands were
/// started, latest first.
pub proof fn law_tail_newest_first(entries: Seq<History>, text: Seq<char>, i: int, j: int)
    requires
        is_newest_first(entries, text),
        0 <= i <= j < entries.len(),
    ensures
        entries[i].timestamp.nanos >= entries[j].timestamp.nanos,
{
    let n = entries.len() - 1;
    law_history_chronological(entries.reverse(), text, n - j, n - i);
}

/// Text that is cut after a line feed has the lines of the one part and then those of the other.
pub proof fn law_lines_of_parts(a: Seq<char>, b: Seq<char>)
    requires
        a.len() > 0 ==> a.last() == '\n',
    ensures
        lines_of(a + b) == lines_of(a) + lines_of(b),
    decreases a.len(),
{
    if a.len() == 0 {
        assert(a + b =~= b);
        assert(lines_of(a) + lines_of(b) =~= lines_of(b));
    } else {
        lemma_first_where(a, is_char('\n'));
        let i = first_at(a, '\n');
        assert(is_char('\n')(a[a.len() - 1]));
        let all = a + b;
        assert forall|j: int| 0 <= j < i implies !is_char('\n')(#[trigger] all[j]) by {
            assert(all[j] == a[j]);
        }
        assert(all[i] == a[i]);
        lemma_first_where_is(all, is_char('\n'), i);
        let rest = a.skip(i + 1);
        assert(all.take(i) =~= a.take(i));
        assert(all.skip(i + 1) =~= rest + b);
        if rest.len() > 0 {
            assert(rest.last() == a.last());
        }
        law_lines_of_parts(rest, b);
        assert(lines_of(a + b) =~= lines_of(a) + lines_of(b));
    }
}

/// Of the tail of a file nothing is left out but what stands up to its first line feed; where it
/// has none, nothing is.
pub proof fn law_broken_line(bytes: Seq<u8>)
    ensures
        0 <= broken_line(bytes) <= bytes.len(),
        bytes.contains(10u8) ==> broken_line(bytes) > 0 && bytes[broken_line(bytes) - 1] == 10
            && forall|j: int| 0 <= j < broken_line(bytes) - 1 ==> #[trigger] bytes[j] != 10,
        !bytes.contains(10u8) ==> broken_line(bytes) == 0,
{
    lemma_first_line_feed_is(bytes);
    crate::bytes::lemma_none_before(bytes);
    let i = first_line_feed(bytes);
    if i < bytes.len() {
        assert(bytes.contains(bytes[i]));
    } else if bytes.contains(10u8) {
        let k = bytes.index_of(10u8);
        assert(bytes[k] == 10);
    }
}

/// The blocks come in the order in which the runs of bytes are read, the one nearest the end of the
/// file first: `at` tells which run each block is that of. Every run that records a command has a
/// block, and no other has.
pub proof fn law_blocks_in_order(blocks: Seq<Vec<History>>, pieces: Seq<Seq<u8>>) -> (at: Seq<int>)
    requires
        is_read_of(blocks, pieces),
    ensures
        at.len() == blocks.len(),
        forall|i: int|
            0 <= i < at.len() ==> 0 <= #[trigger] at[i] < pieces.len() && is_history_of(
                blocks[i]@,
                text_by_lines(pieces[at[i]]),
            ) && blocks[i]@.len() > 0,
        forall|i: int, j: int| 0 <= i < j < at.len() ==> #[trigger] at[i] < #[trigger] at[j],
        forall|k: int|
            0 <= k < pieces.len() && recorded(text_by_lines(#[trigger] pieces[k])).len() > 0
                ==> at.contains(k),
    decreases pieces.len(),
{
    if pieces.len() == 0 {
        Seq::empty()
    } else {
        let n = pieces.len() - 1;
        let text = text_by_lines(pieces.last());
        if recorded(text).len() == 0 {
            let at = law_blocks_in_order(blocks, pieces.drop_last());
            assert forall|k: int|
                0 <= k < pieces.len() && recorded(text_by_lines(#[trigger] pieces[k])).len() > 0
                implies at.contains(k) by {
                assert(pieces.drop_last()[k] == pieces[k]);
            }
            assert forall|i: int| 0 <= i < at.len() implies 0 <= #[trigger] at[i] < pieces.len()
                && is_history_of(blocks[i]@, text_by_lines(pieces[at[i]])) && blocks[i]@.len()
                > 0 by {
                assert(pieces.drop_last()[at[i]] == pieces[at[i]]);
            }
            at
        } else {
            let front = law_blocks_in_order(blocks.drop_last(), pieces.drop_last());
            let at = front.push(n);
            assert(views_without_ids(blocks.last()@).len() == recorded(text).len());
            assert forall|i: int| 0 <= i < at.len() implies 0 <= #[trigger] at[i] < pieces.len()
                && is_history_of(blocks[i]@, text_by_lines(pieces[at[i]])) && blocks[i]@.len()
                > 0 by {
                if i < front.len() {
                    assert(at[i] == front[i]);
                    assert(blocks.drop_last()[i] == blocks[i]);
                    assert(pieces.drop_last()[at[i]] == pieces[at[i]]);
                }
            }
            assert forall|k: int|
                0 <= k < pieces.len() && recorded(text_by_lines(#[trigger] pieces[k])).len() > 0
                implies at.contains(k) by {
                if k < n {
                    assert(pieces.drop_last()[k] == pieces[k]);
                    let j = front.index_of(k);
                    assert(at[j] == k);
                } else {
                    assert(at[front.len() as int] == k);
                }
            }
            at
        }
    }
}

} // verus!

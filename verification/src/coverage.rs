//! No command line is lost or read twice, in however many pieces a file is read.
use vstd::multiset::Multiset;
use vstd::prelude::*;
use vstd::seq_lib::{
    lemma_multiset_commutative, to_multiset_build, to_multiset_contains, to_multiset_remove,
};
use crate::bytes::{
    first_line_feed, law_text_of_parts, lemma_first_line_feed_is, text_by_lines,
};
use crate::clock::Timestamp;
use crate::history::{History, HistoryView};
use crate::input::{
    command_record, exit_record, is_history_of, not_host_char, open_entries, open_entry,
    open_position, read_lines, recorded, start_times, views_without_ids, without_id,
};
use crate::order::{comes_before, is_stable_order, is_stable_sort, lemma_order_complete, pick};
use crate::reader::{
    block_start, broken_line, head_pieces, held_back, is_newest_first, is_read_of,
    law_lines_of_parts, tail_start_of, whole_lines,
};
use crate::round_trip::lemma_position;
use crate::text::lines_of;

verus! {

/// What an entry has from its command line alone, whatever stands on other lines.
pub struct CommandHeader {
    pub timestamp: Timestamp,
    pub hostname: Seq<char>,
    pub session: Seq<char>,
    pub cwd: Seq<char>,
}

/// What an entry has from its command line alone.
pub open spec fn header_of(v: HistoryView) -> CommandHeader {
    CommandHeader {
        timestamp: v.timestamp,
        hostname: v.hostname,
        session: v.session,
        cwd: v.cwd,
    }
}

/// What entries have from their command lines, each counted as often as it is there.
pub open spec fn headers(s: Seq<HistoryView>) -> Multiset<CommandHeader> {
    s.map_values(|v: HistoryView| header_of(v)).to_multiset()
}

/// What the entries of a history have from their command lines.
pub open spec fn entry_headers(s: Seq<History>) -> Multiset<CommandHeader> {
    s.map_values(|h: History| header_of(h@)).to_multiset()
}

/// What the entries of several blocks have from their command lines.
pub open spec fn block_headers(blocks: Seq<Vec<History>>) -> Multiset<CommandHeader>
    decreases blocks.len(),
{
    if blocks.len() == 0 {
        Multiset::empty()
    } else {
        block_headers(blocks.drop_last()).add(entry_headers(blocks.last()@))
    }
}

/// What the command lines among `lines` say of when, where and by what process a command was
/// started.
pub open spec fn line_headers(lines: Seq<Seq<char>>) -> Multiset<CommandHeader>
    decreases lines.len(),
{
    if lines.len() == 0 {
        Multiset::empty()
    } else {
        match command_record(lines.last()) {
            Some(c) => line_headers(lines.drop_last()).insert(header_of(open_entry(c))),
            None => line_headers(lines.drop_last()),
        }
    }
}

/// The same of the command lines of several runs of bytes.
pub open spec fn piece_headers(pieces: Seq<Seq<u8>>) -> Multiset<CommandHeader>
    decreases pieces.len(),
{
    if pieces.len() == 0 {
        Multiset::empty()
    } else {
        piece_headers(pieces.drop_last()).add(line_headers(lines_of(text_by_lines(pieces.last()))))
    }
}

/// A command line is no exit line.
proof fn lemma_one_kind(line: Seq<char>)
    requires
        command_record(line) is Some,
    ensures
        exit_record(line) is None,
{
    crate::text::lemma_first_where(line, not_host_char());
    reveal_strlit("##EXIT## ");
    assert("##EXIT## "@[0] == '#');
    assert(!not_host_char()(line[0]));
}

proof fn lemma_headers_push(s: Seq<HistoryView>, v: HistoryView)
    ensures
        headers(s.push(v)) == headers(s).insert(header_of(v)),
{
    let f = |v: HistoryView| header_of(v);
    assert(s.push(v).map_values(f) =~= s.map_values(f).push(header_of(v)));
    to_multiset_build(s.map_values(f), header_of(v));
}

proof fn lemma_headers_remove(s: Seq<HistoryView>, i: int)
    requires
        0 <= i < s.len(),
    ensures
        headers(s.remove(i)) == headers(s).remove(header_of(s[i])),
        headers(s).count(header_of(s[i])) > 0,
{
    let f = |v: HistoryView| header_of(v);
    let m = s.map_values(f);
    assert(s.remove(i).map_values(f) =~= m.remove(i));
    to_multiset_remove(m, i);
    assert(m[i] == header_of(s[i]));
    assert(m.contains(m[i]));
    to_multiset_contains(m, m[i]);
}

/// However far a text has been read, each command line has given one entry, done or open.
proof fn lemma_state_headers(lines: Seq<Seq<char>>)
    ensures
        headers(read_lines(lines).done).add(headers(open_entries(read_lines(lines).open)))
            == line_headers(lines),
    decreases lines.len(),
{
    let end = read_lines(lines);
    if lines.len() == 0 {
        assert(headers(end.done) =~= Multiset::empty()) by {
            assert(end.done.map_values(|v: HistoryView| header_of(v)) =~= Seq::empty());
            lemma_empty_multiset();
        }
        assert(headers(open_entries(end.open)) =~= Multiset::empty()) by {
            assert(open_entries(end.open).map_values(|v: HistoryView| header_of(v))
                =~= Seq::empty());
            lemma_empty_multiset();
        }
    } else {
        let front = lines.drop_last();
        let line = lines.last();
        let st = read_lines(front);
        lemma_state_headers(front);
        let open = open_entries(st.open);
        match exit_record(line) {
            Some(r) => {
                if command_record(line) is Some {
                    lemma_one_kind(line);
                }
                lemma_position(st.open, r.pid);
                let i = open_position(st.open, r.pid);
                if i < st.open.len() {
                    let v = HistoryView { exit: r.code, duration: r.duration, ..st.open[i].entry };
                    assert(end.done == st.done.push(v));
                    lemma_headers_push(st.done, v);
                    lemma_headers_remove(open, i);
                    assert(open_entries(end.open) =~= open.remove(i));
                    lemma_moved(headers(st.done), headers(open), header_of(v));
                }
            },
            None => match command_record(line) {
                Some(c) => {
                    lemma_position(st.open, c.pid);
                    let i = open_position(st.open, c.pid);
                    let entry = open_entry(c);
                    let h = header_of(entry);
                    if i < st.open.len() {
                        let v = st.open[i].entry;
                        assert(end.done == st.done.push(v));
                        lemma_headers_push(st.done, v);
                        lemma_headers_remove(open, i);
                        lemma_headers_push(open.remove(i), entry);
                        assert(open_entries(end.open) =~= open.remove(i).push(entry));
                        lemma_moved(headers(st.done), headers(open), header_of(v));
                        assert(headers(end.done).add(headers(open.remove(i)).insert(h)) =~= headers(
                            end.done,
                        ).add(headers(open.remove(i))).insert(h));
                    } else {
                        lemma_headers_push(open, entry);
                        assert(open_entries(end.open) =~= open.push(entry));
                        assert(headers(st.done).add(headers(open).insert(h)) =~= headers(
                            st.done,
                        ).add(headers(open)).insert(h));
                    }
                },
                None => {
                    if let Some(pid) = st.last {
                        lemma_position(st.open, pid);
                    }
                    let f = |v: HistoryView| header_of(v);
                    assert(open_entries(end.open).map_values(f) =~= open.map_values(f));
                },
            },
        }
    }
}

proof fn lemma_empty_multiset()
    ensures
        Seq::<CommandHeader>::empty().to_multiset() == Multiset::<CommandHeader>::empty(),
{
    let s = Seq::<CommandHeader>::empty();
    assert forall|h: CommandHeader| s.to_multiset().count(h) == 0 by {
        to_multiset_contains(s, h);
    }
    assert(s.to_multiset() =~= Multiset::empty());
}

proof fn lemma_moved(a: Multiset<CommandHeader>, b: Multiset<CommandHeader>, h: CommandHeader)
    requires
        b.count(h) > 0,
    ensures
        a.insert(h).add(b.remove(h)) == a.add(b),
{
    assert(a.insert(h).add(b.remove(h)) =~= a.add(b));
}

proof fn lemma_recorded_headers(text: Seq<char>)
    ensures
        headers(recorded(text)) == line_headers(lines_of(text)),
{
    let end = read_lines(lines_of(text));
    let open = open_entries(end.open);
    let f = |v: HistoryView| header_of(v);
    lemma_state_headers(lines_of(text));
    assert((end.done + open).map_values(f) =~= end.done.map_values(f) + open.map_values(f));
    lemma_multiset_commutative(end.done.map_values(f), open.map_values(f));
}

/// What is picked by a list of all positions, each once, is the same as often.
proof fn lemma_pick_multiset<T>(s: Seq<T>, order: Seq<usize>)
    requires
        order.len() == s.len(),
        forall|i: int| 0 <= i < order.len() ==> #[trigger] order[i] < s.len(),
        forall|i: int, j: int|
            0 <= i < j < order.len() ==> #[trigger] order[i] != #[trigger] order[j],
        forall|k: int| 0 <= k < s.len() ==> has_position(order, k),
    ensures
        pick(s, order).to_multiset() == s.to_multiset(),
    decreases s.len(),
{
    if s.len() == 0 {
        assert(pick(s, order) =~= s);
    } else {
        let n = s.len() - 1;
        assert(has_position(order, n as int));
        let k = choose|k: int| 0 <= k < order.len() && #[trigger] order[k] == n;
        let front = s.drop_last();
        let rest = order.remove(k);
        assert forall|i: int| 0 <= i < rest.len() implies #[trigger] rest[i] < front.len() by {
            let j = if i < k {
                i
            } else {
                i + 1
            };
            assert(rest[i] == order[j]);
            assert(order[j] != order[k]);
        }
        assert forall|i: int, j: int| 0 <= i < j < rest.len() implies #[trigger] rest[i]
            != #[trigger] rest[j] by {
            let a = if i < k {
                i
            } else {
                i + 1
            };
            let b = if j < k {
                j
            } else {
                j + 1
            };
            assert(rest[i] == order[a] && rest[j] == order[b]);
        }
        assert forall|p: int| 0 <= p < front.len() implies #[trigger] has_position(rest, p) by {
            assert(has_position(order, p));
            let i = choose|i: int| 0 <= i < order.len() && #[trigger] order[i] == p;
            if i < k {
                assert(rest[i] == p);
            } else {
                assert(rest[i - 1] == p);
            }
        }
        lemma_pick_multiset(front, rest);
        let all = pick(s, order);
        assert(all.remove(k) =~= pick(front, rest));
        to_multiset_remove(all, k);
        assert(all.contains(all[k]));
        to_multiset_contains(all, all[k]);
        assert(front.push(s.last()) =~= s);
        to_multiset_build(front, s.last());
        assert(all.to_multiset() =~= all.to_multiset().remove(all[k]).insert(all[k]));
    }
}

/// Whether one of the positions is `k`.
spec fn has_position(order: Seq<usize>, k: int) -> bool {
    exists|i: int| 0 <= i < order.len() && #[trigger] order[i] == k
}

/// Every command line of a text gives one entry, and there are no other entries.
pub proof fn law_commands_of_text(entries: Seq<History>, text: Seq<char>)
    requires
        is_history_of(entries, text),
    ensures
        entry_headers(entries) == line_headers(lines_of(text)),
{
    let views = views_without_ids(entries);
    let found = recorded(text);
    let keys = start_times(found);
    assert(is_stable_sort(views, found, keys));
    let order = choose|order: Seq<usize>| #[trigger]
        is_stable_order(keys, order) && views == pick(found, order);
    assert forall|i: int, j: int| 0 <= i < j < order.len() implies #[trigger] order[i]
        != #[trigger] order[j] by {
        assert(comes_before(keys, order[i] as int, order[j] as int));
    }
    assert forall|k: int| 0 <= k < found.len() implies #[trigger] has_position(order, k) by {
        lemma_order_complete(keys, order, k);
    }
    let f = |v: HistoryView| header_of(v);
    let all = found.map_values(f);
    lemma_pick_multiset(all, order);
    let read = entries.map_values(|h: History| header_of(h@));
    assert(views.len() == entries.len() == order.len());
    assert forall|i: int| 0 <= i < read.len() implies #[trigger] read[i] == pick(all, order)[i] by {
        assert(views[i] == without_id(entries[i]@));
        assert(views[i] == pick(found, order)[i]);
    }
    assert(read =~= pick(all, order));
    lemma_recorded_headers(text);
}

proof fn lemma_newest_first_headers(entries: Seq<History>, text: Seq<char>)
    requires
        is_newest_first(entries, text),
    ensures
        entry_headers(entries) == line_headers(lines_of(text)),
{
    let f = |h: History| header_of(h@);
    law_commands_of_text(entries.reverse(), text);
    assert(entries.reverse().map_values(f) =~= entries.map_values(f).reverse());
    entries.map_values(f).lemma_reverse_to_multiset();
}

/// The entries of the blocks are those of the runs of bytes that were read.
proof fn lemma_block_headers(blocks: Seq<Vec<History>>, pieces: Seq<Seq<u8>>)
    requires
        is_read_of(blocks, pieces),
    ensures
        block_headers(blocks) == piece_headers(pieces),
    decreases pieces.len(),
{
    if pieces.len() > 0 {
        let text = text_by_lines(pieces.last());
        if recorded(text).len() == 0 {
            lemma_block_headers(blocks, pieces.drop_last());
            lemma_recorded_headers(text);
            assert(recorded(text).map_values(|v: HistoryView| header_of(v)) =~= Seq::empty());
            lemma_empty_multiset();
            assert(piece_headers(pieces) =~= piece_headers(pieces.drop_last()));
        } else {
            lemma_block_headers(blocks.drop_last(), pieces.drop_last());
            law_commands_of_text(blocks.last()@, text);
        }
    }
}

proof fn lemma_piece_before(piece: Seq<u8>, rest: Seq<Seq<u8>>)
    ensures
        piece_headers(seq![piece] + rest) == piece_headers(rest).add(
            line_headers(lines_of(text_by_lines(piece))),
        ),
    decreases rest.len(),
{
    let all = seq![piece] + rest;
    let h = line_headers(lines_of(text_by_lines(piece)));
    if rest.len() == 0 {
        assert(all.drop_last() =~= Seq::empty());
        assert(all.last() == piece);
        assert(piece_headers(all.drop_last()) =~= Multiset::empty());
        assert(piece_headers(all) =~= piece_headers(rest).add(h));
    } else {
        assert(all.drop_last() =~= seq![piece] + rest.drop_last());
        assert(all.last() == rest.last());
        lemma_piece_before(piece, rest.drop_last());
        let last = line_headers(lines_of(text_by_lines(rest.last())));
        let front = piece_headers(rest.drop_last());
        assert(front.add(h).add(last) =~= front.add(last).add(h));
    }
}

proof fn lemma_lines_together(a: Seq<Seq<char>>, b: Seq<Seq<char>>)
    ensures
        line_headers(a + b) == line_headers(a).add(line_headers(b)),
    decreases b.len(),
{
    let all = a + b;
    if b.len() == 0 {
        assert(all =~= a);
        assert(line_headers(a).add(Multiset::empty()) =~= line_headers(a));
    } else {
        assert(all.drop_last() =~= a + b.drop_last());
        assert(all.last() == b.last());
        lemma_lines_together(a, b.drop_last());
        if let Some(c) = command_record(b.last()) {
            let h = header_of(open_entry(c));
            let x = line_headers(a);
            let y = line_headers(b.drop_last());
            assert(x.add(y).insert(h) =~= x.add(y.insert(h)));
        }
    }
}

/// Where bytes are cut after a line feed, the command lines are those of the two parts.
proof fn lemma_cut_headers(file: Seq<u8>, p: int, x: int)
    requires
        0 <= p <= x <= file.len(),
        p == 0 || file[p - 1] == 10,
    ensures
        line_headers(lines_of(text_by_lines(file.take(x)))) == line_headers(
            lines_of(text_by_lines(file.take(p))),
        ).add(line_headers(lines_of(text_by_lines(file.subrange(p, x))))),
{
    let a = text_by_lines(file.take(p));
    let b = text_by_lines(file.subrange(p, x));
    assert(file.take(x) =~= file.take(p) + file.subrange(p, x));
    law_text_of_parts(file.take(p), file.subrange(p, x));
    law_lines_of_parts(a, b);
    lemma_lines_together(lines_of(a), lines_of(b));
}

proof fn lemma_nothing_read(bytes: Seq<u8>)
    requires
        bytes.len() == 0,
    ensures
        text_by_lines(bytes) == Seq::<char>::empty(),
        line_headers(lines_of(text_by_lines(bytes))) == Multiset::<CommandHeader>::empty(),
{
    law_text_of_parts(bytes, bytes);
    assert(text_by_lines(bytes) =~= Seq::empty());
}

/// The command lines of the runs of bytes that the head is read in are those of the head, where
/// what is held back at `cursor` reaches up to `x`.
proof fn lemma_head_headers(file: Seq<u8>, cursor: u64, x: int)
    requires
        cursor <= x <= file.len(),
    ensures
        piece_headers(head_pieces(file, cursor, file.subrange(cursor as int, x))) == line_headers(
            lines_of(text_by_lines(file.take(x))),
        ),
    decreases cursor,
{
    let carry = file.subrange(cursor as int, x);
    let p = head_pieces(file, cursor, carry);
    let none = Seq::<Seq<u8>>::empty();
    if cursor == 0 {
        assert(carry =~= file.take(x));
        if carry.len() == 0 {
            lemma_nothing_read(carry);
        } else {
            lemma_piece_before(carry, none);
            assert(seq![carry] + none =~= p);
            assert(piece_headers(p) =~= line_headers(lines_of(text_by_lines(carry))));
        }
    } else {
        let start = block_start(cursor);
        let bytes = file.subrange(start as int, cursor as int) + carry;
        assert(bytes =~= file.subrange(start as int, x));
        lemma_first_line_feed_is(bytes);
        let held = held_back(start, bytes);
        let whole = whole_lines(start, bytes);
        let y = start + held.len();
        assert(held =~= file.subrange(start as int, y));
        assert(whole =~= file.subrange(y, x));
        lemma_piece_before(whole, head_pieces(file, start, held));
        if start == 0 {
            assert(y == 0);
            assert(head_pieces(file, start, held) =~= none);
            assert(whole =~= file.take(x));
            assert(piece_headers(p) =~= line_headers(lines_of(text_by_lines(whole))));
        } else if first_line_feed(bytes) < bytes.len() {
            assert(file[y - 1] == bytes[first_line_feed(bytes)]);
            lemma_head_headers(file, start, y);
            lemma_cut_headers(file, y, x);
        } else {
            assert(y == x);
            lemma_head_headers(file, start, x);
            lemma_nothing_read(whole);
            let h = line_headers(lines_of(text_by_lines(file.take(x))));
            assert(h.add(Multiset::empty()) =~= h);
        }
    }
}

/// No command line of a file is lost, cut in two or read twice when its tail is read first and
/// its head in blocks: counted by when, on what host, by what process and in what directory they
/// were started, the entries of the tail and of the blocks are the command lines of the file.
/// The file is so large that it has a head, and the end of a line stands in its tail.
pub proof fn law_commands_read_once(
    file: Seq<u8>,
    size: u64,
    start: u64,
    tail: Seq<History>,
    blocks: Seq<Vec<History>>,
)
    requires
        file.len() == size,
        tail_start_of(size) == Some(start),
        first_line_feed(file.skip(start as int)) < file.skip(start as int).len(),
        ({
            let bytes = file.skip(start as int);
            let skip = broken_line(bytes);
            &&& is_newest_first(tail, text_by_lines(bytes.skip(skip)))
            &&& is_read_of(blocks, head_pieces(file, (start + skip) as u64, Seq::empty()))
        }),
    ensures
        block_headers(blocks).add(entry_headers(tail)) == line_headers(
            lines_of(text_by_lines(file)),
        ),
{
    let bytes = file.skip(start as int);
    let skip = broken_line(bytes);
    lemma_first_line_feed_is(bytes);
    let end = (start + skip) as u64;
    assert(file[end - 1] == bytes[first_line_feed(bytes)]);
    assert(bytes.skip(skip) =~= file.subrange(end as int, file.len() as int));
    assert(file.take(file.len() as int) =~= file);
    lemma_newest_first_headers(tail, text_by_lines(bytes.skip(skip)));
    lemma_block_headers(blocks, head_pieces(file, end, Seq::empty()));
    assert(file.subrange(end as int, end as int) =~= Seq::empty());
    lemma_head_headers(file, end, end as int);
    lemma_cut_headers(file, end as int, file.len() as int);
}

} // verus!

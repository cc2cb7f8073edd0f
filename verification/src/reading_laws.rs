//! What is read of a history file is what stands in it, character for character.
use vstd::prelude::*;

use crate::clock::iso8601;
use crate::history::{History, HistoryView};
use crate::input::{
    command_record, exit_record, is_history_of, open_entries, open_position, read_lines, recorded,
    start_times, views_without_ids, without_id, CommandView,
};
use crate::numbers::decimal;
use crate::order::{
    comes_before, is_stable_order, is_stable_sort, lemma_order_complete, pick,
};
use crate::round_trip::{is_continuation, is_of_process, lemma_one_of_each, lemma_position};
use crate::text::{first_at, is_char, lemma_first_where, lemma_first_where_is, lines_of};
use crate::written::{all_lines, law_written_file_read, text_of_lines, Written};

verus! {

/// Lines put together, a line feed between each and the next.
pub open spec fn joined(first: Seq<char>, more: Seq<Seq<char>>) -> Seq<char>
    decreases more.len(),
{
    if more.len() == 0 {
        first
    } else {
        joined(first, more.drop_last()) + seq!['\n'] + more.last()
    }
}

/// How many characters lines have, with one more for each.
pub open spec fn total_len(lines: Seq<Seq<char>>) -> nat
    decreases lines.len(),
{
    if lines.len() == 0 {
        0
    } else {
        total_len(lines.drop_last()) + 1 + lines.last().len()
    }
}

/// Lines put together are as long as they are, with one line feed for each after the first, and
/// each of them stands there as it is, behind a line feed.
pub proof fn law_joined(first: Seq<char>, more: Seq<Seq<char>>)
    ensures
        joined(first, more).len() == first.len() + total_len(more),
        joined(first, more).take(first.len() as int) == first,
        forall|k: int|
            0 <= k < more.len() ==> {
                let at = (first.len() + total_len(more.take(k))) as int;
                &&& 0 <= at && at + 1 + more[k].len() <= joined(first, more).len()
                &&& joined(first, more)[at] == '\n'
                &&& joined(first, more).subrange(at + 1, at + 1 + more[k].len())
                    == #[trigger] more[k]
            },
    decreases more.len(),
{
    let all = joined(first, more);
    if more.len() == 0 {
        assert(all.take(first.len() as int) =~= first);
    } else {
        let front = more.drop_last();
        law_joined(first, front);
        let before = joined(first, front);
        assert(all.take(first.len() as int) =~= before.take(first.len() as int));
        assert forall|k: int| 0 <= k < more.len() implies {
            let at = (first.len() + total_len(more.take(k))) as int;
            &&& 0 <= at && at + 1 + more[k].len() <= all.len()
            &&& all[at] == '\n'
            &&& all.subrange(at + 1, at + 1 + more[k].len()) == #[trigger] more[k]
        } by {
            let at = (first.len() + total_len(more.take(k))) as int;
            if k < front.len() {
                assert(front[k] == more[k]);
                assert(front.take(k) =~= more.take(k));
                assert(all.subrange(at + 1, at + 1 + more[k].len()) =~= before.subrange(
                    at + 1,
                    at + 1 + more[k].len(),
                ));
            } else {
                assert(more.take(k) =~= front);
                assert(all.subrange(at + 1, at + 1 + more[k].len()) =~= more[k]);
            }
        }
    }
}

/// Whether an entry is that of a command line, with further lines added to the command, and with
/// a code and a duration.
pub open spec fn is_entry_of(
    h: History,
    c: CommandView,
    more: Seq<Seq<char>>,
    exit: i64,
    duration: i64,
) -> bool {
    &&& h.hostname@ == c.hostname
    &&& h.cwd@ == c.cwd
    &&& h.session@ == decimal(c.pid as nat)
    &&& h.timestamp == c.timestamp
    &&& h.command@ == joined(c.command, more)
    &&& h.exit == exit
    &&& h.duration == duration
    &&& h.author@.len() == 0
    &&& h.intent is None
    &&& h.deleted_at is None
}

spec fn is_view_of(
    v: HistoryView,
    c: CommandView,
    more: Seq<Seq<char>>,
    exit: i64,
    duration: i64,
) -> bool {
    &&& v.hostname == c.hostname
    &&& v.cwd == c.cwd
    &&& v.session == decimal(c.pid as nat)
    &&& v.timestamp == c.timestamp
    &&& v.command == joined(c.command, more)
    &&& v.exit == exit
    &&& v.duration == duration
    &&& v.author.len() == 0
    &&& v.intent is None
    &&& v.deleted_at is None
}

/// What is read of a history file are the commands that were written to it, each once and in the
/// order of their times, those of one time in the order in which they were written: `at` tells
/// which is which. Every entry has the host, the directory, the process, the time, the code and
/// the duration that were written, and the command with all its lines as they stand.
pub proof fn law_written_entries(entries: Seq<History>, commands: Seq<Written>) -> (at: Seq<int>)
    requires
        forall|i: int| 0 <= i < commands.len() ==> (#[trigger] commands[i]).wf(),
        is_history_of(entries, text_of_lines(all_lines(commands))),
    ensures
        entries.len() == commands.len(),
        at.len() == commands.len(),
        forall|i: int| 0 <= i < at.len() ==> 0 <= #[trigger] at[i] < commands.len(),
        forall|i: int, j: int| 0 <= i < j < at.len() ==> #[trigger] at[i] != #[trigger] at[j],
        forall|i: int|
            0 <= i < at.len() ==> {
                let w = commands[#[trigger] at[i]];
                let h = entries[i];
                &&& h.command@ == joined(w.command, w.more)
                &&& h.hostname@ == w.hostname
                &&& h.cwd@ == (match w.cwd {
                    Some(dir) => dir,
                    None => Seq::empty(),
                })
                &&& h.session@ == decimal(w.pid as nat)
                &&& iso8601(w.time) == Some((h.timestamp.nanos, h.timestamp.offset))
                &&& h.exit == w.code
                &&& h.duration == w.ms.wrapping_mul(1_000_000)
                &&& h.author@.len() == 0 && h.intent is None && h.deleted_at is None
                &&& h.id@.len() == 32
            },
        forall|i: int, j: int|
            0 <= i < j < at.len() ==> (#[trigger] entries[i]).timestamp.nanos < (
            #[trigger] entries[j]).timestamp.nanos || (entries[i].timestamp.nanos
                == entries[j].timestamp.nanos && at[i] < at[j]),
{
    let text = text_of_lines(all_lines(commands));
    law_written_file_read(commands);
    let found = recorded(text);
    let views = views_without_ids(entries);
    let keys = start_times(found);
    assert(is_stable_sort(views, found, keys));
    let order = choose|order: Seq<usize>| #[trigger]
        is_stable_order(keys, order) && views == pick(found, order);
    let at = order.map_values(|x: usize| x as int);
    assert(views.len() == entries.len());
    assert(found.len() == commands.len());
    assert forall|i: int| 0 <= i < at.len() implies ({
        let w = commands[#[trigger] at[i]];
        let h = entries[i];
        &&& h.command@ == joined(w.command, w.more)
        &&& h.hostname@ == w.hostname
        &&& h.cwd@ == (match w.cwd {
            Some(dir) => dir,
            None => Seq::empty(),
        })
        &&& h.session@ == decimal(w.pid as nat)
        &&& iso8601(w.time) == Some((h.timestamp.nanos, h.timestamp.offset))
        &&& h.exit == w.code
        &&& h.duration == w.ms.wrapping_mul(1_000_000)
        &&& h.author@.len() == 0 && h.intent is None && h.deleted_at is None
        &&& h.id@.len() == 32
    }) by {
        assert(order[i] < keys.len());
        let w = commands[at[i]];
        assert(w.wf());
        assert(views[i] == without_id(entries[i]@));
        assert(views[i] == found[order[i] as int]);
        assert(found[order[i] as int] == w.entry());
        lemma_with_lines(w.record(), w.more);
    }
    assert forall|i: int, j: int| 0 <= i < j < at.len() implies (
    #[trigger] entries[i]).timestamp.nanos < (#[trigger] entries[j]).timestamp.nanos || (
    entries[i].timestamp.nanos == entries[j].timestamp.nanos && at[i] < at[j]) by {
        assert(comes_before(keys, order[i] as int, order[j] as int));
        assert(order[i] < keys.len() && order[j] < keys.len());
        assert(views[i] == without_id(entries[i]@) && views[j] == without_id(entries[j]@));
        assert(views[i] == found[order[i] as int] && views[j] == found[order[j] as int]);
        assert(keys[order[i] as int] == entries[i].timestamp.nanos);
        assert(keys[order[j] as int] == entries[j].timestamp.nanos);
    }
    at
}

proof fn lemma_with_lines(c: CommandView, more: Seq<Seq<char>>)
    ensures
        is_view_of(
            crate::written::with_lines(crate::input::open_entry(c), more),
            c,
            more,
            -1i64,
            -1i64,
        ),
    decreases more.len(),
{
    if more.len() > 0 {
        lemma_with_lines(c, more.drop_last());
        let before = crate::written::with_lines(crate::input::open_entry(c), more.drop_last());
        assert(before.command.push('\n') + more.last() =~= joined(c.command, more.drop_last())
            + seq!['\n'] + more.last());
    }
}

/// The lines among `lines` that are neither command lines nor exit lines, in order.
pub open spec fn plain_lines(lines: Seq<Seq<char>>) -> Seq<Seq<char>>
    decreases lines.len(),
{
    if lines.len() == 0 {
        Seq::empty()
    } else if is_continuation(lines.last()) {
        plain_lines(lines.drop_last()).push(lines.last())
    } else {
        plain_lines(lines.drop_last())
    }
}

/// Whether lines go on with a command of process `pid`: each is one that goes on with a command,
/// or the exit line of another process.
pub open spec fn goes_on(lines: Seq<Seq<char>>, pid: u32) -> bool {
    forall|i: int|
        0 <= i < lines.len() ==> is_continuation(#[trigger] lines[i]) || (exit_record(lines[i])
            matches Some(r) && r.pid != pid)
}

/// Whether lines after those of a command leave it alone: none is of its process, and the first
/// of them starts a command of another, which takes the lines that go on with one.
pub open spec fn leaves_alone(lines: Seq<Seq<char>>, pid: u32) -> bool {
    &&& forall|i: int| 0 <= i < lines.len() ==> !is_of_process(#[trigger] lines[i], pid)
    &&& lines.len() > 0 ==> exit_record(lines[0]) is None && command_record(lines[0]) is Some
}

/// Where the command of process `pid` is open with the entry that `c` and `more` make.
spec fn open_with(lines: Seq<Seq<char>>, c: CommandView, more: Seq<Seq<char>>) -> bool {
    let st = read_lines(lines);
    let i = open_position(st.open, c.pid);
    &&& i < st.open.len()
    &&& is_view_of(st.open[i].entry, c, more, -1i64, -1i64)
}

proof fn lemma_lines_added(before: Seq<Seq<char>>, first: Seq<char>, more: Seq<Seq<char>>)
    requires
        exit_record(first) is None,
        command_record(first) is Some,
        goes_on(more, command_record(first).unwrap().pid),
    ensures
        open_with(before.push(first) + more, command_record(first).unwrap(), plain_lines(more)),
        read_lines(before.push(first) + more).last == Some(command_record(first).unwrap().pid),
    decreases more.len(),
{
    let c = command_record(first).unwrap();
    let all = before.push(first) + more;
    lemma_one_of_each(all);
    if more.len() == 0 {
        assert(all =~= before.push(first));
        assert(all.drop_last() =~= before);
        let open = read_lines(all).open;
        lemma_position(open, c.pid);
        assert(open[open.len() - 1].pid == c.pid);
        assert(open[open_position(open, c.pid)].pid == open[open.len() - 1].pid);
    } else {
        let front = more.drop_last();
        let line = more.last();
        assert forall|i: int| 0 <= i < front.len() implies is_continuation(#[trigger] front[i]) || (
        exit_record(front[i]) matches Some(r) && r.pid != c.pid) by {
            assert(front[i] == more[i]);
        }
        lemma_lines_added(before, first, front);
        assert(all.drop_last() =~= before.push(first) + front);
        assert(all.last() == line);
        assert(is_continuation(more[more.len() - 1]) || (exit_record(line) matches Some(r) && r.pid
            != c.pid));
        let st = read_lines(before.push(first) + front);
        let end = read_lines(all);
        lemma_one_of_each(before.push(first) + front);
        lemma_position(st.open, c.pid);
        let i = open_position(st.open, c.pid);
        let place = match exit_record(line) {
            Some(r) => {
                lemma_position(st.open, r.pid);
                if open_position(st.open, r.pid) < i {
                    i - 1
                } else {
                    i
                }
            },
            None => i,
        };
        assert(end.open[place].pid == c.pid);
        lemma_position(end.open, c.pid);
        assert(end.open[open_position(end.open, c.pid)].pid == end.open[place].pid);
        if is_continuation(line) {
            let lines = plain_lines(more);
            assert(lines.drop_last() =~= plain_lines(front));
            assert(end.open[i].entry.command =~= joined(c.command, lines));
        }
    }
}

proof fn lemma_left_alone(
    before: Seq<Seq<char>>,
    first: Seq<char>,
    more: Seq<Seq<char>>,
    middle: Seq<Seq<char>>,
)
    requires
        exit_record(first) is None,
        command_record(first) is Some,
        goes_on(more, command_record(first).unwrap().pid),
        leaves_alone(middle, command_record(first).unwrap().pid),
    ensures
        open_with(
            before.push(first) + more + middle,
            command_record(first).unwrap(),
            plain_lines(more),
        ),
        middle.len() > 0 ==> read_lines(before.push(first) + more + middle).last != Some(
            command_record(first).unwrap().pid,
        ),
    decreases middle.len(),
{
    let c = command_record(first).unwrap();
    let start = before.push(first) + more;
    let all = start + middle;
    if middle.len() == 0 {
        lemma_lines_added(before, first, more);
        assert(all =~= start);
    } else {
        let front = middle.drop_last();
        let line = middle.last();
        assert(all.drop_last() =~= start + front);
        assert(all.last() == line);
        assert forall|i: int| 0 <= i < front.len() implies !is_of_process(
            #[trigger] front[i],
            c.pid,
        ) by {
            assert(front[i] == middle[i]);
        }
        if front.len() > 0 {
            assert(front[0] == middle[0]);
        }
        lemma_left_alone(before, first, more, front);
        assert(!is_of_process(middle[middle.len() - 1], c.pid));
        let st = read_lines(start + front);
        let end = read_lines(all);
        lemma_one_of_each(start + front);
        lemma_one_of_each(all);
        lemma_position(st.open, c.pid);
        let i = open_position(st.open, c.pid);
        if front.len() == 0 {
            assert(line == middle[0]);
        }
        let other = match exit_record(line) {
            Some(r) => Some(r.pid),
            None => match command_record(line) {
                Some(d) => Some(d.pid),
                None => st.last,
            },
        };
        if let Some(pid) = other {
            lemma_position(st.open, pid);
        }
        let k = match other {
            Some(pid) => open_position(st.open, pid),
            None => st.open.len() as int,
        };
        let place = if !is_continuation(line) && k < i {
            i - 1
        } else {
            i
        };
        assert(end.open[place].pid == c.pid);
        assert(end.open[place].entry == st.open[i].entry);
        lemma_position(end.open, c.pid);
        assert(end.open[open_position(end.open, c.pid)].pid == end.open[place].pid);
        assert(open_position(end.open, c.pid) == place);
    }
}

/// What is done stays as it is, whatever is read after.
proof fn lemma_done_stays(lines: Seq<Seq<char>>, after: Seq<Seq<char>>)
    ensures
        read_lines(lines).done.is_prefix_of(read_lines(lines + after).done),
    decreases after.len(),
{
    if after.len() == 0 {
        assert(lines + after =~= lines);
    } else {
        lemma_done_stays(lines, after.drop_last());
        assert((lines + after).drop_last() =~= lines + after.drop_last());
        let a = read_lines(lines).done;
        let b = read_lines(lines + after.drop_last()).done;
        let c = read_lines(lines + after).done;
        assert(b.is_prefix_of(c));
        assert(a =~= c.take(a.len() as int));
    }
}

/// What is recorded is read.
proof fn lemma_recorded_read(entries: Seq<History>, text: Seq<char>, k: int) -> (i: int)
    requires
        is_history_of(entries, text),
        0 <= k < recorded(text).len(),
    ensures
        0 <= i < entries.len(),
        without_id(entries[i]@) == recorded(text)[k],
{
    let found = recorded(text);
    let views = views_without_ids(entries);
    let keys = start_times(found);
    assert(is_stable_sort(views, found, keys));
    let order = choose|order: Seq<usize>| #[trigger]
        is_stable_order(keys, order) && views == pick(found, order);
    assert(views.len() == entries.len() && order.len() == views.len());
    lemma_order_complete(keys, order, k);
    let i = choose|i: int| 0 <= i < order.len() && #[trigger] order[i] == k;
    assert(views[i] == pick(found, order)[i]);
    assert(views[i] == without_id(entries[i]@));
    i
}

/// A command and its exit line give one entry, whatever else is in the file: the entry has what
/// the command line says, with the lines that follow it added to the command as they stand, and
/// the code and the duration that the exit line says. Lines of other processes between them do
/// not change that: an exit line of another does not end the command, and once another has started
/// a command, the lines that go on with one are not added to this.
pub proof fn law_command_read_whole(
    entries: Seq<History>,
    text: Seq<char>,
    before: Seq<Seq<char>>,
    first: Seq<char>,
    more: Seq<Seq<char>>,
    middle: Seq<Seq<char>>,
    second: Seq<char>,
    after: Seq<Seq<char>>,
) -> (i: int)
    requires
        is_history_of(entries, text),
        lines_of(text) == (before.push(first) + more + middle).push(second) + after,
        exit_record(first) is None,
        command_record(first) is Some,
        goes_on(more, command_record(first).unwrap().pid),
        leaves_alone(middle, command_record(first).unwrap().pid),
        exit_record(second) matches Some(r) && r.pid == command_record(first).unwrap().pid,
    ensures
        0 <= i < entries.len(),
        is_entry_of(
            entries[i],
            command_record(first).unwrap(),
            plain_lines(more),
            exit_record(second).unwrap().code,
            exit_record(second).unwrap().duration,
        ),
{
    let c = command_record(first).unwrap();
    let one = before.push(first) + more + middle;
    let two = one.push(second);
    lemma_left_alone(before, first, more, middle);
    assert(two.drop_last() =~= one);
    let st = read_lines(one);
    lemma_position(st.open, c.pid);
    let done = read_lines(two).done;
    lemma_done_stays(two, after);
    let k = done.len() - 1;
    assert(read_lines(two + after).done[k] == done[k]);
    assert(recorded(text)[k] == done[k]);
    lemma_recorded_read(entries, text, k)
}

/// A command for which there is no exit line, before its process starts another or the file ends,
/// gives one entry too, with -1 for the code and for the duration.
pub proof fn law_command_without_exit(
    entries: Seq<History>,
    text: Seq<char>,
    before: Seq<Seq<char>>,
    first: Seq<char>,
    more: Seq<Seq<char>>,
    middle: Seq<Seq<char>>,
    after: Seq<Seq<char>>,
) -> (i: int)
    requires
        is_history_of(entries, text),
        lines_of(text) == before.push(first) + more + middle + after,
        exit_record(first) is None,
        command_record(first) is Some,
        goes_on(more, command_record(first).unwrap().pid),
        leaves_alone(middle, command_record(first).unwrap().pid),
        after.len() > 0 ==> exit_record(after[0]) is None && (command_record(after[0]) matches Some(
            d,
        ) && d.pid == command_record(first).unwrap().pid),
    ensures
        0 <= i < entries.len(),
        is_entry_of(entries[i], command_record(first).unwrap(), plain_lines(more), -1i64, -1i64),
{
    let c = command_record(first).unwrap();
    let one = before.push(first) + more + middle;
    lemma_left_alone(before, first, more, middle);
    let st = read_lines(one);
    lemma_position(st.open, c.pid);
    let p = open_position(st.open, c.pid);
    if after.len() == 0 {
        assert(one + after =~= one);
        let k = st.done.len() + p;
        assert(recorded(text)[k] == open_entries(st.open)[p]);
        lemma_recorded_read(entries, text, k as int)
    } else {
        let two = one.push(after[0]);
        assert(two.drop_last() =~= one);
        assert(two + after.skip(1) =~= one + after);
        lemma_done_stays(two, after.skip(1));
        let done = read_lines(two).done;
        let k = done.len() - 1;
        assert(read_lines(one + after).done[k] == done[k]);
        assert(recorded(text)[k] == done[k]);
        lemma_recorded_read(entries, text, k)
    }
}

/// A line that stands before a line feed is read as it is, but for a carriage return right before
/// the line feed; what stands behind the last line feed is a line too, as it is.
pub proof fn law_lines(line: Seq<char>, rest: Seq<char>)
    requires
        !line.contains('\n'),
    ensures
        lines_of(line.push('\n') + rest) == seq![
            if line.len() > 0 && line.last() == '\r' {
                line.drop_last()
            } else {
                line
            },
        ] + lines_of(rest),
        line.len() > 0 ==> lines_of(line) == seq![line],
        lines_of(Seq::empty()) == Seq::<Seq<char>>::empty(),
{
    let text = line.push('\n') + rest;
    let n = line.len() as int;
    assert forall|j: int| 0 <= j < n implies !is_char('\n')(#[trigger] text[j]) by {
        assert(text[j] == line[j]);
        assert(line.contains(line[j]));
    }
    assert(text[n] == '\n');
    lemma_first_where_is(text, is_char('\n'), n);
    assert(text.take(n) =~= line);
    assert(text.skip(n + 1) =~= rest);
    lemma_first_where(line, is_char('\n'));
    let i = first_at(line, '\n');
    if i < line.len() {
        assert(line.contains(line[i]));
    }
}

} // verus!

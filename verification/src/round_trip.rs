//! What a line of a history file records is what was written on it.
use vstd::prelude::*;

use crate::clock::timestamp_value;
use crate::history::{History, HistoryView};
use crate::input::{
    after_prefix, command_record, continued, directory_and_rest, exit_record, first_word,
    is_history_of, is_host_char, not_host_char, open_entry, open_position, read_lines, recorded,
    start_times, views_without_ids, CommandView, ExitRecord, OpenCommand,
};
use crate::numbers::{
    decimal, is_digit, law_i64_round_trip, law_u32_round_trip, lemma_decimal, signed_decimal,
};
use crate::order::{comes_before, is_stable_order, is_stable_sort, pick};
use crate::text::{
    is_char, lemma_first_where_is, not_white_space, trimmed, trimmed_start, white_space,
};

verus! {

/// A command line as it is written: `hostname[:"cwd"] pid timestamp command`.
pub open spec fn command_line(
    hostname: Seq<char>,
    cwd: Option<Seq<char>>,
    pid: u32,
    time: Seq<char>,
    command: Seq<char>,
) -> Seq<char> {
    let rest = decimal(pid as nat) + (seq![' '] + (time + (seq![' '] + command)));
    match cwd {
        Some(cwd) => hostname + (":\""@ + (cwd + (seq!['"', ' '] + rest))),
        None => hostname + (seq![' '] + rest),
    }
}

/// An exit line as it is written: `##EXIT## hostname pid=N $?=N t_ms=N`.
pub open spec fn exit_line(hostname: Seq<char>, pid: u32, code: i64, ms: i64) -> Seq<char> {
    "##EXIT## "@ + (hostname + (seq![' '] + ("pid="@ + (decimal(pid as nat) + (seq![' '] + ("$?="@
        + (signed_decimal(code as int) + (seq![' '] + ("t_ms="@ + signed_decimal(
        ms as int,
    ))))))))))
}

/// Whether the text is something, and has no white space at either end.
pub open spec fn is_trim(s: Seq<char>) -> bool {
    s.len() > 0 && !white_space(s[0]) && !white_space(s.last())
}

proof fn lemma_trim(s: Seq<char>)
    requires
        is_trim(s),
    ensures
        trimmed(s) == s,
        trimmed_start(s) == s,
{
    lemma_first_where_is(s, not_white_space(), 0);
    assert(s.skip(0) =~= s);
}

proof fn lemma_first_word(word: Seq<char>, rest: Seq<char>)
    requires
        !word.contains(' '),
    ensures
        first_word(word + (seq![' '] + rest)) == Some((word, rest)),
{
    let s = word + (seq![' '] + rest);
    assert forall|j: int| 0 <= j < word.len() implies !is_char(' ')(#[trigger] s[j]) by {
        assert(s[j] == word[j]);
        assert(word.contains(word[j]));
    }
    assert(s[word.len() as int] == ' ');
    lemma_first_where_is(s, is_char(' '), word.len() as int);
    assert(s.take(word.len() as int) =~= word);
    assert(s.skip(word.len() as int + 1) =~= rest);
}

proof fn lemma_after_prefix(prefix: Seq<char>, rest: Seq<char>)
    ensures
        after_prefix(prefix + rest, prefix) == Some(rest),
{
    let s = prefix + rest;
    assert(prefix =~= s.take(prefix.len() as int));
    assert(s.skip(prefix.len() as int) =~= rest);
}

proof fn lemma_number_is_word(n: nat)
    ensures
        !decimal(n).contains(' '),
        decimal(n).len() > 0,
        !white_space(decimal(n)[0]),
        !white_space(decimal(n).last()),
        is_digit(decimal(n)[0]),
{
    lemma_decimal(n);
    if decimal(n).contains(' ') {
        let i = decimal(n).index_of(' ');
        assert(is_digit(decimal(n)[i]));
    }
    assert(is_digit(decimal(n)[0]));
    assert(is_digit(decimal(n).last()));
}

proof fn lemma_signed_is_word(n: int)
    ensures
        !signed_decimal(n).contains(' '),
        is_trim(signed_decimal(n)),
{
    if n < 0 {
        let d = decimal((-n) as nat);
        lemma_number_is_word((-n) as nat);
        let s = signed_decimal(n);
        if s.contains(' ') {
            let i = s.index_of(' ');
            assert(s[i] == d[i - 1]);
            assert(d.contains(d[i - 1]));
        }
        assert(s.last() == d.last());
    } else {
        lemma_number_is_word(n as nat);
    }
}

/// An exit line is read as what was written on it; milliseconds that come to too many
/// nanoseconds for sixty-four bits start over.
pub proof fn law_exit_line_read(hostname: Seq<char>, pid: u32, code: i64, ms: i64)
    requires
        !hostname.contains(' '),
    ensures
        exit_record(exit_line(hostname, pid, code, ms)) == Some(
            ExitRecord { pid, code, duration: ms.wrapping_mul(1_000_000) },
        ),
        i64::MIN <= ms * 1_000_000 <= i64::MAX ==> ms.wrapping_mul(1_000_000) == ms * 1_000_000,
{
    let tms = signed_decimal(ms as int);
    let f = "t_ms="@ + tms;
    let e = signed_decimal(code as int) + (seq![' '] + f);
    let d = "$?="@ + e;
    let c = decimal(pid as nat) + (seq![' '] + d);
    let b = "pid="@ + c;
    let a = hostname + (seq![' '] + b);
    lemma_after_prefix("##EXIT## "@, a);
    lemma_first_word(hostname, b);
    lemma_after_prefix("pid="@, c);
    lemma_number_is_word(pid as nat);
    lemma_first_word(decimal(pid as nat), d);
    lemma_after_prefix("$?="@, e);
    lemma_signed_is_word(code as int);
    lemma_first_word(signed_decimal(code as int), f);
    lemma_after_prefix("t_ms="@, tms);
    lemma_signed_is_word(ms as int);
    lemma_trim(tms);
    law_u32_round_trip(pid);
    law_i64_round_trip(code);
    law_i64_round_trip(ms);
}

/// What stands behind the directory on a command line, or behind the host name where no
/// directory is named, is the rest of the line.
proof fn lemma_directory(cwd: Option<Seq<char>>, rest: Seq<char>)
    requires
        cwd matches Some(dir) ==> !dir.contains('"'),
        rest.len() > 0,
        !white_space(rest[0]),
    ensures
        ({
            let after = match cwd {
                Some(dir) => ":\""@ + (dir + (seq!['"', ' '] + rest)),
                None => seq![' '] + rest,
            };
            let dir = match cwd {
                Some(dir) => dir,
                None => Seq::empty(),
            };
            directory_and_rest(after) == Some((dir, rest))
        }),
{
    reveal_strlit(":\"");
    let gap = seq![' '] + rest;
    assert(gap[1] == rest[0]);
    lemma_first_where_is(gap, not_white_space(), 1);
    assert(trimmed_start(gap) =~= rest);
    match cwd {
        Some(dir) => {
            let spaced = seq!['"', ' '] + rest;
            let after = ":\""@ + (dir + spaced);
            lemma_after_prefix(":\""@, dir + spaced);
            let inner = after.skip(2);
            assert(inner =~= dir + spaced);
            assert forall|j: int| 0 <= j < dir.len() implies !is_char('"')(#[trigger] inner[j]) by {
                assert(inner[j] == dir[j]);
                assert(dir.contains(dir[j]));
            }
            assert(inner[dir.len() as int] == spaced[0]);
            lemma_first_where_is(inner, is_char('"'), dir.len() as int);
            assert(inner.take(dir.len() as int) =~= dir);
            assert(inner.skip(dir.len() as int + 1) =~= gap);
        },
        None => {
            assert(gap[0] == ' ');
            assert(":\""@[0] == ':');
        },
    }
}

/// A command line is read as what was written on it.
pub proof fn law_command_line_read(
    hostname: Seq<char>,
    cwd: Option<Seq<char>>,
    pid: u32,
    time: Seq<char>,
    command: Seq<char>,
)
    requires
        hostname.len() > 0,
        forall|i: int| 0 <= i < hostname.len() ==> is_host_char(#[trigger] hostname[i]),
        cwd matches Some(dir) ==> !dir.contains('"'),
        !time.contains(' '),
        timestamp_value(time) is Some,
        is_trim(command),
    ensures
        command_record(command_line(hostname, cwd, pid, time, command)) == Some(
            CommandView {
                pid,
                hostname,
                cwd: match cwd {
                    Some(dir) => dir,
                    None => Seq::empty(),
                },
                timestamp: timestamp_value(time).unwrap(),
                command,
            },
        ),
        exit_record(command_line(hostname, cwd, pid, time, command)) is None,
{
    let b = time + (seq![' '] + command);
    let a = decimal(pid as nat) + (seq![' '] + b);
    let after = match cwd {
        Some(dir) => ":\""@ + (dir + (seq!['"', ' '] + a)),
        None => seq![' '] + a,
    };
    let line = command_line(hostname, cwd, pid, time, command);
    assert(line == hostname + after);
    reveal_strlit(":\"");
    assert(after[0] == ':' || after[0] == ' ');
    assert(line[hostname.len() as int] == after[0]);
    assert forall|j: int| 0 <= j < hostname.len() implies !not_host_char()(#[trigger] line[j]) by {
        assert(line[j] == hostname[j]);
    }
    lemma_first_where_is(line, not_host_char(), hostname.len() as int);
    assert(line.take(hostname.len() as int) =~= hostname);
    assert(line.skip(hostname.len() as int) =~= after);
    lemma_number_is_word(pid as nat);
    assert(a[0] == decimal(pid as nat)[0]);
    lemma_directory(cwd, a);
    lemma_first_word(decimal(pid as nat), b);
    lemma_first_word(time, command);
    law_u32_round_trip(pid);
    lemma_trim(command);
    reveal_strlit("##EXIT## ");
    assert("##EXIT## "@[0] == '#');
    assert(is_host_char(line[0])) by {
        assert(line[0] == hostname[0]);
    }
}

/// A command line and the exit line after it give one entry, with the code and the duration
/// that the exit line has, whatever stands before them; the entry is done when they are read.
pub proof fn law_pair_gives_entry(before: Seq<Seq<char>>, first: Seq<char>, second: Seq<char>)
    requires
        exit_record(first) is None,
        command_record(first) is Some,
        exit_record(second) matches Some(r) && r.pid == command_record(first).unwrap().pid,
    ensures
        read_lines(before.push(first).push(second)).done.last() == (HistoryView {
            exit: exit_record(second).unwrap().code,
            duration: exit_record(second).unwrap().duration,
            ..open_entry(command_record(first).unwrap())
        }),
        read_lines(before.push(first).push(second)).done.len() > 0,
        open_position(
            read_lines(before.push(first).push(second)).open,
            command_record(first).unwrap().pid,
        ) == read_lines(before.push(first).push(second)).open.len(),
        read_lines(before.push(first).push(second)).last is None,
{
    let c = command_record(first).unwrap();
    let r = exit_record(second).unwrap();
    let one = before.push(first);
    let two = one.push(second);
    assert(one.drop_last() =~= before);
    assert(two.drop_last() =~= one);
    lemma_one_of_each(before);
    lemma_one_of_each(one);
    lemma_one_of_each(two);
    let st = read_lines(one);
    let n = st.open.len() - 1;
    assert(st.open[n].pid == c.pid);
    lemma_position(st.open, c.pid);
    let i = open_position(st.open, c.pid);
    assert(st.open[i].pid == st.open[n].pid);
    assert(i == n);
    let end = read_lines(two);
    assert(end.open =~= st.open.remove(n));
    lemma_position(end.open, c.pid);
    let k = open_position(end.open, c.pid);
    if k < end.open.len() {
        assert(st.open[k].pid == c.pid);
    }
}

/// Where the command of a process stands is where one of it is, or the end where there is none.
pub proof fn lemma_position(open: Seq<OpenCommand>, pid: u32)
    ensures
        0 <= open_position(open, pid) <= open.len(),
        open_position(open, pid) < open.len() ==> open[open_position(open, pid)].pid == pid,
        open_position(open, pid) == open.len() ==> forall|j: int|
            0 <= j < open.len() ==> (#[trigger] open[j]).pid != pid,
    decreases open.len(),
{
    if open.len() > 0 && open[0].pid != pid {
        lemma_position(open.skip(1), pid);
        if open_position(open, pid) == open.len() {
            assert forall|j: int| 0 <= j < open.len() implies (#[trigger] open[j]).pid != pid by {
                if j > 0 {
                    assert(open[j] == open.skip(1)[j - 1]);
                }
            }
        }
    }
}

/// Whether no two open commands are of one process.
pub open spec fn one_of_each(open: Seq<OpenCommand>) -> bool {
    forall|i: int, j: int|
        0 <= i < open.len() && 0 <= j < open.len() && (#[trigger] open[i]).pid == (
        #[trigger] open[j]).pid ==> i == j
}

/// However far a file has been read, no two open commands are of one process.
pub proof fn lemma_one_of_each(lines: Seq<Seq<char>>)
    ensures
        one_of_each(read_lines(lines).open),
    decreases lines.len(),
{
    if lines.len() > 0 {
        lemma_one_of_each(lines.drop_last());
        let st = read_lines(lines.drop_last());
        let line = lines.last();
        match exit_record(line) {
            Some(r) => {
                lemma_position(st.open, r.pid);
            },
            None => match command_record(line) {
                Some(c) => {
                    lemma_position(st.open, c.pid);
                    let flushed = st.close(c.pid, crate::input::unchanged());
                    assert(one_of_each(flushed.open));
                    assert forall|j: int| 0 <= j < flushed.open.len() implies (
                    #[trigger] flushed.open[j]).pid != c.pid by {
                        let i = open_position(st.open, c.pid);
                        if i < st.open.len() {
                            let k = if j < i {
                                j
                            } else {
                                j + 1
                            };
                            assert(flushed.open[j] == st.open[k]);
                            if st.open[k].pid == c.pid {
                                assert(st.open[k].pid == st.open[i].pid);
                            }
                        }
                    }
                },
                None => {
                    if let Some(pid) = st.last {
                        lemma_position(st.open, pid);
                    }
                },
            },
        }
    }
}

/// However far a file has been read, no process has two commands open.
pub proof fn law_one_command_open(lines: Seq<Seq<char>>)
    ensures
        one_of_each(read_lines(lines).open),
{
    lemma_one_of_each(lines);
}

/// A line that is neither a command line nor an exit line, right after a command line, goes to
/// the end of that command.
pub proof fn law_line_continues(before: Seq<Seq<char>>, first: Seq<char>, second: Seq<char>)
    requires
        exit_record(first) is None,
        command_record(first) is Some,
        exit_record(second) is None,
        command_record(second) is None,
    ensures
        read_lines(before.push(first).push(second)).open.len() > 0,
        read_lines(before.push(first).push(second)).open.last() == (OpenCommand {
            pid: command_record(first).unwrap().pid,
            entry: continued(open_entry(command_record(first).unwrap()), second),
        }),
        read_lines(before.push(first).push(second)).done == read_lines(before.push(first)).done,
{
    let c = command_record(first).unwrap();
    let one = before.push(first);
    let two = one.push(second);
    assert(one.drop_last() =~= before);
    assert(two.drop_last() =~= one);
    lemma_one_of_each(one);
    let st = read_lines(one);
    let n = st.open.len() - 1;
    lemma_position(st.open, c.pid);
    let i = open_position(st.open, c.pid);
    assert(st.open[n].pid == c.pid);
    assert(st.open[i].pid == st.open[n].pid);
}

/// Whether a line starts or ends a command of process `pid`.
pub open spec fn is_of_process(line: Seq<char>, pid: u32) -> bool {
    match exit_record(line) {
        Some(r) => r.pid == pid,
        None => command_record(line) matches Some(c) && c.pid == pid,
    }
}

/// Whether a line is neither a command line nor an exit line.
pub open spec fn is_continuation(line: Seq<char>) -> bool {
    exit_record(line) is None && command_record(line) is None
}

/// Whether `later` is `first`, but for lines that were added to the command.
pub open spec fn grown_from(later: HistoryView, first: HistoryView) -> bool {
    &&& later == (HistoryView { command: later.command, ..first })
    &&& first.command.is_prefix_of(later.command)
}

/// A command stays open, and its entry but for added lines as it is, while no line of its
/// process is read.
proof fn lemma_stays_open(before: Seq<Seq<char>>, first: Seq<char>, middle: Seq<Seq<char>>)
    requires
        exit_record(first) is None,
        command_record(first) is Some,
        forall|i: int|
            0 <= i < middle.len() ==> !is_of_process(
                #[trigger] middle[i],
                command_record(first).unwrap().pid,
            ),
    ensures
        ({
            let c = command_record(first).unwrap();
            let open = read_lines(before.push(first) + middle).open;
            let i = open_position(open, c.pid);
            &&& i < open.len()
            &&& grown_from(open[i].entry, open_entry(c))
            &&& (forall|i: int|
                0 <= i < middle.len() ==> !is_continuation(#[trigger] middle[i])) ==> open[i].entry
                == open_entry(c)
        }),
    decreases middle.len(),
{
    let c = command_record(first).unwrap();
    let all = before.push(first) + middle;
    lemma_one_of_each(all);
    if middle.len() == 0 {
        assert(all =~= before.push(first));
        assert(all.drop_last() =~= before);
        let open = read_lines(all).open;
        lemma_position(open, c.pid);
        assert(open[open.len() - 1].pid == c.pid);
        assert(open[open_position(open, c.pid)].pid == open[open.len() - 1].pid);
    } else {
        let front = middle.drop_last();
        let line = middle.last();
        assert(all.drop_last() =~= before.push(first) + front);
        assert(all.last() == line);
        assert forall|i: int| 0 <= i < front.len() implies !is_of_process(
            #[trigger] front[i],
            c.pid,
        ) by {
            assert(front[i] == middle[i]);
        }
        lemma_stays_open(before, first, front);
        if forall|i: int| 0 <= i < middle.len() ==> !is_continuation(#[trigger] middle[i]) {
            assert forall|i: int| 0 <= i < front.len() implies !is_continuation(
                #[trigger] front[i],
            ) by {
                assert(front[i] == middle[i]);
            }
            assert(!is_continuation(middle[middle.len() - 1]));
        }
        let st = read_lines(before.push(first) + front);
        lemma_one_of_each(before.push(first) + front);
        let end = read_lines(all);
        lemma_position(st.open, c.pid);
        let i = open_position(st.open, c.pid);
        assert(!is_of_process(middle[middle.len() - 1], c.pid));
        let other = match exit_record(line) {
            Some(r) => Some(r.pid),
            None => match command_record(line) {
                Some(d) => Some(d.pid),
                None => st.last,
            },
        };
        if let Some(pid) = other {
            lemma_position(st.open, pid);
        }
        let k = match other {
            Some(pid) => open_position(st.open, pid),
            None => st.open.len() as int,
        };
        let place = if !is_continuation(line) && k < i {
            i - 1
        } else {
            i
        };
        assert(end.open[place].pid == c.pid);
        lemma_position(end.open, c.pid);
        assert(end.open[open_position(end.open, c.pid)].pid == end.open[place].pid);
        assert(open_position(end.open, c.pid) == place);
        if is_continuation(line) && k == i && i < st.open.len() {
            let grown = continued(st.open[i].entry, line);
            assert(open_entry(c).command.is_prefix_of(grown.command));
        }
    }
}

/// An exit line goes with the command of its process: as long as no other line of that process
/// stands between them, the entry that it completes is that of the command, with the code and
/// the duration that the exit line has. Lines of other processes do not change that; the
/// command is as it was written where no line continues one.
pub proof fn law_exit_finds_command(
    before: Seq<Seq<char>>,
    first: Seq<char>,
    middle: Seq<Seq<char>>,
    second: Seq<char>,
)
    requires
        exit_record(first) is None,
        command_record(first) is Some,
        exit_record(second) matches Some(r) && r.pid == command_record(first).unwrap().pid,
        forall|i: int|
            0 <= i < middle.len() ==> !is_of_process(
                #[trigger] middle[i],
                command_record(first).unwrap().pid,
            ),
    ensures
        ({
            let done = read_lines((before.push(first) + middle).push(second)).done;
            let whole = HistoryView {
                exit: exit_record(second).unwrap().code,
                duration: exit_record(second).unwrap().duration,
                ..open_entry(command_record(first).unwrap())
            };
            &&& done.len() > 0
            &&& grown_from(done.last(), whole)
            &&& (forall|i: int|
                0 <= i < middle.len() ==> !is_continuation(#[trigger] middle[i])) ==> done.last()
                == whole
        }),
{
    let one = before.push(first) + middle;
    let two = one.push(second);
    assert(two.drop_last() =~= one);
    lemma_stays_open(before, first, middle);
    lemma_position(read_lines(one).open, command_record(first).unwrap().pid);
}

/// An exit line of a process that has no command open adds no entry and ends no command.
pub proof fn law_exit_without_command(before: Seq<Seq<char>>, line: Seq<char>)
    requires
        exit_record(line) matches Some(r) && forall|i: int|
            0 <= i < read_lines(before).open.len() ==> (#[trigger] read_lines(before).open[i]).pid
                != r.pid,
    ensures
        read_lines(before.push(line)).done == read_lines(before).done,
        read_lines(before.push(line)).open == read_lines(before).open,
{
    assert(before.push(line).drop_last() =~= before);
    lemma_position(read_lines(before).open, exit_record(line).unwrap().pid);
}

/// However far a file has been read, how a command that has not ended will do is not known: the
/// code and the duration of its entry are -1. So it is with a command whose exit line is read
/// as part of another text.
pub proof fn law_open_is_unknown(lines: Seq<Seq<char>>, i: int)
    requires
        0 <= i < read_lines(lines).open.len(),
    ensures
        read_lines(lines).open[i].entry.exit == -1,
        read_lines(lines).open[i].entry.duration == -1,
    decreases lines.len(),
{
    if lines.len() > 0 {
        let front = lines.drop_last();
        let st = read_lines(front);
        let line = lines.last();
        let pid = match exit_record(line) {
            Some(r) => Some(r.pid),
            None => match command_record(line) {
                Some(c) => Some(c.pid),
                None => st.last,
            },
        };
        if let Some(pid) = pid {
            lemma_position(st.open, pid);
        }
        assert forall|j: int| 0 <= j < st.open.len() implies (#[trigger] st.open[j]).entry.exit
            == -1 && st.open[j].entry.duration == -1 by {
            law_open_is_unknown(front, j);
        }
    }
}

/// In a file of one process at most one command is open, however far it has been read.
pub proof fn law_one_process_one_open(lines: Seq<Seq<char>>, pid: u32)
    requires
        forall|i: int|
            0 <= i < lines.len() ==> (command_record(#[trigger] lines[i]) matches Some(c)
                ==> c.pid == pid),
    ensures
        read_lines(lines).open.len() <= 1,
{
    lemma_only_process(lines, pid);
    lemma_one_of_each(lines);
    let open = read_lines(lines).open;
    if open.len() > 1 {
        assert(open[0].pid == open[1].pid);
    }
}

proof fn lemma_only_process(lines: Seq<Seq<char>>, pid: u32)
    requires
        forall|i: int|
            0 <= i < lines.len() ==> (command_record(#[trigger] lines[i]) matches Some(c)
                ==> c.pid == pid),
    ensures
        forall|j: int|
            0 <= j < read_lines(lines).open.len() ==> (#[trigger] read_lines(lines).open[j]).pid
                == pid,
    decreases lines.len(),
{
    if lines.len() > 0 {
        let front = lines.drop_last();
        let st = read_lines(front);
        let line = lines.last();
        assert forall|i: int| 0 <= i < front.len() implies (command_record(
            #[trigger] front[i],
        ) matches Some(c) ==> c.pid == pid) by {
            assert(front[i] == lines[i]);
        }
        lemma_only_process(front, pid);
        assert(command_record(lines[lines.len() - 1]) matches Some(c) ==> c.pid == pid);
        let of = match exit_record(line) {
            Some(r) => Some(r.pid),
            None => match command_record(line) {
                Some(c) => Some(c.pid),
                None => st.last,
            },
        };
        if let Some(p) = of {
            lemma_position(st.open, p);
        }
    }
}

/// The entries of a history file are in the order in which the commands were started.
pub proof fn law_history_chronological(entries: Seq<History>, text: Seq<char>, i: int, j: int)
    requires
        is_history_of(entries, text),
        0 <= i <= j < entries.len(),
    ensures
        entries[i].timestamp.nanos <= entries[j].timestamp.nanos,
{
    lemma_sorted_by_time(views_without_ids(entries), recorded(text), i, j);
    assert(views_without_ids(entries)[i].timestamp == entries[i].timestamp);
    assert(views_without_ids(entries)[j].timestamp == entries[j].timestamp);
}

proof fn lemma_sorted_by_time(out: Seq<HistoryView>, found: Seq<HistoryView>, i: int, j: int)
    requires
        is_stable_sort(out, found, start_times(found)),
        0 <= i <= j < out.len(),
    ensures
        out[i].timestamp.nanos <= out[j].timestamp.nanos,
{
    let keys = start_times(found);
    let order = choose|order: Seq<usize>| #[trigger]
        is_stable_order(keys, order) && out == pick(found, order);
    let a = order[i] as int;
    let b = order[j] as int;
    assert(out[i] == found[a] && out[j] == found[b]);
    if i < j {
        assert(comes_before(keys, a, b));
    }
    assert(keys[a] == found[a].timestamp.nanos);
    assert(keys[b] == found[b].timestamp.nanos);
}

} // verus!

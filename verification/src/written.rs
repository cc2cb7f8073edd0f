//! A history file that is read holds what was written.
use vstd::prelude::*;
use vstd::utf8::encode_utf8;

use crate::bytes::{law_encoded_text_read, text_by_lines};
use crate::clock::timestamp_value;
use crate::history::HistoryView;
use crate::input::{
    command_record, continued, exit_record, is_host_char, open_entries, open_entry, open_position,
    read_lines, recorded, CommandView, OpenCommand, ReadState,
};
use crate::numbers::{decimal, is_digit, lemma_decimal, signed_decimal};
use crate::round_trip::{
    command_line, exit_line, is_continuation, is_trim, law_command_line_read, law_exit_line_read,
};
use crate::text::{is_char, lemma_first_where_is, lines_of};

verus! {

/// A command that was run, as it is written to a history file.
pub struct Written {
    pub hostname: Seq<char>,
    /// The directory, if it is written.
    pub cwd: Option<Seq<char>>,
    pub pid: u32,
    /// When the command was started, in the form of a date and a time.
    pub time: Seq<char>,
    /// The first line of the command.
    pub command: Seq<char>,
    /// The lines of the command after the first.
    pub more: Seq<Seq<char>>,
    pub code: i64,
    /// How long the command took, in milliseconds.
    pub ms: i64,
}

/// Whether a text stays one line when it is written: there is no line feed in it, and no
/// carriage return at its end.
pub open spec fn is_line(s: Seq<char>) -> bool {
    !s.contains('\n') && !(s.len() > 0 && s.last() == '\r')
}

impl Written {
    /// Whether what is written can be told apart again: the host name is one, the directory has
    /// no quotes, the time is one without spaces, the command is something without white space
    /// at either end of its first line, its other lines are not taken for records, and no line
    /// has a line feed in it or a carriage return at its end.
    pub open spec fn wf(self) -> bool {
        &&& self.hostname.len() > 0
        &&& forall|i: int| 0 <= i < self.hostname.len() ==> is_host_char(#[trigger] self.hostname[i])
        &&& self.cwd matches Some(dir) ==> !dir.contains('"') && !dir.contains('\n')
        &&& !self.time.contains(' ') && !self.time.contains('\n')
        &&& timestamp_value(self.time) is Some
        &&& is_trim(self.command) && !self.command.contains('\n')
        &&& forall|i: int|
            0 <= i < self.more.len() ==> is_continuation(#[trigger] self.more[i]) && is_line(
                self.more[i],
            )
    }

    /// The lines that are written.
    pub open spec fn lines(self) -> Seq<Seq<char>> {
        seq![command_line(self.hostname, self.cwd, self.pid, self.time, self.command)] + self.more
            + seq![exit_line(self.hostname, self.pid, self.code, self.ms)]
    }

    /// What the first line records.
    pub open spec fn record(self) -> CommandView {
        CommandView {
            pid: self.pid,
            hostname: self.hostname,
            cwd: match self.cwd {
                Some(dir) => dir,
                None => Seq::empty(),
            },
            timestamp: timestamp_value(self.time).unwrap(),
            command: self.command,
        }
    }

    /// The entry for the command.
    pub open spec fn entry(self) -> HistoryView {
        HistoryView {
            exit: self.code,
            duration: self.ms.wrapping_mul(1_000_000),
            ..with_lines(open_entry(self.record()), self.more)
        }
    }
}

/// An entry with more lines at the end of its command.
pub open spec fn with_lines(v: HistoryView, more: Seq<Seq<char>>) -> HistoryView
    decreases more.len(),
{
    if more.len() == 0 {
        v
    } else {
        continued(with_lines(v, more.drop_last()), more.last())
    }
}

/// The lines of several commands, one after the other.
pub open spec fn all_lines(commands: Seq<Written>) -> Seq<Seq<char>>
    decreases commands.len(),
{
    if commands.len() == 0 {
        Seq::empty()
    } else {
        all_lines(commands.drop_last()) + commands.last().lines()
    }
}

/// Lines as a text, a line feed at the end of each.
pub open spec fn text_of_lines(lines: Seq<Seq<char>>) -> Seq<char>
    decreases lines.len(),
{
    if lines.len() == 0 {
        Seq::empty()
    } else {
        lines[0].push('\n') + text_of_lines(lines.skip(1))
    }
}

/// The entries for several commands.
pub open spec fn entries_of(commands: Seq<Written>) -> Seq<HistoryView> {
    commands.map_values(|w: Written| w.entry())
}

/// A text made of lines has those lines.
pub proof fn law_lines_read(lines: Seq<Seq<char>>)
    requires
        forall|i: int| 0 <= i < lines.len() ==> is_line(#[trigger] lines[i]),
    ensures
        lines_of(text_of_lines(lines)) == lines,
    decreases lines.len(),
{
    if lines.len() > 0 {
        let rest = lines.skip(1);
        assert forall|i: int| 0 <= i < rest.len() implies is_line(#[trigger] rest[i]) by {
            assert(rest[i] == lines[i + 1]);
        }
        law_lines_read(rest);
        let first = lines[0];
        assert(is_line(lines[0]));
        let text = text_of_lines(lines);
        let n = first.len() as int;
        assert forall|j: int| 0 <= j < n implies !is_char('\n')(#[trigger] text[j]) by {
            assert(text[j] == first[j]);
            assert(first.contains(first[j]));
        }
        assert(text[n] == '\n');
        lemma_first_where_is(text, is_char('\n'), n);
        assert(text.take(n) =~= first);
        assert(text.skip(n + 1) =~= text_of_lines(rest));
        assert(seq![first] + rest =~= lines);
    }
}

/// After its first line a command is open, and each further line is added to it.
proof fn lemma_open_grows(before: Seq<Seq<char>>, first: Seq<char>, more: Seq<Seq<char>>)
    requires
        read_lines(before).open.len() == 0,
        exit_record(first) is None,
        command_record(first) is Some,
        forall|i: int| 0 <= i < more.len() ==> is_continuation(#[trigger] more[i]),
    ensures
        ({
            let c = command_record(first).unwrap();
            read_lines(before.push(first) + more) == (ReadState {
                done: read_lines(before).done,
                open: seq![OpenCommand { pid: c.pid, entry: with_lines(open_entry(c), more) }],
                last: Some(c.pid),
            })
        }),
    decreases more.len(),
{
    let c = command_record(first).unwrap();
    let all = before.push(first) + more;
    if more.len() == 0 {
        assert(all =~= before.push(first));
        assert(all.drop_last() =~= before);
        let st = read_lines(before);
        assert(open_position(st.open, c.pid) == 0);
        assert(read_lines(all).open =~= seq![OpenCommand { pid: c.pid, entry: open_entry(c) }]);
    } else {
        let front = more.drop_last();
        assert(all.drop_last() =~= before.push(first) + front);
        assert(all.last() == more.last());
        assert forall|i: int| 0 <= i < front.len() implies is_continuation(#[trigger] front[i]) by {
            assert(front[i] == more[i]);
        }
        lemma_open_grows(before, first, front);
        assert(is_continuation(more[more.len() - 1]));
        let st = read_lines(before.push(first) + front);
        assert(open_position(st.open, c.pid) == 0);
        assert(read_lines(all).open =~= seq![
            OpenCommand { pid: c.pid, entry: with_lines(open_entry(c), more) },
        ]);
    }
}

/// Where no command is open, reading what is written of one adds its entry, and no command is
/// open then.
proof fn lemma_written_read(before: Seq<Seq<char>>, w: Written)
    requires
        w.wf(),
        read_lines(before).open.len() == 0,
    ensures
        read_lines(before + w.lines()) == (ReadState {
            done: read_lines(before).done.push(w.entry()),
            open: Seq::empty(),
            last: None,
        }),
{
    let first = command_line(w.hostname, w.cwd, w.pid, w.time, w.command);
    let last = exit_line(w.hostname, w.pid, w.code, w.ms);
    law_command_line_read(w.hostname, w.cwd, w.pid, w.time, w.command);
    assert(!w.hostname.contains(' ')) by {
        if w.hostname.contains(' ') {
            let i = w.hostname.index_of(' ');
            assert(is_host_char(w.hostname[i]));
        }
    }
    law_exit_line_read(w.hostname, w.pid, w.code, w.ms);
    lemma_open_grows(before, first, w.more);
    let all = before + w.lines();
    assert(all.drop_last() =~= before.push(first) + w.more);
    assert(all.last() == last);
    let st = read_lines(before.push(first) + w.more);
    assert(open_position(st.open, w.pid) == 0);
    assert(st.open.remove(0) =~= Seq::empty());
}

proof fn lemma_all_written_read(commands: Seq<Written>)
    requires
        forall|i: int| 0 <= i < commands.len() ==> (#[trigger] commands[i]).wf(),
    ensures
        read_lines(all_lines(commands)) == (ReadState {
            done: entries_of(commands),
            open: Seq::empty(),
            last: None,
        }),
    decreases commands.len(),
{
    if commands.len() == 0 {
        assert(entries_of(commands) =~= Seq::empty());
    } else {
        let front = commands.drop_last();
        assert forall|i: int| 0 <= i < front.len() implies (#[trigger] front[i]).wf() by {
            assert(front[i] == commands[i]);
        }
        lemma_all_written_read(front);
        assert(commands[commands.len() - 1].wf());
        lemma_written_read(all_lines(front), commands.last());
        assert(entries_of(commands) =~= entries_of(front).push(commands.last().entry()));
    }
}

proof fn lemma_no_line_feed_in_number(n: int)
    ensures
        !signed_decimal(n).contains('\n'),
        signed_decimal(n).len() > 0,
        is_digit(signed_decimal(n).last()),
{
    let m = if n < 0 {
        -n
    } else {
        n
    };
    lemma_decimal(m as nat);
    let s = signed_decimal(n);
    assert(is_digit(decimal(m as nat)[decimal(m as nat).len() - 1]));
    if s.contains('\n') {
        let i = s.index_of('\n');
        if n < 0 {
            assert(s[i] == decimal(m as nat)[i - 1]);
        }
    }
}

proof fn lemma_no_line_feed_in_both(a: Seq<char>, b: Seq<char>)
    requires
        !a.contains('\n'),
        !b.contains('\n'),
    ensures
        !(a + b).contains('\n'),
{
    if (a + b).contains('\n') {
        let i = (a + b).index_of('\n');
        if i < a.len() {
            assert(a[i] == '\n');
        } else {
            assert(b[i - a.len()] == '\n');
        }
    }
}

/// What is written of a command are lines.
proof fn lemma_written_lines(w: Written, i: int)
    requires
        w.wf(),
        0 <= i < w.lines().len(),
    ensures
        is_line(w.lines()[i]),
{
    let host = w.hostname;
    assert(!host.contains('\n')) by {
        if host.contains('\n') {
            assert(is_host_char(host[host.index_of('\n')]));
        }
    }
    let space: Seq<char> = seq![' '];
    let quoted: Seq<char> = seq!['"', ' '];
    let pid = decimal(w.pid as nat);
    lemma_no_line_feed_in_number(w.pid as int);
    if i == 0 {
        let d = space + w.command;
        let c = w.time + d;
        let b = space + c;
        let a = pid + b;
        lemma_no_line_feed_in_both(space, w.command);
        lemma_no_line_feed_in_both(w.time, d);
        lemma_no_line_feed_in_both(space, c);
        lemma_no_line_feed_in_both(pid, b);
        reveal_strlit(":\"");
        match w.cwd {
            Some(dir) => {
                lemma_no_line_feed_in_both(quoted, a);
                lemma_no_line_feed_in_both(dir, quoted + a);
                lemma_no_line_feed_in_both(":\""@, dir + (quoted + a));
                lemma_no_line_feed_in_both(host, ":\""@ + (dir + (quoted + a)));
            },
            None => {
                lemma_no_line_feed_in_both(space, a);
                lemma_no_line_feed_in_both(host, space + a);
            },
        }
        assert(w.lines()[0].last() == w.command.last());
    } else if i < w.lines().len() - 1 {
        assert(w.lines()[i] == w.more[i - 1]);
    } else {
        let ms = signed_decimal(w.ms as int);
        let code = signed_decimal(w.code as int);
        lemma_no_line_feed_in_number(w.ms as int);
        lemma_no_line_feed_in_number(w.code as int);
        reveal_strlit("t_ms=");
        reveal_strlit("$?=");
        reveal_strlit("pid=");
        reveal_strlit("##EXIT## ");
        let g = "t_ms="@ + ms;
        let f = space + g;
        let e = code + f;
        let d = "$?="@ + e;
        let c = space + d;
        let b = pid + c;
        let a = "pid="@ + b;
        lemma_no_line_feed_in_both("t_ms="@, ms);
        lemma_no_line_feed_in_both(space, g);
        lemma_no_line_feed_in_both(code, f);
        lemma_no_line_feed_in_both("$?="@, e);
        lemma_no_line_feed_in_both(space, d);
        lemma_no_line_feed_in_both(pid, c);
        lemma_no_line_feed_in_both("pid="@, b);
        lemma_no_line_feed_in_both(space, a);
        lemma_no_line_feed_in_both(host, space + a);
        lemma_no_line_feed_in_both("##EXIT## "@, host + (space + a));
        let line = w.lines()[i];
        assert(line == exit_line(host, w.pid, w.code, w.ms));
        assert(line.last() == ms.last());
    }
}

proof fn lemma_all_written_lines(commands: Seq<Written>)
    requires
        forall|i: int| 0 <= i < commands.len() ==> (#[trigger] commands[i]).wf(),
    ensures
        forall|i: int|
            0 <= i < all_lines(commands).len() ==> is_line(#[trigger] all_lines(commands)[i]),
    decreases commands.len(),
{
    if commands.len() > 0 {
        let front = commands.drop_last();
        assert forall|i: int| 0 <= i < front.len() implies (#[trigger] front[i]).wf() by {
            assert(front[i] == commands[i]);
        }
        lemma_all_written_lines(front);
        let w = commands[commands.len() - 1];
        assert(w.wf());
        let n = all_lines(front).len();
        assert forall|i: int| 0 <= i < all_lines(commands).len() implies is_line(
            #[trigger] all_lines(commands)[i],
        ) by {
            if i < n {
                assert(all_lines(commands)[i] == all_lines(front)[i]);
            } else {
                assert(all_lines(commands)[i] == w.lines()[i - n]);
                lemma_written_lines(w, i - n);
            }
        }
    }
}

/// A history file that is read holds what was written: of commands written one after the other,
/// each with its exit line, the file records the entries and no others.
pub proof fn law_written_file_read(commands: Seq<Written>)
    requires
        forall|i: int| 0 <= i < commands.len() ==> (#[trigger] commands[i]).wf(),
    ensures
        recorded(text_of_lines(all_lines(commands))) == entries_of(commands),
{
    lemma_all_written_lines(commands);
    law_lines_read(all_lines(commands));
    lemma_all_written_read(commands);
    let end = read_lines(all_lines(commands));
    assert(end.done + open_entries(end.open) =~= end.done);
}

/// A history file that is read holds what was written, told by the bytes of the file.
pub proof fn law_written_bytes_read(commands: Seq<Written>)
    requires
        forall|i: int| 0 <= i < commands.len() ==> (#[trigger] commands[i]).wf(),
    ensures
        recorded(text_by_lines(encode_utf8(text_of_lines(all_lines(commands))))) == entries_of(
            commands,
        ),
{
    law_encoded_text_read(text_of_lines(all_lines(commands)));
    law_written_file_read(commands);
}

} // verus!

//! The full-history file: its lines, and the commands that they record.
//!
//! ```text
//! hostname:"cwd" pid YYYY-MM-DDTHH:MM:SS+ZZZZ command
//! ##EXIT## hostname pid=N $?=N t_ms=N
//! ```
use vstd::prelude::*;
use vstd::slice::slice_subrange;

use crate::clock::{parse_timestamp, timestamp_value, Timestamp};
use crate::history::{pick_entries, History, HistoryId, HistoryView};
use crate::numbers::{decimal, decimal_text, i64_value, parse_i64, parse_u32, u32_value};
use crate::order::{is_stable_sort, pick, stable_order};
use crate::text::{
    chars_of, find_char, first_at, first_where, is_char, lemma_first_where, lemma_first_where_is,
    lines_of, slice_views, split_lines, starts_with, text_of, trim, trim_start, trimmed,
    trimmed_start,
};

verus! {

/// What follows `prefix` in `s`, where `s` begins with it.
pub open spec fn after_prefix(s: Seq<char>, prefix: Seq<char>) -> Option<Seq<char>> {
    if prefix.is_prefix_of(s) {
        Some(s.skip(prefix.len() as int))
    } else {
        None
    }
}

/// What stands before the first space of `s`, and what stands after it.
pub open spec fn first_word(s: Seq<char>) -> Option<(Seq<char>, Seq<char>)> {
    let i = first_at(s, ' ');
    if i < s.len() {
        Some((s.take(i), s.skip(i + 1)))
    } else {
        None
    }
}

/// Whether `c` may stand in a host name.
pub open spec fn is_host_char(c: char) -> bool {
    ||| 'a' <= c <= 'z'
    ||| 'A' <= c <= 'Z'
    ||| '0' <= c <= '9'
    ||| c == '.'
    ||| c == '-'
}

/// Picks out what cannot stand in a host name.
pub open spec fn not_host_char() -> spec_fn(char) -> bool {
    |c: char| !is_host_char(c)
}

/// A process number, the code that it ended its command with, and how long that took in
/// nanoseconds.
pub struct ExitRecord {
    pub pid: u32,
    pub code: i64,
    pub duration: i64,
}

/// What an exit line records: `##EXIT## hostname pid=N $?=N t_ms=N`. The milliseconds are
/// turned into nanoseconds, modulo the range of `i64`.
pub open spec fn exit_record(line: Seq<char>) -> Option<ExitRecord> {
    match after_prefix(line, "##EXIT## "@) {
        None => None,
        Some(a) => match first_word(a) {
            None => None,
            Some((_host, b)) => match after_prefix(b, "pid="@) {
                None => None,
                Some(c) => match first_word(c) {
                    None => None,
                    Some((pid, d)) => match after_prefix(d, "$?="@) {
                        None => None,
                        Some(e) => match first_word(e) {
                            None => None,
                            Some((code, f)) => match after_prefix(f, "t_ms="@) {
                                None => None,
                                Some(ms) => match (
                                    u32_value(pid),
                                    i64_value(code),
                                    i64_value(trimmed(ms)),
                                ) {
                                    (Some(pid), Some(code), Some(ms)) => Some(
                                        ExitRecord {
                                            pid,
                                            code,
                                            duration: ms.wrapping_mul(1_000_000),
                                        },
                                    ),
                                    _ => None,
                                },
                            },
                        },
                    },
                },
            },
        },
    }
}

/// What a command line records.
pub struct CommandView {
    pub pid: u32,
    pub hostname: Seq<char>,
    pub cwd: Seq<char>,
    pub timestamp: Timestamp,
    pub command: Seq<char>,
}

/// The directory named after a host name, as `:"cwd"`, and what follows it; no directory where
/// none is named.
pub open spec fn directory_and_rest(s: Seq<char>) -> Option<(Seq<char>, Seq<char>)> {
    if ":\""@.is_prefix_of(s) {
        let inner = s.skip(2);
        let close = first_at(inner, '"');
        if close < inner.len() {
            Some((inner.take(close), trimmed_start(inner.skip(close + 1))))
        } else {
            None
        }
    } else {
        Some((Seq::empty(), trimmed_start(s)))
    }
}

/// What a command line records: `hostname[:"cwd"] pid timestamp command`.
pub open spec fn command_record(line: Seq<char>) -> Option<CommandView> {
    let end = first_where(line, not_host_char());
    if end == 0 || end >= line.len() {
        None
    } else {
        match directory_and_rest(line.skip(end)) {
            None => None,
            Some((cwd, a)) => match first_word(a) {
                None => None,
                Some((pid, b)) => match first_word(b) {
                    None => None,
                    Some((time, c)) => match (u32_value(pid), timestamp_value(time)) {
                        (Some(pid), Some(timestamp)) => if trimmed(c).len() > 0 {
                            Some(
                                CommandView {
                                    pid,
                                    hostname: line.take(end),
                                    cwd,
                                    timestamp,
                                    command: trimmed(c),
                                },
                            )
                        } else {
                            None
                        },
                        _ => None,
                    },
                },
            },
        }
    }
}

fn strip_prefix<'a>(s: &'a [char], prefix: &str) -> (out: Option<&'a [char]>)
    ensures
        out is Some == after_prefix(s@, prefix@) is Some,
        out matches Some(rest) ==> after_prefix(s@, prefix@) == Some(rest@),
{
    let p = chars_of(prefix);
    if starts_with(s, p.as_slice()) {
        let rest = slice_subrange(s, p.len(), s.len());
        assert(rest@ =~= s@.skip(prefix@.len() as int));
        Some(rest)
    } else {
        None
    }
}

fn split_word<'a>(s: &'a [char]) -> (out: Option<(&'a [char], &'a [char])>)
    ensures
        out is Some == first_word(s@) is Some,
        out matches Some((word, rest)) ==> first_word(s@) == Some((word@, rest@)),
{
    proof {
        lemma_first_where(s@, is_char(' '));
    }
    match find_char(s, ' ') {
        Some(i) => {
            let word = slice_subrange(s, 0, i);
            let n: usize = s.len();
            let rest = slice_subrange(s, i + 1, n);
            assert(word@ =~= s@.take(i as int));
            assert(rest@ =~= s@.skip(i + 1));
            Some((word, rest))
        },
        None => None,
    }
}

/// Reads an exit line.
fn exit_fields(line: &[char]) -> (out: Option<ExitRecord>)
    ensures
        out == exit_record(line@),
{
    let a = match strip_prefix(line, "##EXIT## ") {
        Some(a) => a,
        None => return None,
    };
    let b = match split_word(a) {
        Some((_host, b)) => b,
        None => return None,
    };
    let c = match strip_prefix(b, "pid=") {
        Some(c) => c,
        None => return None,
    };
    let (pid, d) = match split_word(c) {
        Some(x) => x,
        None => return None,
    };
    let e = match strip_prefix(d, "$?=") {
        Some(e) => e,
        None => return None,
    };
    let (code, f) = match split_word(e) {
        Some(x) => x,
        None => return None,
    };
    let ms = match strip_prefix(f, "t_ms=") {
        Some(ms) => ms,
        None => return None,
    };
    match (parse_u32(pid), parse_i64(code), parse_i64(trim(ms))) {
        (Some(pid), Some(code), Some(ms)) => Some(
            ExitRecord { pid, code, duration: ms.wrapping_mul(1_000_000) },
        ),
        _ => None,
    }
}

/// Reads an exit line: `##EXIT## hostname pid=N $?=N t_ms=N`. Gives the process number, the
/// exit code and the duration in nanoseconds.
pub fn parse_exit_line(line: &str) -> (out: Option<(u32, i64, i64)>)
    ensures
        out == (match exit_record(line@) {
            Some(r) => Some((r.pid, r.code, r.duration)),
            None => None,
        }),
{
    let chars = chars_of(line);
    match exit_fields(chars.as_slice()) {
        Some(r) => Some((r.pid, r.code, r.duration)),
        None => None,
    }
}

/// What a command line records, as strings.
pub struct CommandRecord {
    pub pid: u32,
    pub hostname: String,
    pub cwd: String,
    pub timestamp: Timestamp,
    pub command: String,
}

impl View for CommandRecord {
    type V = CommandView;

    open spec fn view(&self) -> CommandView {
        CommandView {
            pid: self.pid,
            hostname: self.hostname@,
            cwd: self.cwd@,
            timestamp: self.timestamp,
            command: self.command@,
        }
    }
}

/// The directory after a host name, and what follows it.
fn split_directory<'a>(s: &'a [char]) -> (out: Option<(&'a [char], &'a [char])>)
    ensures
        out is Some == directory_and_rest(s@) is Some,
        out matches Some((cwd, rest)) ==> directory_and_rest(s@) == Some((cwd@, rest@)),
{
    proof {
        reveal_strlit(":\"");
    }
    match strip_prefix(s, ":\"") {
        Some(inner) => {
            proof {
                lemma_first_where(inner@, is_char('"'));
                assert(inner@ == s@.skip(2));
            }
            match find_char(inner, '"') {
                Some(i) => {
                    let cwd = slice_subrange(inner, 0, i);
                    let n: usize = inner.len();
                    let tail = slice_subrange(inner, i + 1, n);
                    assert(cwd@ =~= inner@.take(i as int));
                    assert(tail@ =~= inner@.skip(i + 1));
                    Some((cwd, trim_start(tail)))
                },
                None => None,
            }
        },
        None => {
            let cwd = slice_subrange(s, 0, 0);
            assert(cwd@ =~= Seq::<char>::empty());
            Some((cwd, trim_start(s)))
        },
    }
}

/// Reads a command line.
pub fn command_fields(line: &[char]) -> (out: Option<CommandRecord>)
    ensures
        out is Some == command_record(line@) is Some,
        out matches Some(r) ==> command_record(line@) == Some(r@) && r.timestamp.wf(),
{
    let mut end: usize = 0;
    while end < line.len() && host_char(line[end])
        invariant
            end <= line.len(),
            forall|j: int| 0 <= j < end ==> is_host_char(#[trigger] line@[j]),
        decreases line.len() - end,
    {
        end = end + 1;
    }
    proof {
        lemma_first_where_is(line@, not_host_char(), end as int);
    }
    if end == 0 || end >= line.len() {
        return None;
    }
    let host = slice_subrange(line, 0, end);
    let after = slice_subrange(line, end, line.len());
    assert(host@ =~= line@.take(end as int));
    assert(after@ =~= line@.skip(end as int));
    let (cwd, a) = match split_directory(after) {
        Some(x) => x,
        None => return None,
    };
    let (pid, b) = match split_word(a) {
        Some(x) => x,
        None => return None,
    };
    let (time, c) = match split_word(b) {
        Some(x) => x,
        None => return None,
    };
    let command = trim(c);
    let when = text_of(time);
    match (parse_u32(pid), parse_timestamp(when.as_str())) {
        (Some(pid), Some(timestamp)) => {
            if command.len() == 0 {
                return None;
            }
            Some(
                CommandRecord {
                    pid,
                    hostname: text_of(host),
                    cwd: text_of(cwd),
                    timestamp,
                    command: text_of(command),
                },
            )
        },
        _ => None,
    }
}

fn host_char(c: char) -> (b: bool)
    ensures
        b == is_host_char(c),
{
    ('a' <= c && c <= 'z') || ('A' <= c && c <= 'Z') || ('0' <= c && c <= '9') || c == '.' || c
        == '-'
}

/// The entry for a command that has not ended, with the id left open.
pub open spec fn open_entry(c: CommandView) -> HistoryView {
    HistoryView {
        id: Seq::empty(),
        timestamp: c.timestamp,
        duration: -1i64,
        exit: -1i64,
        command: c.command,
        cwd: c.cwd,
        session: decimal(c.pid as nat),
        hostname: c.hostname,
        author: Seq::empty(),
        intent: None,
        deleted_at: None,
    }
}

/// An entry with the id `id` in place of its own.
pub open spec fn with_id(v: HistoryView, id: Seq<char>) -> HistoryView {
    HistoryView { id, ..v }
}

/// An entry with its id left open.
pub open spec fn without_id(v: HistoryView) -> HistoryView {
    with_id(v, Seq::empty())
}

impl CommandRecord {
    /// The entry for this command, under the id `id`.
    pub fn into_history(self, id: String) -> (h: History)
        ensures
            h@ == with_id(open_entry(self@), id@),
            h.id.0 == id,
    {
        History {
            id: HistoryId(id),
            timestamp: self.timestamp,
            duration: -1i64,
            exit: -1i64,
            command: self.command,
            cwd: self.cwd,
            session: decimal_text(self.pid as u64),
            hostname: self.hostname,
            author: String::new(),
            intent: None,
            deleted_at: None,
        }
    }
}

/// Whether `id` is thirty-two lower-case hexadecimal digits, with a 4 for the version.
pub open spec fn is_fresh_id(id: Seq<char>) -> bool {
    &&& id.len() == 32
    &&& forall|i: int|
        0 <= i < 32 ==> ('0' <= #[trigger] id[i] <= '9' || 'a' <= id[i] <= 'f')
    &&& id[12] == '4'
}

/// `uuid::Uuid::new_v4`, written by `simple`: a random id. Which one is left to chance; it has
/// the form of a version 4 UUID without hyphens.
#[verifier::external_body]
pub(crate) fn fresh_id() -> (id: String)
    ensures
        is_fresh_id(id@),
{
    uuid::Uuid::new_v4().simple().to_string()
}

/// Whether an id was drawn by chance: a call of `fresh_id` gave it.
pub closed spec fn was_drawn(id: String) -> bool {
    call_ensures(fresh_id, (), id)
}

/// Reads a command line: `hostname[:"cwd"] pid timestamp command`. Gives the process number
/// and an entry for the command, under a new id.
pub fn parse_command_line(line: &str) -> (out: Option<(u32, History)>)
    ensures
        out is Some == command_record(line@) is Some,
        out matches Some((pid, h)) ==> {
            &&& command_record(line@) matches Some(c) && pid == c.pid && without_id(h@)
                == open_entry(c)
            &&& is_fresh_id(h@.id)
            &&& was_drawn(h.id.0)
            &&& h.timestamp.wf()
        },
{
    let chars = chars_of(line);
    match command_fields(chars.as_slice()) {
        Some(c) => {
            let pid = c.pid;
            let id = fresh_id();
            assert(was_drawn(id));
            Some((pid, c.into_history(id)))
        },
        None => None,
    }
}

/// A command that has been started and has not ended, as its entry stands so far.
pub struct OpenCommand {
    pub pid: u32,
    pub entry: HistoryView,
}

/// What has been read of a history file so far.
#[verifier::ext_equal]
pub struct ReadState {
    /// Entries that no later line changes.
    pub done: Seq<HistoryView>,
    /// Commands that an exit line may still close, in the order in which they were started. No
    /// two are of one process.
    pub open: Seq<OpenCommand>,
    /// The process whose command the next line may continue.
    pub last: Option<u32>,
}

/// Where the command of process `pid` stands among `open`, or `open.len()`.
pub open spec fn open_position(open: Seq<OpenCommand>, pid: u32) -> int
    decreases open.len(),
{
    if open.len() == 0 || open[0].pid == pid {
        0
    } else {
        1 + open_position(open.skip(1), pid)
    }
}

impl ReadState {
    /// The command of process `pid`, if one is open, no longer open, and done as `entry` has it.
    pub open spec fn close(self, pid: u32, entry: spec_fn(HistoryView) -> HistoryView) -> ReadState {
        let i = open_position(self.open, pid);
        if i < self.open.len() {
            ReadState {
                done: self.done.push(entry(self.open[i].entry)),
                open: self.open.remove(i),
                last: self.last,
            }
        } else {
            self
        }
    }

    /// One line further. An exit line closes the command of its process; a command line
    /// opens one, and closes the one that the process had open before; any other line
    /// continues the command that was opened last, unless that has ended.
    pub open spec fn step(self, line: Seq<char>) -> ReadState {
        match exit_record(line) {
            Some(r) => ReadState {
                last: if self.last == Some(r.pid) {
                    None
                } else {
                    self.last
                },
                ..self.close(r.pid, ended(r.code, r.duration))
            },
            None => match command_record(line) {
                Some(c) => {
                    let flushed = self.close(c.pid, unchanged());
                    ReadState {
                        open: flushed.open.push(OpenCommand { pid: c.pid, entry: open_entry(c) }),
                        last: Some(c.pid),
                        ..flushed
                    }
                },
                None => match self.last {
                    Some(pid) => {
                        let i = open_position(self.open, pid);
                        if i < self.open.len() {
                            ReadState {
                                open: self.open.update(
                                    i,
                                    OpenCommand { pid, entry: continued(self.open[i].entry, line) },
                                ),
                                ..self
                            }
                        } else {
                            self
                        }
                    },
                    None => self,
                },
            },
        }
    }
}

/// The entry of a command that ended with `code` after `duration` nanoseconds.
pub open spec fn ended(code: i64, duration: i64) -> spec_fn(HistoryView) -> HistoryView {
    |v: HistoryView| HistoryView { exit: code, duration, ..v }
}

/// The entry as it is.
pub open spec fn unchanged() -> spec_fn(HistoryView) -> HistoryView {
    |v: HistoryView| v
}

/// The entry of a command with one more line.
pub open spec fn continued(v: HistoryView, line: Seq<char>) -> HistoryView {
    HistoryView { command: v.command.push('\n') + line, ..v }
}

/// What has been read once all of `lines` have.
pub open spec fn read_lines(lines: Seq<Seq<char>>) -> ReadState
    decreases lines.len(),
{
    if lines.len() == 0 {
        ReadState { done: Seq::empty(), open: Seq::empty(), last: None }
    } else {
        read_lines(lines.drop_last()).step(lines.last())
    }
}

/// The entries of commands that are open.
pub open spec fn open_entries(open: Seq<OpenCommand>) -> Seq<HistoryView> {
    open.map_values(|o: OpenCommand| o.entry)
}

/// The entries that a text records, ids left open: those of commands that ended, in the order
/// in which they did, and then those of commands that did not.
pub open spec fn recorded(text: Seq<char>) -> Seq<HistoryView> {
    let end = read_lines(lines_of(text));
    end.done + open_entries(end.open)
}

/// When each entry was started.
pub open spec fn start_times(s: Seq<HistoryView>) -> Seq<i128> {
    s.map_values(|v: HistoryView| v.timestamp.nanos)
}

/// What each entry says, its id left open.
pub open spec fn views_without_ids(s: Seq<History>) -> Seq<HistoryView> {
    s.map_values(|h: History| without_id(h@))
}

/// Whether `entries` are those that `text` records, earliest first, each under a new id.
pub open spec fn is_history_of(entries: Seq<History>, text: Seq<char>) -> bool {
    &&& is_stable_sort(views_without_ids(entries), recorded(text), start_times(recorded(text)))
    &&& all_fresh(entries)
}

/// Whether every entry has a new id and a time that the calendar holds.
pub open spec fn all_fresh(entries: Seq<History>) -> bool {
    forall|i: int|
        0 <= i < entries.len() ==> is_fresh_id((#[trigger] entries[i])@.id)
            && entries[i].timestamp.wf()
}

/// Whether the id of every entry was drawn by chance.
pub open spec fn all_drawn(entries: Seq<History>) -> bool {
    forall|i: int| 0 <= i < entries.len() ==> was_drawn((#[trigger] entries[i]).id.0)
}

/// Where the command of a process stands among the open ones.
proof fn lemma_open_position(open: Seq<OpenCommand>, pid: u32, i: int)
    requires
        0 <= i <= open.len(),
        forall|j: int| 0 <= j < i ==> (#[trigger] open[j]).pid != pid,
        i < open.len() ==> open[i].pid == pid,
    ensures
        open_position(open, pid) == i,
    decreases open.len(),
{
    if i > 0 {
        assert(open[0].pid != pid);
        assert forall|j: int| 0 <= j < i - 1 implies (#[trigger] open.skip(1)[j]).pid != pid by {
            assert(open[j + 1].pid != pid);
        }
        lemma_open_position(open.skip(1), pid, i - 1);
    }
}

/// Entries of commands that have been started, each under its process.
struct Reading {
    done: Vec<History>,
    pids: Vec<u32>,
    open: Vec<History>,
    last: Option<u32>,
}

/// Open commands as a pair of lists has them.
spec fn open_commands(pids: Seq<u32>, entries: Seq<History>) -> Seq<OpenCommand> {
    Seq::new(
        pids.len(),
        |i: int| OpenCommand { pid: pids[i], entry: without_id(entries[i]@) },
    )
}

impl Reading {
    spec fn state(self) -> ReadState {
        ReadState {
            done: views_without_ids(self.done@),
            open: open_commands(self.pids@, self.open@),
            last: self.last,
        }
    }

    spec fn wf(self) -> bool {
        &&& self.pids.len() == self.open.len()
        &&& all_fresh(self.done@)
        &&& all_fresh(self.open@)
        &&& all_drawn(self.done@)
        &&& all_drawn(self.open@)
    }

    fn position(&self, pid: u32) -> (at: usize)
        requires
            self.wf(),
        ensures
            at == open_position(self.state().open, pid),
            at <= self.pids.len(),
            at < self.pids.len() ==> self.pids@[at as int] == pid,
    {
        let mut i: usize = 0;
        while i < self.pids.len() && self.pids[i] != pid
            invariant
                i <= self.pids.len(),
                forall|j: int| 0 <= j < i ==> #[trigger] self.pids@[j] != pid,
            decreases self.pids.len() - i,
        {
            i = i + 1;
        }
        proof {
            lemma_open_position(self.state().open, pid, i as int);
        }
        i
    }

    fn end(&mut self, r: ExitRecord)
        requires
            old(self).wf(),
        ensures
            final(self).wf(),
            final(self).state() == (ReadState {
                last: if old(self).last == Some(r.pid) {
                    None
                } else {
                    old(self).last
                },
                ..old(self).state().close(r.pid, ended(r.code, r.duration))
            }),
    {
        let i: usize = self.position(r.pid);
        if let Some(pid) = self.last {
            if pid == r.pid {
                self.last = None;
            }
        }
        if i < self.pids.len() {
            let ghost before = *old(self);
            self.pids.remove(i);
            let mut h = self.open.remove(i);
            h.exit = r.code;
            h.duration = r.duration;
            self.done.push(h);
            assert(self.state().open =~= before.state().open.remove(i as int));
            assert(self.state().done =~= before.state().done.push(
                ended(r.code, r.duration)(before.state().open[i as int].entry),
            ));
        }
    }

    fn carry_on(&mut self, line: &[char])
        requires
            old(self).wf(),
            exit_record(line@) is None,
            command_record(line@) is None,
        ensures
            final(self).wf(),
            final(self).state() == old(self).state().step(line@),
    {
        if let Some(pid) = self.last {
            let i: usize = self.position(pid);
            if i < self.pids.len() {
                let ghost before = *old(self);
                let mut h = self.open.remove(i);
                h.command.push('\n');
                push_chars(&mut h.command, line);
                self.open.insert(i, h);
                assert(self.state().open =~= before.state().open.update(
                    i as int,
                    OpenCommand {
                        pid,
                        entry: continued(before.state().open[i as int].entry, line@),
                    },
                ));
            }
        }
    }

    fn start(&mut self, pid: u32, h: History)
        requires
            old(self).wf(),
            is_fresh_id(h@.id),
            was_drawn(h.id.0),
            h.timestamp.wf(),
        ensures
            final(self).wf(),
            final(self).state() == (ReadState {
                open: old(self).state().close(pid, unchanged()).open.push(
                    OpenCommand { pid, entry: without_id(h@) },
                ),
                last: Some(pid),
                ..old(self).state().close(pid, unchanged())
            }),
    {
        let i: usize = self.position(pid);
        let ghost before = *old(self);
        if i < self.pids.len() {
            self.pids.remove(i);
            let old_entry = self.open.remove(i);
            self.done.push(old_entry);
            assert(self.state().open =~= before.state().open.remove(i as int));
            assert(self.state().done =~= before.state().done.push(
                before.state().open[i as int].entry,
            ));
        }
        let ghost flushed = *self;
        assert(flushed.state() == before.state().close(pid, unchanged()));
        self.pids.push(pid);
        self.open.push(h);
        self.last = Some(pid);
        assert(self.state().open =~= flushed.state().open.push(
            OpenCommand { pid, entry: without_id(h@) },
        ));
    }
}

/// Reads a history file into its entries, earliest first. An exit line belongs to the command
/// line before it of the same process.
pub fn parse_fullhistory(content: &str) -> (entries: Vec<History>)
    ensures
        is_history_of(entries@, content@),
        all_drawn(entries@),
{
    let chars = chars_of(content);
    let lines = split_lines(chars.as_slice());
    let ghost all = lines_of(content@);
    let mut reading = Reading {
        done: Vec::new(),
        pids: Vec::new(),
        open: Vec::new(),
        last: None,
    };
    assert(reading.state() =~= read_lines(all.take(0)));
    let mut i: usize = 0;
    while i < lines.len()
        invariant
            i <= lines.len(),
            slice_views(lines@) == all,
            reading.wf(),
            reading.state() == read_lines(all.take(i as int)),
        decreases lines.len() - i,
    {
        let line: &[char] = lines[i];
        assert(line@ == all[i as int]);
        assert(all.take(i + 1).drop_last() =~= all.take(i as int));
        assert(all.take(i + 1).last() == line@);
        match exit_fields(line) {
            Some(r) => {
                reading.end(r);
            },
            None => match command_fields(line) {
                Some(c) => {
                    let pid = c.pid;
                    let id = fresh_id();
                    assert(was_drawn(id));
                    let h = c.into_history(id);
                    assert(without_id(h@) == open_entry(c@));
                    reading.start(pid, h);
                },
                None => {
                    reading.carry_on(line);
                },
            },
        }
        i = i + 1;
    }
    assert(all.take(i as int) =~= all);
    let mut entries = reading.done;
    let mut open = reading.open;
    let ghost pids = reading.pids@;
    entries.append(&mut open);
    let ghost found = recorded(content@);
    assert(views_without_ids(entries@) =~= found);
    let mut keys: Vec<i128> = Vec::with_capacity(entries.len());
    let mut k: usize = 0;
    while k < entries.len()
        invariant
            k <= entries.len(),
            keys.len() == k,
            forall|j: int| 0 <= j < k ==> #[trigger] keys@[j] == entries@[j].timestamp.nanos,
        decreases entries.len() - k,
    {
        keys.push(entries[k].timestamp.nanos);
        k = k + 1;
    }
    assert(keys@ =~= start_times(found));
    let order = stable_order(&keys);
    let sorted = pick_entries(&entries, &order);
    assert(views_without_ids(sorted@) =~= pick(found, order@));
    sorted
}

/// Appends characters to a string.
fn push_chars(s: &mut String, chars: &[char])
    ensures
        final(s)@ == old(s)@ + chars@,
{
    let mut i: usize = 0;
    assert(s@ =~= old(s)@ + chars@.take(0));
    while i < chars.len()
        invariant
            i <= chars.len(),
            s@ == old(s)@ + chars@.take(i as int),
        decreases chars.len() - i,
    {
        s.push(chars[i]);
        i = i + 1;
        assert(s@ =~= old(s)@ + chars@.take(i as int));
    }
    assert(chars@.take(i as int) =~= chars@);
}

} // verus!

//! Which lines of a history file are records, and what they say, whatever white space they have.
use vstd::prelude::*;

use crate::clock::{iso8601, Timestamp};
use crate::input::{
    command_record, directory_and_rest, exit_record, first_word, is_host_char, not_host_char,
    CommandView, ExitRecord,
};
use crate::numbers::{i64_value, u32_value};
use crate::text::{
    first_at, is_char, lemma_first_where, lemma_first_where_is, not_white_space, trimmed,
    trimmed_end, trimmed_start, white_space,
};

verus! {

/// Whether a text is nothing but white space.
pub open spec fn is_blank(s: Seq<char>) -> bool {
    forall|i: int| 0 <= i < s.len() ==> white_space(#[trigger] s[i])
}

/// Whether a text has no space in it.
pub open spec fn is_one_word(s: Seq<char>) -> bool {
    forall|i: int| 0 <= i < s.len() ==> #[trigger] s[i] != ' '
}

/// The parts of a command line.
pub struct CommandParts {
    pub hostname: Seq<char>,
    /// The directory between quotes, if there is one.
    pub cwd: Option<Seq<char>>,
    pub gap: Seq<char>,
    pub pid: Seq<char>,
    pub time: Seq<char>,
    pub lead: Seq<char>,
    pub command: Seq<char>,
    pub trail: Seq<char>,
}

impl CommandParts {
    /// The parts put together: the host, the directory in quotes behind a colon, white space, the
    /// process, a space, the time, a space, and the command with white space around it.
    pub open spec fn line(self) -> Seq<char> {
        let quoted = match self.cwd {
            Some(dir) => seq![':', '"'] + dir + seq!['"'],
            None => Seq::empty(),
        };
        self.hostname + (quoted + (self.gap + (self.pid + (seq![' '] + (self.time + (seq![' '] + (
        self.lead + (self.command + self.trail))))))))
    }

    /// Whether the parts are what they are said to be.
    pub open spec fn wf(self) -> bool {
        &&& self.hostname.len() > 0
        &&& forall|i: int| 0 <= i < self.hostname.len() ==> is_host_char(#[trigger] self.hostname[i])
        &&& self.cwd matches Some(dir) ==> forall|i: int|
            0 <= i < dir.len() ==> #[trigger] dir[i] != '"'
        &&& self.cwd is None && self.gap.len() == 0 ==> self.pid[0] == '+'
        &&& is_blank(self.gap)
        &&& is_one_word(self.pid) && u32_value(self.pid) is Some
        &&& is_one_word(self.time) && iso8601(self.time) is Some
        &&& is_blank(self.lead) && is_blank(self.trail)
        &&& self.command.len() > 0 && !white_space(self.command[0]) && !white_space(
            self.command.last(),
        )
    }
}

/// What the parts of a command line say.
pub open spec fn said_by(parts: CommandParts) -> CommandView {
    CommandView {
        pid: u32_value(parts.pid).unwrap(),
        hostname: parts.hostname,
        cwd: match parts.cwd {
            Some(dir) => dir,
            None => Seq::empty(),
        },
        timestamp: Timestamp {
            nanos: iso8601(parts.time).unwrap().0,
            offset: iso8601(parts.time).unwrap().1,
        },
        command: parts.command,
    }
}

proof fn lemma_trimmed_end(s: Seq<char>, trail: Seq<char>)
    requires
        s.len() > 0 ==> !white_space(s.last()),
        is_blank(trail),
    ensures
        trimmed_end(s + trail) == s,
    decreases trail.len(),
{
    let all = s + trail;
    if trail.len() == 0 {
        assert(all =~= s);
    } else {
        assert(all.last() == trail[trail.len() - 1]);
        assert(all.drop_last() =~= s + trail.drop_last());
        lemma_trimmed_end(s, trail.drop_last());
    }
}

/// A text without the white space around it.
pub proof fn law_trimmed(lead: Seq<char>, s: Seq<char>, trail: Seq<char>)
    requires
        is_blank(lead),
        is_blank(trail),
        s.len() > 0 ==> !white_space(s[0]) && !white_space(s.last()),
    ensures
        trimmed(lead + (s + trail)) == s,
        s.len() > 0 ==> trimmed_start(lead + (s + trail)) == s + trail,
{
    let all = lead + (s + trail);
    if s.len() > 0 {
        let n = lead.len() as int;
        assert forall|j: int| 0 <= j < n implies !not_white_space()(#[trigger] all[j]) by {
            assert(all[j] == lead[j]);
        }
        assert(all[n] == s[0]);
        lemma_first_where_is(all, not_white_space(), n);
        assert(all.skip(n) =~= s + trail);
        lemma_trimmed_end(s, trail);
    } else {
        assert forall|j: int| 0 <= j < all.len() implies !not_white_space()(#[trigger] all[j]) by {
            if j < lead.len() {
                assert(all[j] == lead[j]);
            } else {
                assert(all[j] == trail[j - lead.len()]);
            }
        }
        lemma_first_where_is(all, not_white_space(), all.len() as int);
        assert(all.skip(all.len() as int) =~= Seq::empty());
        assert(s =~= Seq::empty());
    }
}

proof fn lemma_word(word: Seq<char>, rest: Seq<char>)
    requires
        is_one_word(word),
    ensures
        first_word(word + (seq![' '] + rest)) == Some((word, rest)),
{
    let s = word + (seq![' '] + rest);
    let n = word.len() as int;
    assert forall|j: int| 0 <= j < n implies !is_char(' ')(#[trigger] s[j]) by {
        assert(s[j] == word[j]);
    }
    assert(s[n] == ' ');
    lemma_first_where_is(s, is_char(' '), n);
    assert(s.take(n) =~= word);
    assert(s.skip(n + 1) =~= rest);
}

proof fn lemma_number_starts(s: Seq<char>)
    requires
        u32_value(s) is Some,
    ensures
        s.len() > 0,
        !white_space(s[0]),
{
    let body = crate::numbers::without_sign(s, '+');
    assert(crate::numbers::is_digit(body[0]));
}

/// What stands behind the host where no directory is named cannot be taken for part of either.
proof fn lemma_before_process(gap: Seq<char>, pid: Seq<char>, a: Seq<char>)
    requires
        is_blank(gap),
        gap.len() == 0 ==> pid[0] == '+',
        a.len() > 0,
        a[0] == pid[0],
    ensures
        !is_host_char((gap + a)[0]),
        (gap + a)[0] != ':',
{
    if gap.len() > 0 {
        assert((gap + a)[0] == gap[0]);
        assert(white_space(gap[0]));
    } else {
        assert((gap + a)[0] == a[0]);
    }
}

/// A line that is made of the parts of a command line is read as what they say.
pub proof fn law_command_parts_read(parts: CommandParts)
    requires
        parts.wf(),
    ensures
        command_record(parts.line()) == Some(said_by(parts)),
        exit_record(parts.line()) is None,
{
    let tail = parts.lead + (parts.command + parts.trail);
    let b = parts.time + (seq![' '] + tail);
    let a = parts.pid + (seq![' '] + b);
    let spaced = parts.gap + a;
    let quoted = match parts.cwd {
        Some(dir) => seq![':', '"'] + dir + seq!['"'],
        None => Seq::empty(),
    };
    let after = quoted + spaced;
    let line = parts.line();
    let host = parts.hostname;
    let n = host.len() as int;
    assert(line == host + after);
    lemma_number_starts(parts.pid);
    reveal_strlit(":\"");
    assert(":\""@ =~= seq![':', '"']);
    assert forall|j: int| 0 <= j < n implies !not_host_char()(#[trigger] line[j]) by {
        assert(line[j] == host[j]);
    }
    assert(not_host_char()(line[n])) by {
        assert(line[n] == after[0]);
        match parts.cwd {
            Some(dir) => {
                assert(after[0] == ':');
            },
            None => {
                lemma_before_process(parts.gap, parts.pid, a);
                assert(after =~= spaced);
            },
        }
    }
    lemma_first_where_is(line, not_host_char(), n);
    assert(line.take(n) =~= host);
    assert(line.skip(n) =~= after);
    assert(a[0] == parts.pid[0]);
    let none = Seq::<char>::empty();
    assert(trimmed_start(spaced) == a) by {
        let k = parts.gap.len() as int;
        assert forall|j: int| 0 <= j < k implies !not_white_space()(#[trigger] spaced[j]) by {
            assert(spaced[j] == parts.gap[j]);
        }
        assert(spaced[k] == a[0]);
        lemma_first_where_is(spaced, not_white_space(), k);
        assert(spaced.skip(k) =~= a);
    }
    match parts.cwd {
        Some(dir) => {
            assert(after.subrange(0, 2) =~= ":\""@);
            let inner = after.skip(2);
            assert(inner =~= dir + (seq!['"'] + spaced));
            let m = dir.len() as int;
            assert forall|j: int| 0 <= j < m implies !is_char('"')(#[trigger] inner[j]) by {
                assert(inner[j] == dir[j]);
            }
            assert(inner[m] == '"');
            lemma_first_where_is(inner, is_char('"'), m);
            assert(inner.take(m) =~= dir);
            assert(inner.skip(m + 1) =~= spaced);
        },
        None => {
            assert(after =~= spaced);
            lemma_before_process(parts.gap, parts.pid, a);
            if ":\""@.is_prefix_of(after) {
                assert(after.subrange(0, 2)[0] == after[0]);
            }
        },
    }
    lemma_word(parts.pid, b);
    lemma_word(parts.time, tail);
    law_trimmed(parts.lead, parts.command, parts.trail);
    reveal_strlit("##EXIT## ");
    assert("##EXIT## "@[0] == '#');
    assert(line[0] == host[0]);
    assert(is_host_char(host[0]));
    if "##EXIT## "@.is_prefix_of(line) {
        assert(line.subrange(0, 9)[0] == line[0]);
    }
}

proof fn lemma_split_word(s: Seq<char>)
    requires
        first_word(s) is Some,
    ensures
        s == first_word(s).unwrap().0 + (seq![' '] + first_word(s).unwrap().1),
        is_one_word(first_word(s).unwrap().0),
{
    lemma_first_where(s, is_char(' '));
    let i = first_at(s, ' ');
    let word = s.take(i);
    assert forall|j: int| 0 <= j < word.len() implies #[trigger] word[j] != ' ' by {
        assert(!is_char(' ')(s[j]));
    }
    assert(s =~= word + (seq![' '] + s.skip(i + 1)));
}

proof fn lemma_untrimmed(s: Seq<char>) -> (around: (Seq<char>, Seq<char>))
    ensures
        is_blank(around.0),
        is_blank(around.1),
        s == around.0 + (trimmed(s) + around.1),
        trimmed(s).len() > 0 ==> !white_space(trimmed(s)[0]) && !white_space(trimmed(s).last()),
{
    lemma_first_where(s, not_white_space());
    let i = crate::text::first_where(s, not_white_space());
    let lead = s.take(i);
    assert forall|j: int| 0 <= j < lead.len() implies white_space(#[trigger] lead[j]) by {
        assert(!not_white_space()(s[j]));
    }
    let rest = s.skip(i);
    let trail = lemma_untrimmed_end(rest);
    assert(s =~= lead + rest);
    let t = trimmed(s);
    if t.len() > 0 {
        assert(t[0] == rest[0]);
        assert(rest[0] == s[i]);
    }
    (lead, trail)
}

proof fn lemma_untrimmed_end(s: Seq<char>) -> (trail: Seq<char>)
    ensures
        is_blank(trail),
        s == trimmed_end(s) + trail,
        trimmed_end(s).len() > 0 ==> !white_space(trimmed_end(s).last()),
    decreases s.len(),
{
    if s.len() > 0 && white_space(s.last()) {
        let front = lemma_untrimmed_end(s.drop_last());
        let trail = front.push(s.last());
        assert(s =~= s.drop_last().push(s.last()));
        assert(s.drop_last() == trimmed_end(s) + front);
        assert(s =~= trimmed_end(s) + trail);
        trail
    } else {
        assert(s =~= s + Seq::empty());
        Seq::empty()
    }
}

/// A line is a command line only if it is made of the parts of one, and says what they say.
pub proof fn law_command_line_has_parts(line: Seq<char>) -> (parts: CommandParts)
    requires
        command_record(line) is Some,
    ensures
        parts.wf(),
        parts.line() == line,
        command_record(line) == Some(said_by(parts)),
{
    let end = crate::text::first_where(line, not_host_char());
    lemma_first_where(line, not_host_char());
    let host = line.take(end);
    let after = line.skip(end);
    reveal_strlit(":\"");
    assert(":\""@ =~= seq![':', '"']);
    let (dir, a) = directory_and_rest(after).unwrap();
    let (pid, b) = first_word(a).unwrap();
    let (time, c) = first_word(b).unwrap();
    lemma_split_word(a);
    lemma_split_word(b);
    let around = lemma_untrimmed(c);
    let named = ":\""@.is_prefix_of(after);
    let spaced = if named {
        let inner = after.skip(2);
        inner.skip(first_at(inner, '"') + 1)
    } else {
        after
    };
    lemma_first_where(spaced, not_white_space());
    let k = crate::text::first_where(spaced, not_white_space());
    let gap = spaced.take(k);
    assert(spaced =~= gap + a);
    assert forall|j: int| 0 <= j < gap.len() implies white_space(#[trigger] gap[j]) by {
        assert(!not_white_space()(spaced[j]));
    }
    let cwd = if named {
        Some(dir)
    } else {
        None
    };
    let parts = CommandParts {
        hostname: host,
        cwd,
        gap,
        pid,
        time,
        lead: around.0,
        command: trimmed(c),
        trail: around.1,
    };
    assert forall|j: int| 0 <= j < host.len() implies is_host_char(#[trigger] host[j]) by {
        assert(!not_host_char()(line[j]));
    }
    lemma_number_starts(pid);
    let quoted = match cwd {
        Some(dir) => seq![':', '"'] + dir + seq!['"'],
        None => Seq::empty(),
    };
    if named {
        let inner = after.skip(2);
        lemma_first_where(inner, is_char('"'));
        let m = first_at(inner, '"');
        assert forall|j: int| 0 <= j < dir.len() implies #[trigger] dir[j] != '"' by {
            assert(!is_char('"')(inner[j]));
        }
        assert(inner =~= dir + (seq!['"'] + spaced));
        assert(after.subrange(0, 2) =~= seq![':', '"']);
        assert(after =~= quoted + spaced);
    } else {
        assert(after =~= quoted + spaced);
        if gap.len() == 0 {
            assert(a =~= spaced);
            assert(after[0] == pid[0]);
            assert(not_host_char()(line[end]));
            assert(line[end] == after[0]);
            lemma_number_host(pid);
        }
    }
    assert(line =~= host + after);
    assert(parts.line() =~= line);
    law_command_parts_read(parts);
    parts
}

/// A number starts with a digit, or with a plus sign.
proof fn lemma_number_host(s: Seq<char>)
    requires
        u32_value(s) is Some,
    ensures
        is_host_char(s[0]) || s[0] == '+',
{
    let body = crate::numbers::without_sign(s, '+');
    assert(crate::numbers::is_digit(body[0]));
}

/// The parts of an exit line.
pub struct ExitParts {
    pub hostname: Seq<char>,
    pub pid: Seq<char>,
    pub code: Seq<char>,
    pub lead: Seq<char>,
    pub ms: Seq<char>,
    pub trail: Seq<char>,
}

impl ExitParts {
    /// The parts put together: `##EXIT## hostname pid=N $?=N t_ms=N`, with white space around the
    /// last number.
    pub open spec fn line(self) -> Seq<char> {
        "##EXIT## "@ + (self.hostname + (seq![' '] + ("pid="@ + (self.pid + (seq![' '] + ("$?="@ + (
        self.code + (seq![' '] + ("t_ms="@ + (self.lead + (self.ms + self.trail)))))))))))
    }

    /// Whether the parts are what they are said to be.
    pub open spec fn wf(self) -> bool {
        &&& is_one_word(self.hostname)
        &&& is_one_word(self.pid) && u32_value(self.pid) is Some
        &&& is_one_word(self.code) && i64_value(self.code) is Some
        &&& is_blank(self.lead) && is_blank(self.trail)
        &&& i64_value(self.ms) is Some
        &&& self.ms.len() > 0 && !white_space(self.ms[0]) && !white_space(self.ms.last())
    }
}

proof fn lemma_after_prefix(prefix: Seq<char>, s: Seq<char>)
    ensures
        crate::input::after_prefix(prefix + s, prefix) == Some(s),
{
    let all = prefix + s;
    assert(all.subrange(0, prefix.len() as int) =~= prefix);
    assert(all.skip(prefix.len() as int) =~= s);
}

proof fn lemma_has_prefix(s: Seq<char>, prefix: Seq<char>)
    requires
        crate::input::after_prefix(s, prefix) is Some,
    ensures
        s == prefix + crate::input::after_prefix(s, prefix).unwrap(),
{
    assert(s.subrange(0, prefix.len() as int) =~= prefix);
    assert(s =~= prefix + s.skip(prefix.len() as int));
}

/// A line that is made of the parts of an exit line is read as what they say: the process, the
/// code, and the milliseconds as nanoseconds.
pub proof fn law_exit_parts_read(parts: ExitParts)
    requires
        parts.wf(),
    ensures
        exit_record(parts.line()) == Some(
            ExitRecord {
                pid: u32_value(parts.pid).unwrap(),
                code: i64_value(parts.code).unwrap(),
                duration: i64_value(parts.ms).unwrap().wrapping_mul(1_000_000),
            },
        ),
{
    let tail = parts.lead + (parts.ms + parts.trail);
    let f = "t_ms="@ + tail;
    let e = parts.code + (seq![' '] + f);
    let d = "$?="@ + e;
    let c = parts.pid + (seq![' '] + d);
    let b = "pid="@ + c;
    let a = parts.hostname + (seq![' '] + b);
    lemma_after_prefix("##EXIT## "@, a);
    lemma_word(parts.hostname, b);
    lemma_after_prefix("pid="@, c);
    lemma_word(parts.pid, d);
    lemma_after_prefix("$?="@, e);
    lemma_word(parts.code, f);
    lemma_after_prefix("t_ms="@, tail);
    law_trimmed(parts.lead, parts.ms, parts.trail);
}

/// A line is an exit line only if it is made of the parts of one.
pub proof fn law_exit_line_has_parts(line: Seq<char>) -> (parts: ExitParts)
    requires
        exit_record(line) is Some,
    ensures
        parts.wf(),
        parts.line() == line,
{
    let a = crate::input::after_prefix(line, "##EXIT## "@).unwrap();
    let (host, b) = first_word(a).unwrap();
    let c = crate::input::after_prefix(b, "pid="@).unwrap();
    let (pid, d) = first_word(c).unwrap();
    let e = crate::input::after_prefix(d, "$?="@).unwrap();
    let (code, f) = first_word(e).unwrap();
    let tail = crate::input::after_prefix(f, "t_ms="@).unwrap();
    lemma_has_prefix(line, "##EXIT## "@);
    lemma_split_word(a);
    lemma_has_prefix(b, "pid="@);
    lemma_split_word(c);
    lemma_has_prefix(d, "$?="@);
    lemma_split_word(e);
    lemma_has_prefix(f, "t_ms="@);
    let around = lemma_untrimmed(tail);
    let ms = trimmed(tail);
    assert(ms.len() > 0) by {
        if ms.len() == 0 {
            assert(i64_value(ms) is None);
        }
    }
    ExitParts { hostname: host, pid, code, lead: around.0, ms, trail: around.1 }
}

} // verus!

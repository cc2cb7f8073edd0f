//! Commands that were run, and the place from which history is looked at.
use vstd::prelude::*;

use crate::clock::Timestamp;

verus! {

/// What tells one history entry from another.
#[derive(Debug, PartialEq, Eq, Hash)]
pub struct HistoryId(pub String);

impl View for HistoryId {
    type V = Seq<char>;

    open spec fn view(&self) -> Seq<char> {
        self.0@
    }
}

impl Clone for HistoryId {
    fn clone(&self) -> (out: Self)
        ensures
            out == *self,
    {
        HistoryId(self.0.clone())
    }
}

impl HistoryId {
    /// The text of the id.
    pub fn text(&self) -> (out: String)
        ensures
            out@ == self@,
    {
        self.0.clone()
    }

    /// Whether two ids are the same.
    pub fn same(&self, other: &HistoryId) -> (b: bool)
        ensures
            b == (self@ == other@),
    {
        self.0 == other.0
    }
}

impl From<String> for HistoryId {
    fn from(s: String) -> (id: Self) {
        HistoryId(s)
    }
}

impl vstd::std_specs::convert::FromSpecImpl<String> for HistoryId {
    open spec fn obeys_from_spec() -> bool {
        true
    }

    /// The id whose text is `s`.
    open spec fn from_spec(s: String) -> Self {
        HistoryId(s)
    }
}

/// A command that was run.
#[derive(Debug, PartialEq, Eq)]
pub struct History {
    pub id: HistoryId,
    /// When the command was started.
    pub timestamp: Timestamp,
    /// How long it ran, in nanoseconds, or -1 where that is not known.
    pub duration: i64,
    /// The code that it ended with, or -1 where that is not known.
    pub exit: i64,
    pub command: String,
    /// The directory that it was run in.
    pub cwd: String,
    pub session: String,
    pub hostname: String,
    pub author: String,
    pub intent: Option<String>,
    pub deleted_at: Option<Timestamp>,
}

/// What a history entry says, its texts as sequences of characters.
pub struct HistoryView {
    pub id: Seq<char>,
    pub timestamp: Timestamp,
    pub duration: i64,
    pub exit: i64,
    pub command: Seq<char>,
    pub cwd: Seq<char>,
    pub session: Seq<char>,
    pub hostname: Seq<char>,
    pub author: Seq<char>,
    pub intent: Option<Seq<char>>,
    pub deleted_at: Option<Timestamp>,
}

/// The text that a string holds, if there is one.
pub open spec fn option_text(s: Option<String>) -> Option<Seq<char>> {
    match s {
        Some(t) => Some(t@),
        None => None,
    }
}

impl View for History {
    type V = HistoryView;

    open spec fn view(&self) -> HistoryView {
        HistoryView {
            id: self.id@,
            timestamp: self.timestamp,
            duration: self.duration,
            exit: self.exit,
            command: self.command@,
            cwd: self.cwd@,
            session: self.session@,
            hostname: self.hostname@,
            author: self.author@,
            intent: option_text(self.intent),
            deleted_at: self.deleted_at,
        }
    }
}

/// A copy of a string that may be there.
pub fn clone_option(s: &Option<String>) -> (out: Option<String>)
    ensures
        out == *s,
{
    match s {
        Some(t) => Some(t.clone()),
        None => None,
    }
}

impl Clone for History {
    fn clone(&self) -> (out: Self)
        ensures
            out == *self,
    {
        History {
            id: self.id.clone(),
            timestamp: self.timestamp,
            duration: self.duration,
            exit: self.exit,
            command: self.command.clone(),
            cwd: self.cwd.clone(),
            session: self.session.clone(),
            hostname: self.hostname.clone(),
            author: self.author.clone(),
            intent: clone_option(&self.intent),
            deleted_at: self.deleted_at,
        }
    }
}

impl History {
    /// Whether the entry has not been deleted.
    pub open spec fn live(self) -> bool {
        self.deleted_at is None
    }

    /// Whether the command succeeded, or is not known to have ended.
    pub fn success(&self) -> (b: bool)
        ensures
            b == (self.exit == 0 || self.duration == -1),
    {
        self.exit == 0 || self.duration == -1
    }

    /// Whether the entry has not been deleted.
    pub fn is_live(&self) -> (b: bool)
        ensures
            b == self.live(),
    {
        self.deleted_at.is_none()
    }
}

/// Copies of the entries at the positions that `order` lists.
pub fn pick_entries(entries: &Vec<History>, order: &Vec<usize>) -> (out: Vec<History>)
    requires
        forall|i: int| 0 <= i < order.len() ==> #[trigger] order@[i] < entries.len(),
    ensures
        out@ == crate::order::pick(entries@, order@),
{
    let mut out: Vec<History> = Vec::with_capacity(order.len());
    let mut i: usize = 0;
    while i < order.len()
        invariant
            i <= order.len(),
            forall|i: int| 0 <= i < order.len() ==> #[trigger] order@[i] < entries.len(),
            out.len() == i,
            forall|j: int| 0 <= j < i ==> #[trigger] out@[j] == entries@[order@[j] as int],
        decreases order.len() - i,
    {
        out.push(entries[order[i]].clone());
        i = i + 1;
    }
    assert(out@ =~= crate::order::pick(entries@, order@));
    out
}

/// What is known of a command beside the command itself.
#[derive(Debug, PartialEq, Eq)]
pub struct HistoryStats {
    /// The command run next in the same session.
    pub next: Option<History>,
    /// The command run before in the same session.
    pub previous: Option<History>,
    /// How often the command was run.
    pub total: u64,
    /// How long it ran on average, in nanoseconds.
    pub average_duration: u64,
    /// Each code that it ended with, and how often.
    pub exits: Vec<(i64, i64)>,
    /// Each day of the week on which it was run, 0 for Sunday, and how often.
    pub day_of_week: Vec<(String, i64)>,
    /// Each month in which it was run, and how long it ran in all.
    pub duration_over_time: Vec<(String, i64)>,
}

/// The place from which history is looked at.
pub struct Context {
    pub session: String,
    pub cwd: String,
    pub hostname: String,
    pub host_id: String,
    /// The root of the working tree that `cwd` is in.
    pub git_root: Option<String>,
}

impl Context {
    /// The directory that stands for the workspace: the root of the working tree, or the
    /// working directory where there is none.
    pub open spec fn workspace(self) -> Seq<char> {
        match self.git_root {
            Some(root) => root@,
            None => self.cwd@,
        }
    }

    /// The place in which `entry` was run, with the root of the working tree around it.
    pub fn from_history(entry: &History, git_root: Option<String>) -> (context: Context)
        ensures
            context.session@ == entry.session@,
            context.cwd@ == entry.cwd@,
            context.hostname@ == entry.hostname@,
            context.host_id@ == Seq::<char>::empty(),
            context.git_root == git_root,
    {
        Context {
            session: entry.session.clone(),
            cwd: entry.cwd.clone(),
            hostname: entry.hostname.clone(),
            host_id: String::new(),
            git_root,
        }
    }
}

impl Clone for Context {
    fn clone(&self) -> (out: Self)
        ensures
            out == *self,
    {
        Context {
            session: self.session.clone(),
            cwd: self.cwd.clone(),
            hostname: self.hostname.clone(),
            host_id: self.host_id.clone(),
            git_root: clone_option(&self.git_root),
        }
    }
}

/// What else a search asks of an entry, and which of the entries found it returns.
pub struct OptFilters {
    pub exit: Option<i64>,
    pub exclude_exit: Option<i64>,
    pub cwd: Option<String>,
    pub exclude_cwd: Option<String>,
    pub before: Option<String>,
    pub after: Option<String>,
    pub limit: Option<i64>,
    pub offset: Option<i64>,
    pub reverse: bool,
    pub include_duplicates: bool,
}

impl Default for OptFilters {
    fn default() -> (out: Self)
        ensures
            out == (OptFilters {
                exit: None,
                exclude_exit: None,
                cwd: None,
                exclude_cwd: None,
                before: None,
                after: None,
                limit: None,
                offset: None,
                reverse: false,
                include_duplicates: false,
            }),
    {
        OptFilters {
            exit: None,
            exclude_exit: None,
            cwd: None,
            exclude_cwd: None,
            before: None,
            after: None,
            limit: None,
            offset: None,
            reverse: false,
            include_duplicates: false,
        }
    }
}

} // verus!

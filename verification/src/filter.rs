//! Which entries are shown: by the place from which history is looked at, and by what else is
//! asked of them.
use vstd::prelude::*;

use crate::clock::{clock_shows, in_calendar};
use crate::dates::{date_value, parse_date, Dialect};
use crate::history::{Context, History, HistoryView, OptFilters};
use crate::session::{in_sessions, is_in_sessions, session_start, session_start_of};
use crate::text::{chars_of, contains_part, contains_text, has_part, lemma_split_append, occurs_in,
    split_at_char};

verus! {

/// How far history is shown, seen from a place.
#[derive(Clone, Copy, Debug, PartialEq, Eq, Structural)]
pub enum FilterMode {
    Global,
    Host,
    Session,
    Directory,
    Workspace,
    SessionPreload,
}

impl FilterMode {
    /// The label that the mode is shown under.
    pub open spec fn label(self) -> Seq<char> {
        match self {
            FilterMode::Global => "GLOBAL"@,
            FilterMode::Host => "HOST"@,
            FilterMode::Session => "SESSION"@,
            FilterMode::Directory => "DIRECTORY"@,
            FilterMode::Workspace => "WORKSPACE"@,
            FilterMode::SessionPreload => "SESSION+"@,
        }
    }

    /// The label that the mode is shown under.
    pub fn as_str(&self) -> (s: &'static str)
        ensures
            s@ == self.label(),
    {
        match self {
            FilterMode::Global => "GLOBAL",
            FilterMode::Host => "HOST",
            FilterMode::Session => "SESSION",
            FilterMode::Directory => "DIRECTORY",
            FilterMode::Workspace => "WORKSPACE",
            FilterMode::SessionPreload => "SESSION+",
        }
    }
}

/// Whether an entry is shown in a mode, where the session of the place started at `start`. An
/// entry that stands for several lists their hosts with commas between them, their
/// directories with colons, and their sessions one right after the other.
pub open spec fn admits(
    h: HistoryView,
    mode: FilterMode,
    context: Context,
    start: Option<i128>,
) -> bool {
    match mode {
        FilterMode::Global => true,
        FilterMode::Host => has_part(h.hostname, ',', context.hostname@),
        FilterMode::Session => in_sessions(h.session, context.session@),
        FilterMode::SessionPreload => in_sessions(h.session, context.session@) || (start matches Some(
            t,
        ) && h.timestamp.nanos < t),
        FilterMode::Directory => has_part(h.cwd, ':', context.cwd@),
        FilterMode::Workspace => has_part(h.cwd, ':', context.workspace()),
    }
}

/// Whether an entry is shown in a mode, seen from a place.
pub open spec fn in_mode(h: HistoryView, mode: FilterMode, context: Context) -> bool {
    admits(h, mode, context, session_start_of(context.session@))
}

fn has_text_part(s: &str, sep: char, part: &str) -> (b: bool)
    ensures
        b == has_part(s@, sep, part@),
{
    let s = chars_of(s);
    let part = chars_of(part);
    contains_part(s.as_slice(), sep, part.as_slice())
}

/// Whether an entry is shown in a mode, where the session of the place started at `start`.
pub fn filter_from(h: &History, mode: FilterMode, context: &Context, start: Option<i128>) -> (b: bool)
    ensures
        b == admits(h@, mode, *context, start),
{
    match mode {
        FilterMode::Global => true,
        FilterMode::Host => has_text_part(h.hostname.as_str(), ',', context.hostname.as_str()),
        FilterMode::Session => is_in_sessions(h.session.as_str(), context.session.as_str()),
        FilterMode::SessionPreload => {
            if is_in_sessions(h.session.as_str(), context.session.as_str()) {
                return true;
            }
            match start {
                Some(t) => h.timestamp.nanos < t,
                None => false,
            }
        },
        FilterMode::Directory => has_text_part(h.cwd.as_str(), ':', context.cwd.as_str()),
        FilterMode::Workspace => {
            let root: &str = match &context.git_root {
                Some(root) => root.as_str(),
                None => context.cwd.as_str(),
            };
            has_text_part(h.cwd.as_str(), ':', root)
        },
    }
}

/// Whether an entry is shown in a mode, seen from a place.
pub fn filter_by_mode(h: &History, mode: FilterMode, context: &Context) -> (b: bool)
    ensures
        b == in_mode(h@, mode, *context),
{
    let start: Option<i128> = match mode {
        FilterMode::SessionPreload => session_start(context.session.as_str()),
        _ => None,
    };
    filter_from(h, mode, context, start)
}

/// Whether an entry has what the filters ask for. `before` and `after` are the dates that they
/// name; a bound that names none bounds nothing.
pub open spec fn passes(
    h: HistoryView,
    f: OptFilters,
    before: Option<i128>,
    after: Option<i128>,
) -> bool {
    &&& f.exit matches Some(code) ==> h.exit == code
    &&& f.exclude_exit matches Some(code) ==> h.exit != code
    &&& f.cwd matches Some(dir) ==> occurs_in(h.cwd, dir@)
    &&& f.exclude_cwd matches Some(dir) ==> !occurs_in(h.cwd, dir@)
    &&& before matches Some(t) ==> h.timestamp.nanos <= t
    &&& after matches Some(t) ==> h.timestamp.nanos >= t
}

/// Picks out the entries that have what the filters ask for.
pub open spec fn passing(f: OptFilters, before: Option<i128>, after: Option<i128>) -> spec_fn(
    History,
) -> bool {
    |h: History| passes(h@, f, before, after)
}

/// The part of a list from an offset on. A negative offset is beyond every list.
pub open spec fn from_offset<T>(s: Seq<T>, offset: Option<i64>) -> Seq<T> {
    match offset {
        Some(n) => if 0 <= n <= s.len() {
            s.skip(n as int)
        } else {
            Seq::empty()
        },
        None => s,
    }
}

/// The part of a list up to a limit. A negative limit is no limit.
pub open spec fn up_to_limit<T>(s: Seq<T>, limit: Option<i64>) -> Seq<T> {
    match limit {
        Some(n) => if 0 <= n <= s.len() {
            s.take(n as int)
        } else {
            s
        },
        None => s,
    }
}

/// The entries that filters leave of a list: those that have what is asked for, in reverse
/// where the filters say so, from the offset on and up to the limit.
pub open spec fn filtered(
    s: Seq<History>,
    f: OptFilters,
    before: Option<i128>,
    after: Option<i128>,
) -> Seq<History> {
    let kept = s.filter(passing(f, before, after));
    let turned = if f.reverse {
        kept.reverse()
    } else {
        kept
    };
    up_to_limit(from_offset(turned, f.offset), f.limit)
}

fn passes_filters(
    h: &History,
    f: &OptFilters,
    before: Option<i128>,
    after: Option<i128>,
) -> (b: bool)
    ensures
        b == passes(h@, *f, before, after),
{
    if let Some(code) = f.exit {
        if h.exit != code {
            return false;
        }
    }
    if let Some(code) = f.exclude_exit {
        if h.exit == code {
            return false;
        }
    }
    if f.cwd.is_some() || f.exclude_cwd.is_some() {
        let cwd = chars_of(h.cwd.as_str());
        if let Some(dir) = &f.cwd {
            let dir = chars_of(dir.as_str());
            if !contains_text(cwd.as_slice(), dir.as_slice()) {
                return false;
            }
        }
        if let Some(dir) = &f.exclude_cwd {
            let dir = chars_of(dir.as_str());
            if contains_text(cwd.as_slice(), dir.as_slice()) {
                return false;
            }
        }
    }
    if let Some(t) = before {
        if h.timestamp.nanos > t {
            return false;
        }
    }
    if let Some(t) = after {
        if h.timestamp.nanos < t {
            return false;
        }
    }
    true
}

/// The entries that filters leave of a list, where `before` and `after` are the dates that they
/// name.
pub fn filter_between(
    entries: Vec<History>,
    f: &OptFilters,
    before: Option<i128>,
    after: Option<i128>,
) -> (out: Vec<History>)
    ensures
        out@ == filtered(entries@, *f, before, after),
{
    let ghost p = passing(*f, before, after);
    let mut kept: Vec<History> = Vec::new();
    let mut i: usize = 0;
    proof {
        reveal(Seq::filter);
        assert(entries@.take(0).filter(p) =~= Seq::empty());
    }
    while i < entries.len()
        invariant
            i <= entries.len(),
            p == passing(*f, before, after),
            kept@ == entries@.take(i as int).filter(p),
        decreases entries.len() - i,
    {
        proof {
            reveal(Seq::filter);
            assert(entries@.take(i + 1).drop_last() =~= entries@.take(i as int));
        }
        if passes_filters(&entries[i], f, before, after) {
            kept.push(entries[i].clone());
        }
        i = i + 1;
    }
    assert(entries@.take(i as int) =~= entries@);
    let n: usize = kept.len();
    let ghost turned = if f.reverse {
        kept@.reverse()
    } else {
        kept@
    };
    let from: usize = match f.offset {
        Some(offset) => if offset < 0 || offset as u64 > n as u64 {
            n
        } else {
            offset as usize
        },
        None => 0,
    };
    let room: usize = n - from;
    let count: usize = match f.limit {
        Some(limit) => if limit < 0 || limit as u64 > room as u64 {
            room
        } else {
            limit as usize
        },
        None => room,
    };
    let ghost expected = up_to_limit(from_offset(turned, f.offset), f.limit);
    assert(expected =~= turned.subrange(from as int, from + count));
    let mut out: Vec<History> = Vec::with_capacity(count);
    let mut k: usize = 0;
    while k < count
        invariant
            k <= count,
            from + count <= n,
            n == kept.len(),
            turned == (if f.reverse {
                kept@.reverse()
            } else {
                kept@
            }),
            out.len() == k,
            forall|j: int| 0 <= j < k ==> #[trigger] out@[j] == turned[from + j],
        decreases count - k,
    {
        let at: usize = if f.reverse {
            n - 1 - (from + k)
        } else {
            from + k
        };
        out.push(kept[at].clone());
        k = k + 1;
    }
    assert(out@ =~= expected);
    out
}

/// Whether `bound` is the date that a filter names at a time that the machine's clock was read
/// as.
pub open spec fn is_bound(text: Option<String>, bound: Option<i128>) -> bool {
    match text {
        Some(text) => exists|now: i128| #[trigger]
            clock_shows(now) && in_calendar(now as int) && bound == date_value(
                text@,
                now,
                Dialect::Uk,
            ),
        None => bound is None,
    }
}

/// The date that a filter names right now.
fn bound_of(text: &Option<String>) -> (bound: Option<i128>)
    ensures
        is_bound(*text, bound),
{
    match text {
        Some(text) => parse_date(text.as_str(), Dialect::Uk),
        None => None,
    }
}

/// The entries that filters leave of a list. The dates that the filters name are taken as of
/// right now.
pub fn apply_opt_filters(entries: Vec<History>, f: &OptFilters) -> (out: Vec<History>)
    ensures
        exists|before: Option<i128>, after: Option<i128>|
            is_bound(f.before, before) && is_bound(f.after, after) && out@ == #[trigger] filtered(
                entries@,
                *f,
                before,
                after,
            ),
        f.before is None && f.after is None ==> out@ == filtered(entries@, *f, None, None),
{
    let before = bound_of(&f.before);
    let after = bound_of(&f.after);
    filter_between(entries, f, before, after)
}

/// A part of two texts put together is a part of one of them.
pub proof fn lemma_parts_put_together(a: Seq<char>, b: Seq<char>, sep: char, part: Seq<char>)
    ensures
        has_part(a.push(sep) + b, sep, part) == (has_part(a, sep, part) || has_part(b, sep, part)),
{
    lemma_split_append(a, b, sep);
    let x = split_at_char(a, sep);
    let y = split_at_char(b, sep);
    assert(a.push(sep) + b =~= a + seq![sep] + b);
    if has_part(a, sep, part) {
        let i = x.index_of(part);
        assert((x + y)[i] == part);
    }
    if has_part(b, sep, part) {
        let i = y.index_of(part);
        assert((x + y)[x.len() + i] == part);
    }
    if (x + y).contains(part) {
        let i = (x + y).index_of(part);
        if i < x.len() {
            assert(x[i] == part);
        } else {
            assert(y[i - x.len()] == part);
        }
    }
}

/// What is shown of a session is shown of it in the mode that also shows what came before it.
pub proof fn law_preload_shows_session(h: HistoryView, context: Context)
    requires
        in_mode(h, FilterMode::Session, context),
    ensures
        in_mode(h, FilterMode::SessionPreload, context),
{
}

/// What filters leave has what they ask for, comes from the list, and is no more than the limit.
pub proof fn law_filtered_passes(
    s: Seq<History>,
    f: OptFilters,
    before: Option<i128>,
    after: Option<i128>,
    i: int,
)
    requires
        0 <= i < filtered(s, f, before, after).len(),
    ensures
        passes(filtered(s, f, before, after)[i]@, f, before, after),
        s.contains(filtered(s, f, before, after)[i]),
        f.limit matches Some(n) ==> (n >= 0 ==> filtered(s, f, before, after).len() <= n),
{
    let p = passing(f, before, after);
    let kept = s.filter(p);
    let out = filtered(s, f, before, after);
    let turned = if f.reverse {
        kept.reverse()
    } else {
        kept
    };
    assert(turned.contains(out[i])) by {
        let rest = from_offset(turned, f.offset);
        assert(out[i] == rest[i]);
        let skipped = turned.len() - rest.len();
        assert(rest[i] == turned[skipped + i]);
    }
    assert(kept.contains(out[i])) by {
        let k = turned.index_of(out[i]);
        if f.reverse {
            assert(kept[kept.len() - 1 - k] == out[i]);
        } else {
            assert(kept[k] == out[i]);
        }
    }
    let k = kept.index_of(out[i]);
    s.lemma_filter_pred(p, k);
    lemma_filter_from(s, p, k);
}

/// What a filter leaves stands in the order of the list: `at` tells where each item comes from.
pub proof fn lemma_filter_places<T>(s: Seq<T>, p: spec_fn(T) -> bool) -> (at: Seq<int>)
    ensures
        at.len() == s.filter(p).len(),
        forall|i: int|
            0 <= i < at.len() ==> 0 <= #[trigger] at[i] < s.len() && s.filter(p)[i] == s[at[i]],
        forall|i: int, j: int| 0 <= i < j < at.len() ==> #[trigger] at[i] < #[trigger] at[j],
    decreases s.len(),
{
    reveal(Seq::filter);
    if s.len() == 0 {
        Seq::empty()
    } else {
        let front = lemma_filter_places(s.drop_last(), p);
        if p(s.last()) {
            front.push(s.len() - 1)
        } else {
            front
        }
    }
}

/// What filters leave stands in the order of the list, or in the opposite one where that is
/// asked for: `at` tells where each entry comes from.
pub proof fn law_filtered_in_order(
    s: Seq<History>,
    f: OptFilters,
    before: Option<i128>,
    after: Option<i128>,
) -> (at: Seq<int>)
    ensures
        at.len() == filtered(s, f, before, after).len(),
        forall|i: int|
            0 <= i < at.len() ==> 0 <= #[trigger] at[i] < s.len() && filtered(s, f, before, after)[i]
                == s[at[i]],
        forall|i: int, j: int|
            0 <= i < j < at.len() ==> if f.reverse {
                #[trigger] at[j] < #[trigger] at[i]
            } else {
                at[i] < at[j]
            },
{
    let p = passing(f, before, after);
    let kept = s.filter(p);
    let places = lemma_filter_places(s, p);
    let turned = if f.reverse {
        kept.reverse()
    } else {
        kept
    };
    let rest = from_offset(turned, f.offset);
    let skipped = turned.len() - rest.len();
    let out = filtered(s, f, before, after);
    let at = Seq::new(
        out.len(),
        |i: int|
            if f.reverse {
                places[kept.len() - 1 - skipped - i]
            } else {
                places[skipped + i]
            },
    );
    assert forall|i: int| 0 <= i < at.len() implies 0 <= #[trigger] at[i] < s.len() && out[i]
        == s[at[i]] by {
        assert(out[i] == rest[i]);
        assert(rest[i] == turned[skipped + i]);
    }
    at
}

/// What a filter leaves comes from the list.
pub proof fn lemma_filter_from<T>(s: Seq<T>, p: spec_fn(T) -> bool, k: int)
    requires
        0 <= k < s.filter(p).len(),
    ensures
        s.contains(s.filter(p)[k]),
    decreases s.len(),
{
    reveal(Seq::filter);
    if s.len() > 0 {
        let rest = s.drop_last();
        if k < rest.filter(p).len() {
            lemma_filter_from(rest, p, k);
            let i = rest.index_of(rest.filter(p)[k]);
            assert(s[i] == rest[i]);
        } else {
            assert(s[s.len() - 1] == s.last());
        }
    }
}

} // verus!

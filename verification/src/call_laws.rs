//! What comes out of the main operations, in terms of what goes in.
use vstd::prelude::*;

use crate::clock::clock_shows;
use crate::counts::row_views;
use crate::database::{found, MemoryDatabase};
use crate::dates::{english_date, takes_words, DateRead};
use crate::filter::{apply_opt_filters, filtered, is_bound, FilterMode};
use crate::history::{Context, History, HistoryStats, OptFilters};
use crate::input::parse_fullhistory;
use crate::inspect_laws::{is_asked, law_next_and_previous, law_runs_and_exits, of_session, sooner};
use crate::list_laws::{
    has_what_is_asked, later, law_dates_as_of_the_clock, law_filters_leave_the_rest,
    law_list_misses_nothing, law_search_misses_nothing, law_unique_list_misses_nothing, may_find,
    may_list,
};
use crate::query::{matches_query, token_views, QueryToken, SearchMode};
use crate::query_laws::{asked_for, law_query_asks};
use crate::reading_laws::{joined, law_written_entries};
use crate::row_laws::{is_group, is_row_of, law_rows};
use crate::written::{all_lines, text_of_lines, Written};

verus! {

/// What is read of a text that was written command by command are those commands: each is there,
/// whole, with its code.
pub proof fn law_text_is_read(content: &str, out: Vec<History>, commands: Seq<Written>) -> (at: Seq<
    int,
>)
    requires
        call_ensures(parse_fullhistory, (content,), out),
        content@ == text_of_lines(all_lines(commands)),
        forall|i: int| 0 <= i < commands.len() ==> (#[trigger] commands[i]).wf(),
    ensures
        out@.len() == commands.len(),
        at.len() == commands.len(),
        forall|i: int, j: int| 0 <= i < j < at.len() ==> #[trigger] at[i] != #[trigger] at[j],
        forall|i: int|
            0 <= i < at.len() ==> 0 <= #[trigger] at[i] < commands.len() && out@[i].command@
                == joined(commands[at[i]].command, commands[at[i]].more) && out@[i].exit
                == commands[at[i]].code,
{
    law_written_entries(out@, commands)
}

/// A query finds a command exactly where the command has what each of its tokens asks for.
pub proof fn law_command_is_found(
    command: &str,
    tokens: Vec<QueryToken<'static>>,
    mode: SearchMode,
    b: bool,
)
    requires
        call_ensures(matches_query, (command, &tokens, mode), b),
        mode != SearchMode::Prefix,
    ensures
        b <==> forall|i: int|
            0 <= i < tokens@.len() ==> asked_for((#[trigger] token_views(tokens@)[i]), command@),
{
    law_query_asks(command@, token_views(tokens@), mode);
}

/// A list of everything that the modes show has every entry that they show, and a list of the
/// latest of each command has every command of theirs.
pub proof fn law_all_are_listed(
    db: MemoryDatabase,
    filters: &[FilterMode],
    context: Context,
    include_deleted: bool,
    unique: bool,
    out: Vec<History>,
    q: int,
)
    requires
        call_ensures(
            MemoryDatabase::list,
            (&db, filters, &context, None::<usize>, unique, include_deleted),
            out,
        ),
        0 <= q < db.entries@.len(),
        may_list(db.entries@[q], filters@, context, include_deleted),
    ensures
        !unique ==> out@.contains(db.entries@[q]),
        unique ==> exists|i: int|
            0 <= i < out@.len() && (#[trigger] out@[i]).command@ == db.entries@[q].command@,
{
    let s = db.entries@;
    assert(db.entries@.len() == db.entries.len());
    if unique {
        let at = law_unique_list_misses_nothing(s, filters@, context, None, include_deleted);
        assert(may_list(s[q], filters@, context, include_deleted));
        assert(crate::list_laws::command_listed(s, at, q));
        let i = choose|i: int| 0 <= i < at.len() && s[#[trigger] at[i]].command@ == s[q].command@;
        assert(out@[i] == s[at[i]]);
    } else {
        let at = law_list_misses_nothing(s, filters@, context, None, include_deleted);
        assert(may_list(s[q], filters@, context, include_deleted));
        assert(at.contains(q));
        let i = at.index_of(q);
        assert(out@[i] == s[at[i]]);
    }
}

/// A list that is cut at a number has the latest: where it has room left, it misses nothing, and
/// else nothing that it misses is later than what it has.
pub proof fn law_latest_are_listed(
    db: MemoryDatabase,
    filters: &[FilterMode],
    context: Context,
    max: usize,
    include_deleted: bool,
    unique: bool,
    out: Vec<History>,
    q: int,
)
    requires
        call_ensures(
            MemoryDatabase::list,
            (&db, filters, &context, Some(max), unique, include_deleted),
            out,
        ),
        0 <= q < db.entries@.len(),
        may_list(db.entries@[q], filters@, context, include_deleted),
        !out@.contains(db.entries@[q]),
        unique ==> forall|i: int|
            0 <= i < out@.len() ==> (#[trigger] out@[i]).command@ != db.entries@[q].command@,
    ensures
        out@.len() == max,
        forall|i: int|
            0 <= i < out@.len() ==> (#[trigger] out@[i]).timestamp.nanos
                >= db.entries@[q].timestamp.nanos,
{
    let s = db.entries@;
    assert(db.entries@.len() == db.entries.len());
    assert(may_list(s[q], filters@, context, include_deleted));
    if unique {
        let at = law_unique_list_misses_nothing(s, filters@, context, Some(max), include_deleted);
        if crate::list_laws::command_listed(s, at, q) {
            let i = choose|i: int|
                0 <= i < at.len() && s[#[trigger] at[i]].command@ == s[q].command@;
            assert(out@[i] == s[at[i]]);
        }
        assert forall|i: int| 0 <= i < out@.len() implies (#[trigger] out@[i]).timestamp.nanos
            >= s[q].timestamp.nanos by {
            assert(out@[i] == s[at[i]]);
            assert(later(s, at[i], q));
        }
    } else {
        let at = law_list_misses_nothing(s, filters@, context, Some(max), include_deleted);
        if at.contains(q) {
            let i = at.index_of(q);
            assert(out@[i] == s[at[i]]);
        }
        assert forall|i: int| 0 <= i < out@.len() implies (#[trigger] out@[i]).timestamp.nanos
            >= s[q].timestamp.nanos by {
            assert(out@[i] == s[at[i]]);
            assert(later(s, at[i], q));
        }
    }
}

/// Filters by date leave no entry outside the dates that their texts give at the times that the
/// machine's clock was read as, and leave nothing else that they do not ask for; without an offset
/// and a limit they leave everything that they ask for.
pub proof fn law_dates_bound_what_is_left(
    entries: Vec<History>,
    f: OptFilters,
    out: Vec<History>,
) -> (bounds: (Option<i128>, Option<i128>))
    requires
        call_ensures(apply_opt_filters, (entries, &f), out),
    ensures
        f.before is None ==> bounds.0 is None,
        f.after is None ==> bounds.1 is None,
        f.before matches Some(text) ==> exists|now: i128| #[trigger]
            clock_shows(now) && (bounds.0 matches Some(t) ==> english_date(text@, now, true)
                == DateRead::Date(t)) && (takes_words(text@, now, true) && bounds.0 is None ==> !(
            english_date(text@, now, true) is Date)),
        f.after matches Some(text) ==> exists|now: i128| #[trigger]
            clock_shows(now) && (bounds.1 matches Some(t) ==> english_date(text@, now, true)
                == DateRead::Date(t)) && (takes_words(text@, now, true) && bounds.1 is None ==> !(
            english_date(text@, now, true) is Date)),
        forall|i: int|
            0 <= i < out@.len() ==> has_what_is_asked(#[trigger] out@[i], f, bounds.0, bounds.1),
        f.offset is None && f.limit is None ==> forall|q: int|
            0 <= q < entries@.len() && has_what_is_asked(
                #[trigger] entries@[q],
                f,
                bounds.0,
                bounds.1,
            ) ==> out@.contains(entries@[q]),
{
    let (before, after) = choose|before: Option<i128>, after: Option<i128>|
        is_bound(f.before, before) && is_bound(f.after, after) && out@ == #[trigger] filtered(
            entries@,
            f,
            before,
            after,
        );
    let s = entries@;
    let all = law_filters_leave_the_rest(s, f, before, after);
    if let Some(text) = f.before {
        let now = law_dates_as_of_the_clock(text, before);
        assert(clock_shows(now));
    }
    if let Some(text) = f.after {
        let now = law_dates_as_of_the_clock(text, after);
        assert(clock_shows(now));
    }
    assert forall|i: int| 0 <= i < out@.len() implies has_what_is_asked(
        #[trigger] out@[i],
        f,
        before,
        after,
    ) by {
        let skip = crate::list_laws::left_out(all.len() as int, f.offset);
        let k = if f.reverse {
            all.len() - 1 - skip - i
        } else {
            skip + i
        };
        assert(filtered(s, f, before, after)[i] == s[all[k]]);
        assert(0 <= all[k] < s.len());
    }
    if f.offset is None && f.limit is None {
        assert forall|q: int|
            0 <= q < s.len() && has_what_is_asked(#[trigger] s[q], f, before, after) implies
            out@.contains(s[q]) by {
            assert(all.contains(q));
            let k = all.index_of(q);
            let i = if f.reverse {
                all.len() - 1 - k
            } else {
                k
            };
            assert(filtered(s, f, before, after)[i] == s[all[k]]);
        }
    }
    (before, after)
}

/// A search without further filters finds every entry that it may show, latest first, and no
/// other.
pub proof fn law_all_are_found(
    db: MemoryDatabase,
    mode: SearchMode,
    filter: FilterMode,
    context: Context,
    query: &str,
    out: Vec<History>,
) -> (at: Seq<int>)
    requires
        call_ensures(MemoryDatabase::find, (&db, mode, filter, &context, query), out),
    ensures
        at.len() == out@.len(),
        forall|i: int|
            0 <= i < at.len() ==> 0 <= #[trigger] at[i] < db.entries@.len() && out@[i]
                == db.entries@[at[i]] && may_find(out@[i], mode, filter, context, query@),
        forall|i: int, j: int|
            0 <= i < j < at.len() ==> later(db.entries@, #[trigger] at[i], #[trigger] at[j]),
        forall|q: int|
            0 <= q < db.entries@.len() && #[trigger] may_find(
                db.entries@[q],
                mode,
                filter,
                context,
                query@,
            ) ==> at.contains(q),
{
    assert(db.entries@.len() == db.entries.len());
    law_search_misses_nothing(db.entries@, mode, filter, context, query@)
}

/// What is told of a command: how often it was run, and what was run next in its session.
pub proof fn law_stats_tell(
    db: MemoryDatabase,
    h: History,
    stats: HistoryStats,
    p: int,
) -> (all: Seq<int>)
    requires
        call_ensures(MemoryDatabase::stats, (&db, &h), stats),
        db.entries@.len() <= i64::MAX,
        is_asked(db.entries@, h, p),
    ensures
        crate::inspect_laws::are_runs(db.entries@, h, all),
        stats.total == all.len(),
        stats.next is None ==> forall|q: int|
            #[trigger] of_session(db.entries@, h, q) && q != p ==> sooner(db.entries@, q, p),
        stats.previous is None ==> forall|q: int|
            #[trigger] of_session(db.entries@, h, q) && q != p ==> sooner(db.entries@, p, q),
{
    assert(db.entries@.len() == db.entries.len());
    law_next_and_previous(stats, db.entries@, h, p);
    law_runs_and_exits(stats, db.entries@, h)
}

/// Every command that is not deleted is counted in one row.
pub proof fn law_all_are_counted(db: MemoryDatabase, out: Vec<(History, i32)>) -> (groups: Seq<
    Seq<int>,
>)
    requires
        call_ensures(MemoryDatabase::all_with_count, (&db,), out),
    ensures
        groups.len() == out@.len(),
        forall|k: int|
            0 <= k < groups.len() ==> is_group(db.entries@, #[trigger] groups[k]) && is_row_of(
                (out@[k].0@, out@[k].1),
                db.entries@,
                groups[k],
            ),
        forall|q: int|
            0 <= q < db.entries@.len() && (#[trigger] db.entries@[q]).deleted_at is None
                ==> exists|k: int| 0 <= k < groups.len() && (#[trigger] groups[k]).contains(q),
{
    assert(db.entries@.len() == db.entries.len());
    let groups = law_rows(db.entries@);
    assert(row_views(out@).len() == out@.len());
    assert forall|k: int| 0 <= k < groups.len() implies is_group(db.entries@, #[trigger] groups[k])
        && is_row_of((out@[k].0@, out@[k].1), db.entries@, groups[k]) by {
        assert(row_views(out@)[k] == (out@[k].0@, out@[k].1));
    }
    groups
}

/// A search with filters shows nothing but entries that it may show and that have what the filters
/// ask for, at dates as of the clock; without an offset and a limit it shows all of them.
pub proof fn law_all_are_searched(
    db: MemoryDatabase,
    mode: SearchMode,
    filter: FilterMode,
    context: Context,
    query: &str,
    f: OptFilters,
    out: Vec<History>,
) -> (bounds: (Option<i128>, Option<i128>))
    requires
        call_ensures(MemoryDatabase::search, (&db, mode, filter, &context, query, &f), out),
    ensures
        is_bound(f.before, bounds.0),
        is_bound(f.after, bounds.1),
        forall|i: int|
            0 <= i < out@.len() ==> may_find(#[trigger] out@[i], mode, filter, context, query@)
                && has_what_is_asked(out@[i], f, bounds.0, bounds.1) && db.entries@.contains(out@[i]),
        forall|i: int, j: int|
            0 <= i < j < out@.len() ==> if f.reverse {
                (#[trigger] out@[i]).timestamp.nanos <= (#[trigger] out@[j]).timestamp.nanos
            } else {
                out@[i].timestamp.nanos >= out@[j].timestamp.nanos
            },
        f.offset is None && f.limit is None ==> forall|q: int|
            0 <= q < db.entries@.len() && may_find(
                #[trigger] db.entries@[q],
                mode,
                filter,
                context,
                query@,
            ) && has_what_is_asked(db.entries@[q], f, bounds.0, bounds.1) ==> out@.contains(
                db.entries@[q],
            ),
{
    assert(db.entries@.len() == db.entries.len());
    let s = db.entries@;
    let list = found(s, mode, filter, context, query@);
    let (before, after) = choose|before: Option<i128>, after: Option<i128>|
        is_bound(f.before, before) && is_bound(f.after, after) && out@ == #[trigger] filtered(
            list,
            f,
            before,
            after,
        );
    let at = law_search_misses_nothing(s, mode, filter, context, query@);
    let all = law_filters_leave_the_rest(list, f, before, after);
    let skip = crate::list_laws::left_out(all.len() as int, f.offset);
    assert forall|i: int| 0 <= i < out@.len() implies may_find(
        #[trigger] out@[i],
        mode,
        filter,
        context,
        query@,
    ) && has_what_is_asked(out@[i], f, before, after) && s.contains(out@[i]) by {
        let k = if f.reverse {
            all.len() - 1 - skip - i
        } else {
            skip + i
        };
        assert(filtered(list, f, before, after)[i] == list[all[k]]);
        assert(0 <= all[k] < list.len());
        assert(list[all[k]] == s[at[all[k]]]);
    }
    assert forall|i: int, j: int| 0 <= i < j < out@.len() implies if f.reverse {
        (#[trigger] out@[i]).timestamp.nanos <= (#[trigger] out@[j]).timestamp.nanos
    } else {
        out@[i].timestamp.nanos >= out@[j].timestamp.nanos
    } by {
        crate::database::law_search_in_order(
            s,
            mode,
            filter,
            context,
            query@,
            f,
            before,
            after,
            i,
            j,
        );
    }
    if f.offset is None && f.limit is None {
        assert forall|q: int|
            0 <= q < s.len() && may_find(#[trigger] s[q], mode, filter, context, query@)
                && has_what_is_asked(s[q], f, before, after) implies out@.contains(s[q]) by {
            assert(may_find(s[q], mode, filter, context, query@));
            assert(at.contains(q));
            let r = at.index_of(q);
            assert(list[r] == s[at[r]]);
            assert(has_what_is_asked(list[r], f, before, after));
            assert(all.contains(r));
            let k = all.index_of(r);
            let i = if f.reverse {
                all.len() - 1 - k
            } else {
                k
            };
            assert(filtered(list, f, before, after)[i] == list[all[k]]);
        }
    }
    (before, after)
}

} // verus!

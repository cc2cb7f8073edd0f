//! What is known of a command, in terms of the entries of the history.
use vstd::prelude::*;

use crate::clock::Timestamp;
use crate::counts::has_command;
use crate::database::{instants, is_live};
use crate::history::{History, HistoryStats};
use crate::numbers::{decimal, lemma_wrapped_add};
use crate::places::{
    are_all_places, are_places, key_before, lemma_filter_all_places, lemma_filter_both,
    lemma_sorted_all_places,
};
use crate::stats::{
    all_dated, date_on, day_items, exit_items, has_session, id_position, is_stats_of, law_run_dated,
    month_items, runs_of, session_entries, took_time, total_duration,
};
use crate::tally::{comes_first, has_key, number_less, text_items, text_less, total_for};

verus! {

/// Whether the entry at `a` was started before the one at `b`, or at the same time and stands
/// before it in the history.
pub open spec fn sooner(s: Seq<History>, a: int, b: int) -> bool {
    s[a].timestamp.nanos < s[b].timestamp.nanos || (s[a].timestamp.nanos == s[b].timestamp.nanos
        && a < b)
}

/// Whether the entry at `q` is of the session of `h` and not deleted.
pub open spec fn of_session(s: Seq<History>, h: History, q: int) -> bool {
    0 <= q < s.len() && s[q].session@ == h.session@ && s[q].deleted_at is None
}

/// Whether the entry at `p` is the one that is asked about: it has the id, is of the session and
/// not deleted, and comes before any other of which that holds.
pub open spec fn is_asked(s: Seq<History>, h: History, p: int) -> bool {
    &&& of_session(s, h, p)
    &&& s[p].id@ == h.id@
    &&& forall|q: int|
        #[trigger] of_session(s, h, q) && s[q].id@ == h.id@ ==> q == p || sooner(s, p, q)
}

spec fn started() -> spec_fn(History) -> int {
    |h: History| h.timestamp.nanos as int
}

spec fn live_in_session(session: Seq<char>) -> spec_fn(History) -> bool {
    |h: History| h.deleted_at is None && h.session@ == session
}

proof fn lemma_session_places(s: Seq<History>, session: Seq<char>) -> (at: Seq<int>)
    requires
        s.len() <= usize::MAX,
    ensures
        at.len() == session_entries(s, session).len(),
        forall|i: int|
            0 <= i < at.len() ==> session_entries(s, session)[i] == s[#[trigger] at[i]],
        are_places(s, live_in_session(session), started(), at),
        are_all_places(s, live_in_session(session), at),
{
    let both = live_in_session(session);
    lemma_filter_both(s, is_live(), has_session(session), both);
    let kept = s.filter(both);
    let keys = instants(kept);
    assert forall|i: int| 0 <= i < keys.len() implies #[trigger] keys[i] == started()(kept[i]) by {}
    lemma_sorted_all_places(s, both, started(), keys)
}

proof fn lemma_position_of_id(s: Seq<History>, id: Seq<char>)
    ensures
        0 <= id_position(s, id) <= s.len(),
        id_position(s, id) < s.len() ==> s[id_position(s, id)].id@ == id,
        forall|j: int| 0 <= j < id_position(s, id) ==> (#[trigger] s[j]).id@ != id,
    decreases s.len(),
{
    if s.len() > 0 && s[0].id@ != id {
        let rest = s.skip(1);
        lemma_position_of_id(rest, id);
        assert forall|j: int| 0 <= j < id_position(s, id) implies (#[trigger] s[j]).id@ != id by {
            if j > 0 {
                assert(rest[j - 1] == s[j]);
            }
        }
    }
}

/// What was run next in the session, and what was run before: where the entry asked about is in
/// the history, there is no next one only if no other entry of the session comes after it, and
/// none stands between it and the next one, whatever its code, its command or its duration; the
/// same holds of the one before.
pub proof fn law_next_and_previous(stats: HistoryStats, s: Seq<History>, h: History, p: int)
    requires
        is_stats_of(stats, s, h),
        s.len() <= usize::MAX,
        is_asked(s, h, p),
    ensures
        stats.next is None ==> forall|q: int|
            #[trigger] of_session(s, h, q) && q != p ==> sooner(s, q, p),
        stats.next matches Some(n) ==> exists|k: int|
            #[trigger] of_session(s, h, k) && s[k] == n && sooner(s, p, k) && forall|q: int|
                #[trigger] of_session(s, h, q) ==> q == p || q == k || sooner(s, q, p) || sooner(
                    s,
                    k,
                    q,
                ),
        stats.previous is None ==> forall|q: int|
            #[trigger] of_session(s, h, q) && q != p ==> sooner(s, p, q),
        stats.previous matches Some(n) ==> exists|k: int|
            #[trigger] of_session(s, h, k) && s[k] == n && sooner(s, k, p) && forall|q: int|
                #[trigger] of_session(s, h, q) ==> q == p || q == k || sooner(s, q, k) || sooner(
                    s,
                    p,
                    q,
                ),
{
    let pick = live_in_session(h.session@);
    let session = session_entries(s, h.session@);
    let at = lemma_session_places(s, h.session@);
    lemma_position_of_id(session, h.id@);
    let i = id_position(session, h.id@);
    assert(pick(s[p]));
    assert(at.contains(p));
    let k = at.index_of(p);
    assert(session[k] == s[at[k]]);
    assert(i <= k);
    assert(session[i] == s[at[i]]);
    assert(pick(s[at[i]]));
    assert(of_session(s, h, at[i]));
    if i < k {
        assert(key_before(s, started(), at[i], at[k]));
    }
    assert(i == k);
    assert forall|q: int| #[trigger] of_session(s, h, q) implies exists|j: int|
        0 <= j < at.len() && #[trigger] at[j] == q by {
        assert(pick(s[q]));
        assert(at.contains(q));
        let j = at.index_of(q);
        assert(at[j] == q);
    }
    if i + 1 < session.len() {
        let n = at[i + 1];
        assert(session[i + 1] == s[n]);
        assert(pick(s[n]));
        assert(of_session(s, h, n));
        assert(key_before(s, started(), at[i], at[i + 1]));
        assert forall|q: int| #[trigger] of_session(s, h, q) implies q == p || q == n || sooner(
            s,
            q,
            p,
        ) || sooner(s, n, q) by {
            let j = choose|j: int| 0 <= j < at.len() && #[trigger] at[j] == q;
            if j < i {
                assert(key_before(s, started(), at[j], at[i]));
            } else if j > i + 1 {
                assert(key_before(s, started(), at[i + 1], at[j]));
            }
        }
    } else {
        assert forall|q: int| #[trigger] of_session(s, h, q) && q != p implies sooner(s, q, p) by {
            let j = choose|j: int| 0 <= j < at.len() && #[trigger] at[j] == q;
            assert(key_before(s, started(), at[j], at[i]));
        }
    }
    if 0 < i {
        let n = at[i - 1];
        assert(session[i - 1] == s[n]);
        assert(pick(s[n]));
        assert(of_session(s, h, n));
        assert(key_before(s, started(), at[i - 1], at[i]));
        assert forall|q: int| #[trigger] of_session(s, h, q) implies q == p || q == n || sooner(
            s,
            q,
            n,
        ) || sooner(s, p, q) by {
            let j = choose|j: int| 0 <= j < at.len() && #[trigger] at[j] == q;
            if j > i {
                assert(key_before(s, started(), at[i], at[j]));
            } else if j < i - 1 {
                assert(key_before(s, started(), at[j], at[i - 1]));
            }
        }
    } else {
        assert forall|q: int| #[trigger] of_session(s, h, q) && q != p implies sooner(s, p, q) by {
            let j = choose|j: int| 0 <= j < at.len() && #[trigger] at[j] == q;
            assert(key_before(s, started(), at[i], at[j]));
        }
    }
}

/// Where no entry of the session has the id, nothing is known to have been run before or after.
pub proof fn law_unknown_entry_stands_alone(stats: HistoryStats, s: Seq<History>, h: History)
    requires
        is_stats_of(stats, s, h),
        s.len() <= usize::MAX,
        forall|q: int| #[trigger] of_session(s, h, q) ==> s[q].id@ != h.id@,
    ensures
        stats.next is None,
        stats.previous is None,
{
    let session = session_entries(s, h.session@);
    let at = lemma_session_places(s, h.session@);
    lemma_position_of_id(session, h.id@);
    let i = id_position(session, h.id@);
    if i < session.len() {
        assert(session[i] == s[at[i]]);
        assert(live_in_session(h.session@)(s[at[i]]));
        assert(of_session(s, h, at[i]));
    }
}

/// Whether the entry at `q` has the command of `h` and is not deleted.
pub open spec fn is_run(s: Seq<History>, h: History, q: int) -> bool {
    0 <= q < s.len() && s[q].command@ == h.command@ && s[q].deleted_at is None
}

/// Whether `all` are the positions of all entries with the command of `h` that are not deleted.
pub open spec fn are_runs(s: Seq<History>, h: History, all: Seq<int>) -> bool {
    &&& forall|i: int| 0 <= i < all.len() ==> is_run(s, h, #[trigger] all[i])
    &&& forall|i: int, j: int| 0 <= i < j < all.len() ==> #[trigger] all[i] < #[trigger] all[j]
    &&& forall|q: int| #[trigger] is_run(s, h, q) ==> all.contains(q)
}

/// What amounts add up to over those of the entries at the positions `all` that `p` picks out.
pub open spec fn amount(
    s: Seq<History>,
    all: Seq<int>,
    p: spec_fn(History) -> bool,
    of: spec_fn(History) -> int,
) -> int
    decreases all.len(),
{
    if all.len() == 0 {
        0
    } else {
        amount(s, all.drop_last(), p, of) + if p(s[all.last()]) {
            of(s[all.last()])
        } else {
            0
        }
    }
}

/// Counts one for each entry.
pub open spec fn one_each() -> spec_fn(History) -> int {
    |h: History| 1
}

/// Counts how long each entry took.
pub open spec fn its_duration() -> spec_fn(History) -> int {
    |h: History| h.duration as int
}

/// Picks out the entries that took some time.
pub open spec fn timed() -> spec_fn(History) -> bool {
    |h: History| h.duration > 0
}

/// Picks out the entries that ended with a code.
pub open spec fn ended_with(code: i64) -> spec_fn(History) -> bool {
    |h: History| h.exit == code
}

/// The day of the week of a time by its own clock, 0 for Sunday: 1970-01-01 was a Thursday.
pub open spec fn weekday_of(t: Timestamp) -> int {
    ((t.nanos + t.offset * 1_000_000_000) / 86_400_000_000_000 + 4) % 7
}

/// Picks out the entries of a day of the week.
pub open spec fn on_weekday(day: int) -> spec_fn(History) -> bool {
    |h: History| weekday_of(h.timestamp) == day
}

/// The first day of a month as text, for years of four digits: `01-MM-YYYY`.
pub open spec fn month_key(year: int, month: int) -> Seq<char> {
    seq![
        '0',
        '1',
        '-',
        (48 + month / 10) as char,
        (48 + month % 10) as char,
        '-',
        (48 + year / 1000) as char,
        (48 + year / 100 % 10) as char,
        (48 + year / 10 % 10) as char,
        (48 + year % 10) as char,
    ]
}

/// The runs of a command are all entries of the history with it that are not deleted: `all`
/// tells where they stand.
proof fn lemma_runs(s: Seq<History>, h: History) -> (all: Seq<int>)
    ensures
        are_runs(s, h, all),
        all.len() == runs_of(s, h.command@).len(),
        forall|i: int| 0 <= i < all.len() ==> runs_of(s, h.command@)[i] == s[#[trigger] all[i]],
{
    let both = |x: History| x.deleted_at is None && x.command@ == h.command@;
    lemma_filter_both(s, is_live(), has_command(h.command@), both);
    let all = lemma_filter_all_places(s, both);
    assert forall|i: int| 0 <= i < all.len() implies is_run(s, h, #[trigger] all[i]) by {
        assert(both(s[all[i]]));
    }
    assert forall|q: int| #[trigger] is_run(s, h, q) implies all.contains(q) by {
        assert(both(s[q]));
    }
    all
}

proof fn lemma_total_for<K>(
    s: Seq<History>,
    all: Seq<int>,
    items: Seq<(K, i64)>,
    key: K,
    p: spec_fn(History) -> bool,
    of: spec_fn(History) -> int,
)
    requires
        items.len() == all.len(),
        forall|i: int|
            0 <= i < all.len() ==> ((#[trigger] items[i]).0 == key) == p(s[all[i]]) && (p(s[all[i]])
                ==> items[i].1 == of(s[all[i]])),
    ensures
        total_for(items, key) == amount(s, all, p, of),
    decreases all.len(),
{
    if all.len() > 0 {
        let n = all.len() - 1;
        assert forall|i: int| 0 <= i < all.drop_last().len() implies ((
        #[trigger] items.drop_last()[i]).0 == key) == p(s[all.drop_last()[i]]) && (p(
            s[all.drop_last()[i]],
        ) ==> items.drop_last()[i].1 == of(s[all.drop_last()[i]])) by {
            assert(items.drop_last()[i] == items[i] && all.drop_last()[i] == all[i]);
        }
        lemma_total_for(s, all.drop_last(), items.drop_last(), key, p, of);
        assert((items[n].0 == key) == p(s[all[n]]));
    }
}

proof fn lemma_count_bounds(s: Seq<History>, all: Seq<int>, p: spec_fn(History) -> bool)
    ensures
        0 <= amount(s, all, p, one_each()) <= all.len(),
    decreases all.len(),
{
    if all.len() > 0 {
        lemma_count_bounds(s, all.drop_last(), p);
    }
}

/// How often a command was run is how many entries of the history have it that are not deleted;
/// the codes that it ended with are all of theirs, each once, smallest first, and with how many
/// of them ended with it.
pub proof fn law_runs_and_exits(stats: HistoryStats, s: Seq<History>, h: History) -> (all: Seq<int>)
    requires
        is_stats_of(stats, s, h),
        s.len() <= i64::MAX,
    ensures
        are_runs(s, h, all),
        stats.total == all.len(),
        forall|k: int|
            0 <= k < stats.exits.len() ==> (#[trigger] stats.exits@[k]).1 == amount(
                s,
                all,
                ended_with(stats.exits@[k].0),
                one_each(),
            ) && stats.exits@[k].1 > 0,
        forall|i: int|
            0 <= i < all.len() ==> exists|k: int|
                0 <= k < stats.exits.len() && (#[trigger] stats.exits@[k]).0 == s[
                    #[trigger] all[i]].exit,
        forall|k: int, l: int|
            0 <= k < l < stats.exits.len() ==> (#[trigger] stats.exits@[k]).0 < (
            #[trigger] stats.exits@[l]).0,
{
    let all = lemma_runs(s, h);
    let runs = runs_of(s, h.command@);
    let items = exit_items(runs);
    let sums = stats.exits@;
    lemma_runs_len(s, h);
    assert forall|k: int| 0 <= k < sums.len() implies (#[trigger] sums[k]).1 == amount(
        s,
        all,
        ended_with(sums[k].0),
        one_each(),
    ) && sums[k].1 > 0 by {
        let code = sums[k].0;
        assert forall|i: int| 0 <= i < all.len() implies ((#[trigger] items[i]).0 == code)
            == ended_with(code)(s[all[i]]) && (ended_with(code)(s[all[i]]) ==> items[i].1
            == one_each()(s[all[i]])) by {
            assert(runs[i] == s[all[i]]);
        }
        lemma_total_for(s, all, items, code, ended_with(code), one_each());
        lemma_count_bounds(s, all, ended_with(code));
        lemma_wrapped_add(total_for(items, code), 0);
        assert(has_key(sums, code));
        assert(has_key(items, code));
        let i = choose|i: int| 0 <= i < items.len() && (#[trigger] items[i]).0 == code;
        lemma_amount_positive(s, all, ended_with(code), i);
    }
    assert forall|i: int| 0 <= i < all.len() implies exists|k: int|
        0 <= k < sums.len() && (#[trigger] sums[k]).0 == s[#[trigger] all[i]].exit by {
        assert(runs[i] == s[all[i]]);
        assert(items[i].0 == s[all[i]].exit);
        assert(has_key(items, items[i].0));
        assert(has_key(sums, items[i].0));
    }
    assert forall|k: int, l: int| 0 <= k < l < sums.len() implies (#[trigger] sums[k]).0 < (
    #[trigger] sums[l]).0 by {
        assert(number_less()(sums[k].0, sums[l].0));
    }
    all
}

proof fn lemma_amount_positive(
    s: Seq<History>,
    all: Seq<int>,
    p: spec_fn(History) -> bool,
    i: int,
)
    requires
        0 <= i < all.len(),
        p(s[all[i]]),
    ensures
        amount(s, all, p, one_each()) > 0,
    decreases all.len(),
{
    lemma_count_bounds(s, all.drop_last(), p);
    if i < all.len() - 1 {
        assert(all.drop_last()[i] == all[i]);
        lemma_amount_positive(s, all.drop_last(), p, i);
    }
}

proof fn lemma_runs_len(s: Seq<History>, h: History)
    ensures
        runs_of(s, h.command@).len() <= s.len(),
{
    s.lemma_filter_len(is_live());
    s.filter(is_live()).lemma_filter_len(has_command(h.command@));
}

/// A digit as a character.
pub proof fn lemma_digit_char(d: int)
    requires
        0 <= d < 10,
    ensures
        crate::numbers::digit_of(d) == (48 + d) as char,
        ((48 + d) as char) as int == 48 + d,
{
}

/// The days of the week on which a command was run are all of theirs, by their own clocks, as a
/// digit from 0 for Sunday, each once, smallest first, and with how often it was run on it.
pub proof fn law_weekdays(stats: HistoryStats, s: Seq<History>, h: History, all: Seq<int>)
    requires
        is_stats_of(stats, s, h),
        all_dated(s),
        s.len() <= i64::MAX,
        are_runs(s, h, all),
    ensures
        forall|k: int|
            0 <= k < stats.day_of_week.len() ==> exists|day: int|
                0 <= day <= 6 && (#[trigger] stats.day_of_week@[k]).0@ == seq![(48 + day) as char]
                    && stats.day_of_week@[k].1 == #[trigger] amount(
                    s,
                    all,
                    on_weekday(day),
                    one_each(),
                ) && stats.day_of_week@[k].1 > 0,
        forall|i: int|
            0 <= i < all.len() ==> exists|k: int|
                0 <= k < stats.day_of_week.len() && (#[trigger] stats.day_of_week@[k]).0@ == seq![
                    (48 + weekday_of(s[#[trigger] all[i]].timestamp)) as char,
                ],
        forall|k: int, l: int|
            0 <= k < l < stats.day_of_week.len() ==> (#[trigger] stats.day_of_week@[k]).0@[0] < (
            #[trigger] stats.day_of_week@[l]).0@[0],
{
    let runs = runs_of(s, h.command@);
    let mine = lemma_runs(s, h);
    lemma_same_runs(s, h, all, mine);
    lemma_runs_len(s, h);
    let items = day_items(runs);
    let sums = text_items(stats.day_of_week@);
    assert forall|i: int| 0 <= i < all.len() implies (#[trigger] items[i]).0 == seq![
        (48 + weekday_of(s[all[i]].timestamp)) as char,
    ] && items[i].1 == 1 && 0 <= weekday_of(s[all[i]].timestamp) <= 6 by {
        assert(runs[i] == s[all[i]]);
        assert(is_run(s, h, all[i]));
        let t = s[all[i]].timestamp;
        law_run_dated(t);
        assert(date_on(t).weekday == weekday_of(t));
        lemma_digit_char(weekday_of(t));
    }
    assert forall|k: int| 0 <= k < stats.day_of_week.len() implies exists|day: int|
        0 <= day <= 6 && (#[trigger] stats.day_of_week@[k]).0@ == seq![(48 + day) as char]
            && stats.day_of_week@[k].1 == #[trigger] amount(s, all, on_weekday(day), one_each())
            && stats.day_of_week@[k].1 > 0 by {
        let key = sums[k].0;
        assert(key == stats.day_of_week@[k].0@);
        assert(has_key(sums, key));
        assert(has_key(items, key));
        let j = choose|j: int| 0 <= j < items.len() && (#[trigger] items[j]).0 == key;
        let day = weekday_of(s[all[j]].timestamp);
        assert forall|i: int| 0 <= i < all.len() implies ((#[trigger] items[i]).0 == key)
            == on_weekday(day)(s[all[i]]) && (on_weekday(day)(s[all[i]]) ==> items[i].1
            == one_each()(s[all[i]])) by {
            let d = weekday_of(s[all[i]].timestamp);
            lemma_digit_char(d);
            lemma_digit_char(day);
            assert(items[i].0[0] == (48 + d) as char);
            assert(key[0] == (48 + day) as char);
        }
        lemma_total_for(s, all, items, key, on_weekday(day), one_each());
        lemma_count_bounds(s, all, on_weekday(day));
        lemma_wrapped_add(total_for(items, key), 0);
        lemma_amount_positive(s, all, on_weekday(day), j);
        assert(sums[k].1 == amount(s, all, on_weekday(day), one_each()));
    }
    assert forall|i: int| 0 <= i < all.len() implies exists|k: int|
        0 <= k < stats.day_of_week.len() && (#[trigger] stats.day_of_week@[k]).0@ == seq![
            (48 + weekday_of(s[#[trigger] all[i]].timestamp)) as char,
        ] by {
        assert(has_key(items, items[i].0));
        assert(has_key(sums, items[i].0));
        let k = choose|k: int| 0 <= k < sums.len() && (#[trigger] sums[k]).0 == items[i].0;
        assert(stats.day_of_week@[k].0@ == sums[k].0);
    }
    assert forall|k: int, l: int| 0 <= k < l < stats.day_of_week.len() implies (
    #[trigger] stats.day_of_week@[k]).0@[0] < (#[trigger] stats.day_of_week@[l]).0@[0] by {
        assert(text_less()(sums[k].0, sums[l].0));
        assert(has_key(sums, sums[k].0) && has_key(sums, sums[l].0));
        assert(has_key(items, sums[k].0) && has_key(items, sums[l].0));
        let a = choose|j: int| 0 <= j < items.len() && (#[trigger] items[j]).0 == sums[k].0;
        let b = choose|j: int| 0 <= j < items.len() && (#[trigger] items[j]).0 == sums[l].0;
        assert(items[a].0.len() == 1 && items[b].0.len() == 1);
        let x = sums[k].0;
        let y = sums[l].0;
        assert(x == stats.day_of_week@[k].0@ && y == stats.day_of_week@[l].0@);
        assert(comes_first(x, y));
        assert(x.drop_first().len() == 0 && y.drop_first().len() == 0);
        assert(!comes_first(x.drop_first(), y.drop_first()));
    }
}

/// There is one list of all runs.
proof fn lemma_same_runs(s: Seq<History>, h: History, a: Seq<int>, b: Seq<int>)
    requires
        are_runs(s, h, a),
        are_runs(s, h, b),
    ensures
        a == b,
    decreases a.len() + b.len(),
{
    if a.len() == 0 {
        if b.len() > 0 {
            assert(is_run(s, h, b[0]));
            assert(a.contains(b[0]));
        }
        assert(a =~= b);
    } else {
        assert(is_run(s, h, a[0]));
        assert(b.contains(a[0]));
        lemma_same_upto(s, h, a, b, a.len() as int);
        lemma_same_upto(s, h, b, a, b.len() as int);
        assert(a.len() == b.len()) by {
            if a.len() < b.len() {
                assert(b[b.len() - 1] == a[b.len() - 1]);
            }
        }
        assert(a =~= b);
    }
}

/// The first `n` of one list of all runs are those of another.
proof fn lemma_same_upto(s: Seq<History>, h: History, a: Seq<int>, b: Seq<int>, n: int)
    requires
        are_runs(s, h, a),
        are_runs(s, h, b),
        0 <= n <= a.len(),
    ensures
        n <= b.len(),
        forall|i: int| 0 <= i < n ==> #[trigger] a[i] == b[i],
    decreases n,
{
    if n > 0 {
        let m = n - 1;
        lemma_same_upto(s, h, a, b, m);
        assert(is_run(s, h, a[m]));
        assert(b.contains(a[m]));
        let k = b.index_of(a[m]);
        assert(b[k] == a[m]);
        if k < m {
            assert(a[k] == b[k]);
            assert(a[k] < a[m]);
        }
        assert(m < b.len());
        if k > m {
            assert(b[m] < b[k]);
            assert(is_run(s, h, b[m]));
            assert(a.contains(b[m]));
            let j = a.index_of(b[m]);
            assert(a[j] == b[m]);
            if j < m {
                assert(a[j] == b[j]);
                assert(b[j] < b[m]);
            } else if j > m {
                assert(a[m] < a[j]);
            }
        }
    }
}

proof fn lemma_timed(s: Seq<History>, all: Seq<int>, runs: Seq<History>)
    requires
        runs.len() == all.len(),
        forall|i: int| 0 <= i < all.len() ==> runs[i] == s[#[trigger] all[i]],
    ensures
        runs.filter(took_time()).len() == amount(s, all, timed(), one_each()),
        total_duration(runs.filter(took_time())) == amount(s, all, timed(), its_duration()),
    decreases all.len(),
{
    reveal(Seq::filter);
    if all.len() > 0 {
        let n = all.len() - 1;
        assert forall|i: int| 0 <= i < all.drop_last().len() implies runs.drop_last()[i] == s[
            #[trigger] all.drop_last()[i]] by {
            assert(runs[i] == s[all[i]]);
        }
        lemma_timed(s, all.drop_last(), runs.drop_last());
        assert(runs[n] == s[all[n]]);
        let front = runs.drop_last().filter(took_time());
        if took_time()(runs.last()) {
            assert(front.push(runs.last()).drop_last() =~= front);
        }
    }
}

/// How long a command took on average is what the durations above nothing of all its runs add up
/// to, divided by how many those are, the rest dropped; nothing where there are none.
pub proof fn law_average(stats: HistoryStats, s: Seq<History>, h: History, all: Seq<int>)
    requires
        is_stats_of(stats, s, h),
        are_runs(s, h, all),
        amount(s, all, timed(), its_duration()) <= i64::MAX,
    ensures
        amount(s, all, timed(), one_each()) == 0 ==> stats.average_duration == 0,
        amount(s, all, timed(), one_each()) > 0 ==> stats.average_duration == amount(
            s,
            all,
            timed(),
            its_duration(),
        ) / amount(s, all, timed(), one_each()),
{
    let runs = runs_of(s, h.command@);
    let mine = lemma_runs(s, h);
    lemma_same_runs(s, h, all, mine);
    lemma_timed(s, all, runs);
    lemma_timed_positive(s, all);
    let total = amount(s, all, timed(), its_duration());
    let n = amount(s, all, timed(), one_each());
    lemma_wrapped_add(total, 0);
    if n > 0 {
        assert(0 <= total / n <= total) by (nonlinear_arith)
            requires
                total >= 0,
                n > 0,
        ;
    }
}

proof fn lemma_timed_positive(s: Seq<History>, all: Seq<int>)
    ensures
        amount(s, all, timed(), its_duration()) >= 0,
    decreases all.len(),
{
    if all.len() > 0 {
        lemma_timed_positive(s, all.drop_last());
    }
}

/// Picks out the entries of a month, by their own clocks.
pub open spec fn in_month(year: int, month: int) -> spec_fn(History) -> bool {
    |h: History| date_on(h.timestamp).year == year && date_on(h.timestamp).month == month
}

/// A number below a hundred as two digits.
pub proof fn lemma_two_digits(n: int)
    requires
        0 <= n < 100,
    ensures
        crate::numbers::zero_padded(n as nat, 2) == seq![
            (48 + n / 10) as char,
            (48 + n % 10) as char,
        ],
{
    lemma_digit_char(n % 10);
    lemma_digit_char(n / 10);
    reveal_with_fuel(decimal, 2);
    assert(crate::numbers::zero_padded(n as nat, 2) =~= seq![
        (48 + n / 10) as char,
        (48 + n % 10) as char,
    ]);
}

proof fn lemma_four_digits(n: int)
    requires
        0 <= n < 10000,
    ensures
        crate::numbers::zero_padded(n as nat, 4) == seq![
            (48 + n / 1000) as char,
            (48 + n / 100 % 10) as char,
            (48 + n / 10 % 10) as char,
            (48 + n % 10) as char,
        ],
{
    lemma_digit_char(n % 10);
    lemma_digit_char(n / 10 % 10);
    lemma_digit_char(n / 100 % 10);
    lemma_digit_char(n / 1000);
    reveal_with_fuel(decimal, 4);
    assert(n / 10 / 10 == n / 100 && n / 10 / 10 / 10 == n / 1000);
    assert(crate::numbers::zero_padded(n as nat, 4) =~= seq![
        (48 + n / 1000) as char,
        (48 + n / 100 % 10) as char,
        (48 + n / 10 % 10) as char,
        (48 + n % 10) as char,
    ]);
}

proof fn lemma_month_keys_differ(y: int, m: int, z: int, n: int)
    requires
        0 <= y < 10000,
        0 <= z < 10000,
        1 <= m <= 12,
        1 <= n <= 12,
        month_key(y, m) == month_key(z, n),
    ensures
        y == z,
        m == n,
{
    let a = month_key(y, m);
    let b = month_key(z, n);
    assert(a[3] == b[3] && a[4] == b[4] && a[6] == b[6] && a[7] == b[7] && a[8] == b[8] && a[9]
        == b[9]);
    lemma_digit_char(m / 10);
    lemma_digit_char(m % 10);
    lemma_digit_char(n / 10);
    lemma_digit_char(n % 10);
    lemma_digit_char(y / 1000);
    lemma_digit_char(y / 100 % 10);
    lemma_digit_char(y / 10 % 10);
    lemma_digit_char(y % 10);
    lemma_digit_char(z / 1000);
    lemma_digit_char(z / 100 % 10);
    lemma_digit_char(z / 10 % 10);
    lemma_digit_char(z % 10);
}

/// The months in which a command was run are all of theirs, by their own clocks, as the first day
/// of the month in text, each once, and with what the durations of all runs in it add up to. The
/// runs are of years with no more than four digits and no sign.
pub proof fn law_months(stats: HistoryStats, s: Seq<History>, h: History, all: Seq<int>)
    requires
        is_stats_of(stats, s, h),
        all_dated(s),
        are_runs(s, h, all),
        forall|i: int| 0 <= i < all.len() ==> date_on(s[#[trigger] all[i]].timestamp).year >= 0,
    ensures
        forall|k: int|
            0 <= k < stats.duration_over_time.len() ==> exists|year: int, month: int|
                (#[trigger] stats.duration_over_time@[k]).0@ == month_key(year, month) && ({
                    let sum = #[trigger] amount(s, all, in_month(year, month), its_duration());
                    i64::MIN <= sum <= i64::MAX ==> stats.duration_over_time@[k].1 == sum
                }),
        forall|i: int|
            0 <= i < all.len() ==> exists|k: int|
                0 <= k < stats.duration_over_time.len() && (
                #[trigger] stats.duration_over_time@[k]).0@ == month_key(
                    date_on(s[#[trigger] all[i]].timestamp).year as int,
                    date_on(s[all[i]].timestamp).month as int,
                ),
        forall|k: int, l: int|
            0 <= k < l < stats.duration_over_time.len() ==> (
            #[trigger] stats.duration_over_time@[k]).0@ != (
            #[trigger] stats.duration_over_time@[l]).0@,
{
    let runs = runs_of(s, h.command@);
    let mine = lemma_runs(s, h);
    lemma_same_runs(s, h, all, mine);
    let items = month_items(runs);
    let sums = text_items(stats.duration_over_time@);
    assert forall|i: int| 0 <= i < all.len() implies (#[trigger] items[i]).0 == month_key(
        date_on(s[all[i]].timestamp).year as int,
        date_on(s[all[i]].timestamp).month as int,
    ) && items[i].1 == s[all[i]].duration && 1 <= date_on(s[all[i]].timestamp).month <= 12 && 0
        <= date_on(s[all[i]].timestamp).year < 10000 by {
        assert(runs[i] == s[all[i]]);
        assert(is_run(s, h, all[i]));
        let t = s[all[i]].timestamp;
        law_run_dated(t);
        crate::stats::law_date_exists(t.local() / crate::clock::DAY as int);
        let date = date_on(t);
        lemma_two_digits(date.month as int);
        lemma_four_digits(date.year as int);
        assert(crate::stats::month_text(date) =~= month_key(date.year as int, date.month as int));
    }
    assert forall|k: int| 0 <= k < stats.duration_over_time.len() implies exists|
        year: int,
        month: int,
    |
        (#[trigger] stats.duration_over_time@[k]).0@ == month_key(year, month) && ({
            let sum = #[trigger] amount(s, all, in_month(year, month), its_duration());
            i64::MIN <= sum <= i64::MAX ==> stats.duration_over_time@[k].1 == sum
        }) by {
        let key = sums[k].0;
        assert(key == stats.duration_over_time@[k].0@);
        assert(has_key(sums, key));
        assert(has_key(items, key));
        let j = choose|j: int| 0 <= j < items.len() && (#[trigger] items[j]).0 == key;
        let year = date_on(s[all[j]].timestamp).year as int;
        let month = date_on(s[all[j]].timestamp).month as int;
        let p = in_month(year, month);
        assert forall|i: int| 0 <= i < all.len() implies ((#[trigger] items[i]).0 == key) == p(
            s[all[i]],
        ) && (p(s[all[i]]) ==> items[i].1 == its_duration()(s[all[i]])) by {
            let date = date_on(s[all[i]].timestamp);
            if items[i].0 == key {
                lemma_month_keys_differ(date.year as int, date.month as int, year, month);
            }
        }
        lemma_total_for(s, all, items, key, p, its_duration());
        lemma_wrapped_add(total_for(items, key), 0);
        assert(sums[k].1 == stats.duration_over_time@[k].1);
        let sum = amount(s, all, in_month(year, month), its_duration());
        assert(i64::MIN <= sum <= i64::MAX ==> stats.duration_over_time@[k].1 == sum);
    }
    assert forall|i: int| 0 <= i < all.len() implies exists|k: int|
        0 <= k < stats.duration_over_time.len() && (#[trigger] stats.duration_over_time@[k]).0@
            == month_key(
            date_on(s[#[trigger] all[i]].timestamp).year as int,
            date_on(s[all[i]].timestamp).month as int,
        ) by {
        assert(has_key(items, items[i].0));
        assert(has_key(sums, items[i].0));
        let k = choose|k: int| 0 <= k < sums.len() && (#[trigger] sums[k]).0 == items[i].0;
        assert(stats.duration_over_time@[k].0@ == sums[k].0);
    }
    assert forall|k: int, l: int| 0 <= k < l < stats.duration_over_time.len() implies (
    #[trigger] stats.duration_over_time@[k]).0@ != (#[trigger] stats.duration_over_time@[l]).0@ by {
        assert(text_less()(sums[k].0, sums[l].0));
        crate::tally::lemma_one_comes_first(sums[k].0, sums[k].0);
        assert(sums[k].0 == stats.duration_over_time@[k].0@);
        assert(sums[l].0 == stats.duration_over_time@[l].0@);
    }
}

} // verus!

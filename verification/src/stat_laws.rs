//! What holds of all that is known of a command.
use vstd::prelude::*;

use crate::database::{earliest_first, instants, is_live};
use crate::history::{History, HistoryStats};
use crate::numbers::wrapped_i64;
use crate::order::{comes_before, lemma_sorted_places};
use crate::stats::{
    day_items, exit_items, has_session, id_position, is_stats_of, runs_of, session_entries,
};
use crate::tally::{has_key, is_tally, number_less, text_items, text_less, total_for};

verus! {

/// What all amounts add up to.
pub open spec fn sum_of<K>(items: Seq<(K, i64)>) -> int
    decreases items.len(),
{
    if items.len() == 0 {
        0
    } else {
        sum_of(items.drop_last()) + items.last().1
    }
}

/// What the amounts under the keys of the first `n` of `sums` add up to.
spec fn sum_under<K>(sums: Seq<(K, i64)>, items: Seq<(K, i64)>, n: int) -> int
    decreases n,
{
    if n <= 0 {
        0
    } else {
        sum_under(sums, items, n - 1) + total_for(items, sums[n - 1].0)
    }
}

/// Whether no key comes twice.
spec fn keys_differ<K>(sums: Seq<(K, i64)>) -> bool {
    forall|i: int, j: int|
        0 <= i < j < sums.len() ==> (#[trigger] sums[i]).0 != (#[trigger] sums[j]).0
}

/// One more item counts under its key and under no other.
proof fn lemma_sum_under_one_more<K>(sums: Seq<(K, i64)>, items: Seq<(K, i64)>, at: int, n: int)
    requires
        items.len() > 0,
        keys_differ(sums),
        0 <= at < sums.len(),
        sums[at].0 == items.last().0,
        0 <= n <= sums.len(),
    ensures
        sum_under(sums, items, n) == sum_under(sums, items.drop_last(), n) + (if at < n {
            items.last().1 as int
        } else {
            0
        }),
    decreases n,
{
    if n > 0 {
        lemma_sum_under_one_more(sums, items, at, n - 1);
        if at < n - 1 {
            assert(sums[at].0 != sums[n - 1].0);
        } else if n - 1 < at {
            assert(sums[n - 1].0 != sums[at].0);
        }
    }
}

proof fn lemma_sum_under_none<K>(sums: Seq<(K, i64)>, n: int)
    requires
        0 <= n <= sums.len(),
    ensures
        sum_under(sums, Seq::empty(), n) == 0,
    decreases n,
{
    if n > 0 {
        lemma_sum_under_none(sums, n - 1);
    }
}

/// Where every item is under one of the keys, what is under the keys adds up to all there is.
proof fn lemma_sum_under_all<K>(sums: Seq<(K, i64)>, items: Seq<(K, i64)>)
    requires
        keys_differ(sums),
        forall|i: int| 0 <= i < items.len() ==> has_key(sums, (#[trigger] items[i]).0),
    ensures
        sum_under(sums, items, sums.len() as int) == sum_of(items),
    decreases items.len(),
{
    if items.len() == 0 {
        assert(items =~= Seq::empty());
        lemma_sum_under_none(sums, sums.len() as int);
    } else {
        let front = items.drop_last();
        assert forall|i: int| 0 <= i < front.len() implies has_key(
            sums,
            (#[trigger] front[i]).0,
        ) by {
            assert(front[i] == items[i]);
        }
        lemma_sum_under_all(sums, front);
        let last = items[items.len() - 1];
        assert(has_key(sums, last.0));
        let at = choose|i: int| 0 <= i < sums.len() && (#[trigger] sums[i]).0 == last.0;
        lemma_sum_under_one_more(sums, items, at, sums.len() as int);
    }
}

/// Whether every item counts one.
spec fn ones<K>(items: Seq<(K, i64)>) -> bool {
    forall|i: int| 0 <= i < items.len() ==> (#[trigger] items[i]).1 == 1
}

proof fn lemma_total_of_ones<K>(items: Seq<(K, i64)>, key: K)
    requires
        ones(items),
    ensures
        0 <= total_for(items, key) <= items.len(),
        sum_of(items) == items.len(),
    decreases items.len(),
{
    if items.len() > 0 {
        assert(items[items.len() - 1].1 == 1);
        assert forall|i: int| 0 <= i < items.drop_last().len() implies (
        #[trigger] items.drop_last()[i]).1 == 1 by {
            assert(items.drop_last()[i] == items[i]);
        }
        lemma_total_of_ones(items.drop_last(), key);
    }
}

proof fn lemma_sums_are_totals<K>(sums: Seq<(K, i64)>, items: Seq<(K, i64)>, n: int)
    requires
        0 <= n <= sums.len(),
        ones(items),
        items.len() <= i64::MAX,
        forall|i: int|
            0 <= i < sums.len() ==> (#[trigger] sums[i]).1 == wrapped_i64(
                total_for(items, sums[i].0),
            ),
    ensures
        sum_of(sums.take(n)) == sum_under(sums, items, n),
    decreases n,
{
    if n > 0 {
        lemma_sums_are_totals(sums, items, n - 1);
        assert(sums.take(n).drop_last() =~= sums.take(n - 1));
        lemma_total_of_ones(items, sums[n - 1].0);
        assert(sums[n - 1].1 == wrapped_i64(total_for(items, sums[n - 1].0)));
    }
}

/// A tally of items that count one each adds up to their number.
proof fn lemma_tally_adds_up<K>(
    sums: Seq<(K, i64)>,
    items: Seq<(K, i64)>,
    less: spec_fn(K, K) -> bool,
)
    requires
        is_tally(sums, items, less),
        forall|a: K| !#[trigger] less(a, a),
        ones(items),
        items.len() <= i64::MAX,
    ensures
        sum_of(sums) == items.len(),
{
    assert forall|i: int, j: int| 0 <= i < j < sums.len() implies (#[trigger] sums[i]).0 != (
    #[trigger] sums[j]).0 by {
        assert(less(sums[i].0, sums[j].0));
        assert(!less(sums[i].0, sums[i].0));
    }
    assert forall|i: int| 0 <= i < items.len() implies has_key(sums, (#[trigger] items[i]).0) by {
        assert(has_key(items, items[i].0));
    }
    lemma_sum_under_all(sums, items);
    lemma_sums_are_totals(sums, items, sums.len() as int);
    assert(sums.take(sums.len() as int) =~= sums);
    if items.len() > 0 {
        lemma_total_of_ones(items, items[0].0);
    }
}

/// The codes that a command ended with, counted, add up to how often it was run, and so do the
/// days of the week on which it was.
pub proof fn law_stats_add_up(stats: HistoryStats, s: Seq<History>, h: History)
    requires
        is_stats_of(stats, s, h),
        stats.total <= i64::MAX,
    ensures
        sum_of(stats.exits@) == stats.total,
        sum_of(text_items(stats.day_of_week@)) == stats.total,
{
    let runs = runs_of(s, h.command@);
    assert(ones(exit_items(runs)));
    assert(ones(day_items(runs)));
    lemma_tally_adds_up(stats.exits@, exit_items(runs), number_less());
    assert forall|a: Seq<char>| !#[trigger] text_less()(a, a) by {
        crate::tally::lemma_one_comes_first(a, a);
    }
    lemma_tally_adds_up(text_items(stats.day_of_week@), day_items(runs), text_less());
}

proof fn lemma_session_entry(s: Seq<History>, session: Seq<char>, i: int, j: int)
    requires
        s.len() <= usize::MAX,
        0 <= i <= j < session_entries(s, session).len(),
    ensures
        s.contains(session_entries(s, session)[i]),
        session_entries(s, session)[i].deleted_at is None,
        session_entries(s, session)[i].session@ == session,
        session_entries(s, session)[i].timestamp.nanos <= session_entries(
            s,
            session,
        )[j].timestamp.nanos,
{
    let live = s.filter(is_live());
    let of_session = live.filter(has_session(session));
    s.lemma_filter_len(is_live());
    live.lemma_filter_len(has_session(session));
    let keys = instants(of_session);
    let at = lemma_sorted_places(of_session, keys);
    assert(at[i] < keys.len());
    assert(at[j] < keys.len());
    assert(earliest_first(of_session)[i] == of_session[at[i] as int]);
    assert(earliest_first(of_session)[j] == of_session[at[j] as int]);
    if i < j {
        assert(comes_before(keys, at[i] as int, at[j] as int));
    }
    let entry = of_session[at[i] as int];
    live.lemma_filter_pred(has_session(session), at[i] as int);
    live.lemma_filter_contains_rev(has_session(session), entry);
    let k = live.index_of(entry);
    s.lemma_filter_pred(is_live(), k);
    s.lemma_filter_contains_rev(is_live(), entry);
}

proof fn lemma_id_position_is(s: Seq<History>, id: Seq<char>)
    ensures
        0 <= id_position(s, id) <= s.len(),
        id_position(s, id) < s.len() ==> s[id_position(s, id)].id@ == id,
    decreases s.len(),
{
    if s.len() > 0 && s[0].id@ != id {
        lemma_id_position_is(s.skip(1), id);
    }
}

/// What was run before and after a command are entries of the history that are not deleted, of
/// the same session, and not started after or before it: they stand on either side of the entry
/// with its id.
pub proof fn law_neighbours(stats: HistoryStats, s: Seq<History>, h: History)
    requires
        is_stats_of(stats, s, h),
        s.len() <= usize::MAX,
    ensures
        stats.previous matches Some(p) ==> s.contains(p) && p.deleted_at is None && p.session@
            == h.session@,
        stats.next matches Some(n) ==> s.contains(n) && n.deleted_at is None && n.session@
            == h.session@,
        stats.previous is Some || stats.next is Some ==> exists|own: History| #[trigger]
            s.contains(own) && own.id@ == h.id@ && own.session@ == h.session@ && (
            stats.previous matches Some(p) ==> p.timestamp.nanos <= own.timestamp.nanos) && (
            stats.next matches Some(n) ==> own.timestamp.nanos <= n.timestamp.nanos),
{
    let session = session_entries(s, h.session@);
    lemma_id_position_is(session, h.id@);
    let i = id_position(session, h.id@);
    if i < session.len() {
        lemma_session_entry(s, h.session@, i, i);
        if 0 < i {
            lemma_session_entry(s, h.session@, i - 1, i);
        }
        if i + 1 < session.len() {
            lemma_session_entry(s, h.session@, i, i + 1);
            lemma_session_entry(s, h.session@, i + 1, i + 1);
        }
        assert(s.contains(session[i]));
    }
}

} // verus!

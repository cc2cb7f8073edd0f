//! What the rows of the counts say, in terms of the entries of the history.
use vstd::prelude::*;

use crate::count_laws::{lemma_has_first, lemma_place_of_first};
use crate::counts::{
    counted, cwds, first_places, group, group_rows, has_command, hostnames, lemma_first_places,
    merged, newest_at, row_keys, sessions,
};
use crate::database::is_live;
use crate::groups::same_command;
use crate::history::{option_text, History, HistoryView};
use crate::order::{comes_before, lemma_order_complete, lemma_sorted_places, pick};
use crate::places::{lemma_filter_all_places, lemma_filter_both};

verus! {

/// Texts one after the other, each but the first behind `sep`.
pub open spec fn strung(parts: Seq<Seq<char>>, sep: Seq<char>) -> Seq<char>
    decreases parts.len(),
{
    if parts.len() == 0 {
        Seq::empty()
    } else if parts.len() == 1 {
        parts[0]
    } else {
        strung(parts.drop_last(), sep) + sep + parts.last()
    }
}

proof fn lemma_strung(parts: Seq<Seq<char>>, sep: Seq<char>)
    ensures
        crate::counts::joined(parts, sep) == strung(parts, sep),
    decreases parts.len(),
{
    if parts.len() > 1 {
        lemma_strung(parts.drop_last(), sep);
    }
}

/// Whether `g` are the positions of all entries with one command that are not deleted.
pub open spec fn is_group(s: Seq<History>, g: Seq<int>) -> bool {
    &&& g.len() > 0
    &&& forall|i: int|
        0 <= i < g.len() ==> 0 <= #[trigger] g[i] < s.len() && s[g[i]].deleted_at is None
            && s[g[i]].command@ == s[g[0]].command@
    &&& forall|i: int, j: int| 0 <= i < j < g.len() ==> #[trigger] g[i] < #[trigger] g[j]
    &&& forall|q: int|
        0 <= q < s.len() && (#[trigger] s[q]).deleted_at is None && s[q].command@
            == s[g[0]].command@ ==> g.contains(q)
}

/// Whether the entry at position `m` was started last of those at the positions `g`; of several,
/// it stands last.
pub open spec fn is_newest(s: Seq<History>, g: Seq<int>, m: int) -> bool {
    &&& g.contains(m)
    &&& forall|i: int|
        0 <= i < g.len() ==> s[#[trigger] g[i]].timestamp.nanos < s[m].timestamp.nanos || (
        s[g[i]].timestamp.nanos == s[m].timestamp.nanos && g[i] <= m)
}

/// Whether a row says what there is to say of the entries at the positions `g`: it is the newest
/// of them, with the directories, the hosts and the sessions of all in the order in which they
/// stand, and how many they are.
pub open spec fn is_row_of(row: (HistoryView, i32), s: Seq<History>, g: Seq<int>) -> bool {
    let (v, count) = row;
    &&& count == g.len() as i32
    &&& v.command == s[g[0]].command@
    &&& v.cwd == strung(g.map_values(|q: int| s[q].cwd@), seq![':'])
    &&& v.hostname == strung(g.map_values(|q: int| s[q].hostname@), seq![','])
    &&& v.session == strung(g.map_values(|q: int| s[q].session@), Seq::empty())
    &&& exists|m: int| #[trigger]
        is_newest(s, g, m) && v.id == s[m].id@ && v.timestamp == s[m].timestamp && v.duration
            == s[m].duration && v.exit == s[m].exit && v.author == s[m].author@ && v.intent
            == option_text(s[m].intent) && v.deleted_at is None
}

proof fn lemma_newest(g: Seq<History>)
    requires
        g.len() > 0,
    ensures
        0 <= newest_at(g) < g.len(),
        forall|i: int|
            0 <= i < g.len() ==> (#[trigger] g[i]).timestamp.nanos < g[newest_at(
                g,
            )].timestamp.nanos || (g[i].timestamp.nanos == g[newest_at(g)].timestamp.nanos && i
                <= newest_at(g)),
    decreases g.len(),
{
    if g.len() > 1 {
        let front = g.drop_last();
        lemma_newest(front);
        assert forall|i: int| 0 <= i < g.len() implies (#[trigger] g[i]).timestamp.nanos
            < g[newest_at(g)].timestamp.nanos || (g[i].timestamp.nanos == g[newest_at(
            g,
        )].timestamp.nanos && i <= newest_at(g)) by {
            if i < front.len() {
                assert(front[i] == g[i]);
            }
        }
    }
}

/// The group of a position among the entries that are not deleted, by where it stands in the
/// whole history.
proof fn lemma_group_places(s: Seq<History>, p: int) -> (g: Seq<int>)
    requires
        0 <= p < s.filter(is_live()).len(),
    ensures
        is_group(s, g),
        s[g[0]].command@ == s.filter(is_live())[p].command@,
        is_row_of(
            (merged(group(s.filter(is_live()), p)), group(s.filter(is_live()), p).len() as i32),
            s,
            g,
        ),
{
    let live = s.filter(is_live());
    let text = live[p].command@;
    let both = |x: History| x.deleted_at is None && x.command@ == text;
    lemma_filter_both(s, is_live(), has_command(text), both);
    let all = group(live, p);
    assert(all == s.filter(both));
    let g = lemma_filter_all_places(s, both);
    let from = lemma_filter_all_places(s, is_live());
    assert(both(s[from[p]]));
    assert(g.contains(from[p]));
    assert forall|i: int| 0 <= i < g.len() implies 0 <= #[trigger] g[i] < s.len()
        && s[g[i]].deleted_at is None && s[g[i]].command@ == s[g[0]].command@ by {
        assert(both(s[g[i]]) && both(s[g[0]]));
    }
    assert forall|q: int|
        0 <= q < s.len() && (#[trigger] s[q]).deleted_at is None && s[q].command@
            == s[g[0]].command@ implies g.contains(q) by {
        assert(both(s[g[0]]));
        assert(both(s[q]));
    }
    lemma_newest(all);
    let k = newest_at(all);
    let m = g[k];
    assert(all[k] == s[m]);
    assert forall|i: int| 0 <= i < g.len() implies s[#[trigger] g[i]].timestamp.nanos
        < s[m].timestamp.nanos || (s[g[i]].timestamp.nanos == s[m].timestamp.nanos && g[i] <= m) by {
        assert(all[i] == s[g[i]]);
        if i < k {
            assert(g[i] < g[k]);
        }
    }
    assert(is_newest(s, g, m));
    assert(cwds(all) =~= g.map_values(|q: int| s[q].cwd@));
    assert(hostnames(all) =~= g.map_values(|q: int| s[q].hostname@));
    assert(sessions(all) =~= g.map_values(|q: int| s[q].session@));
    lemma_strung(cwds(all), seq![':']);
    lemma_strung(hostnames(all), seq![',']);
    lemma_strung(sessions(all), Seq::empty());
    assert(both(s[m]) && both(s[g[0]]));
    g
}

/// Every command of the history that is not deleted has one row, and there are no others: each
/// row is that of all entries with its command, the rows of the newest first. `groups` tells
/// where the entries of each row stand.
pub proof fn law_rows(s: Seq<History>) -> (groups: Seq<Seq<int>>)
    requires
        s.len() <= usize::MAX,
    ensures
        groups.len() == counted(s.filter(is_live())).len(),
        forall|k: int|
            0 <= k < groups.len() ==> is_group(s, #[trigger] groups[k]) && is_row_of(
                counted(s.filter(is_live()))[k],
                s,
                groups[k],
            ),
        forall|k: int, l: int|
            0 <= k < l < groups.len() ==> s[(#[trigger] groups[k])[0]].command@ != s[(
            #[trigger] groups[l])[0]].command@,
        forall|q: int|
            0 <= q < s.len() && (#[trigger] s[q]).deleted_at is None ==> exists|k: int|
                0 <= k < groups.len() && (#[trigger] groups[k]).contains(q),
        forall|k: int, l: int|
            0 <= k < l < groups.len() ==> (#[trigger] counted(
                s.filter(is_live()),
            )[k]).0.timestamp.nanos >= (#[trigger] counted(
                s.filter(is_live()),
            )[l]).0.timestamp.nanos,
{
    let live = s.filter(is_live());
    let n = live.len() as int;
    s.lemma_filter_len(is_live());
    let places = first_places(live, n);
    lemma_first_places(live, n);
    lemma_few_places(live, n);
    let rows = group_rows(live);
    let keys = row_keys(rows);
    let order = lemma_sorted_places(rows, keys);
    let out = counted(live);
    assert(out == pick(rows, order));
    let groups = Seq::new(order.len(), |k: int| groups_at(s, places[order[k] as int]));
    assert forall|k: int| 0 <= k < groups.len() implies is_group(s, #[trigger] groups[k])
        && is_row_of(out[k], s, groups[k]) && s[groups[k][0]].command@
        == live[places[order[k] as int]].command@ by {
        assert(order[k] < keys.len());
        let p = places[order[k] as int];
        let g = lemma_group_places(s, p);
        assert(good_group(s, p, g));
        assert(good_group(s, p, groups_at(s, p)));
        assert(out[k] == rows[order[k] as int]);
    }
    assert forall|k: int, l: int| 0 <= k < l < groups.len() implies s[(
    #[trigger] groups[k])[0]].command@ != s[(#[trigger] groups[l])[0]].command@ by {
        assert(order[k] < keys.len() && order[l] < keys.len());
        assert(comes_before(keys, order[k] as int, order[l] as int));
        let a = order[k] as int;
        let b = order[l] as int;
        assert(is_group(s, groups[k]) && is_group(s, groups[l]));
        if s[groups[k][0]].command@ == s[groups[l][0]].command@ {
            assert(same_command(live, places[a], places[b]));
        }
    }
    assert forall|q: int| 0 <= q < s.len() && (#[trigger] s[q]).deleted_at is None implies exists|
        k: int,
    |
        0 <= k < groups.len() && (#[trigger] groups[k]).contains(q) by {
        let from = lemma_filter_all_places(s, is_live());
        assert(is_live()(s[q]));
        assert(from.contains(q));
        let i = from.index_of(q);
        let f = lemma_has_first(live, i);
        let at = lemma_place_of_first(live, n, f);
        lemma_order_complete(keys, order, at);
        let k = choose|k: int| 0 <= k < order.len() && #[trigger] order[k] == at;
        assert(is_group(s, groups[k]));
        assert(s[groups[k][0]].command@ == live[f].command@);
        assert(groups[k].contains(q));
    }
    assert forall|k: int, l: int| 0 <= k < l < groups.len() implies (
    #[trigger] out[k]).0.timestamp.nanos >= (#[trigger] out[l]).0.timestamp.nanos by {
        assert(order[k] < keys.len() && order[l] < keys.len());
        assert(comes_before(keys, order[k] as int, order[l] as int));
        assert(out[k] == rows[order[k] as int] && out[l] == rows[order[l] as int]);
    }
    groups
}

spec fn good_group(s: Seq<History>, p: int, g: Seq<int>) -> bool {
    &&& is_group(s, g)
    &&& s[g[0]].command@ == s.filter(is_live())[p].command@
    &&& is_row_of(
        (merged(group(s.filter(is_live()), p)), group(s.filter(is_live()), p).len() as i32),
        s,
        g,
    )
}

spec fn groups_at(s: Seq<History>, p: int) -> Seq<int> {
    choose|g: Seq<int>| good_group(s, p, g)
}

proof fn lemma_few_places(s: Seq<History>, n: int)
    requires
        0 <= n <= s.len(),
    ensures
        first_places(s, n).len() <= n,
    decreases n,
{
    if n > 0 {
        lemma_few_places(s, n - 1);
    }
}

} // verus!

//! Entries of one command taken together, and how often each command was run.
use vstd::prelude::*;

use crate::database::{is_live, MemoryDatabase};
use crate::groups::{are_firsts, first_positions, is_first, same_command};
use crate::history::{History, HistoryView};
use crate::order::{
    lemma_stable_sorted, pick, reverse_key, reversed_key, stable_order, stable_sorted,
};

verus! {

/// Picks out the entries with the command `text`.
pub open spec fn has_command(text: Seq<char>) -> spec_fn(History) -> bool {
    |h: History| h.command@ == text
}

/// Of the first `n` entries, those with the command that stands at position `p`.
pub open spec fn group_upto(s: Seq<History>, p: int, n: int) -> Seq<History> {
    s.take(n).filter(has_command(s[p].command@))
}

/// Texts put together with `sep` between one and the next.
pub open spec fn joined(parts: Seq<Seq<char>>, sep: Seq<char>) -> Seq<char>
    decreases parts.len(),
{
    if parts.len() == 0 {
        Seq::empty()
    } else if parts.len() == 1 {
        parts[0]
    } else {
        joined(parts.drop_last(), sep) + sep + parts.last()
    }
}

/// The directory of each entry.
pub open spec fn cwds(g: Seq<History>) -> Seq<Seq<char>> {
    g.map_values(|h: History| h.cwd@)
}

/// The session of each entry.
pub open spec fn sessions(g: Seq<History>) -> Seq<Seq<char>> {
    g.map_values(|h: History| h.session@)
}

/// The host of each entry.
pub open spec fn hostnames(g: Seq<History>) -> Seq<Seq<char>> {
    g.map_values(|h: History| h.hostname@)
}

/// The position of the entry that was started last; of several, the last.
pub open spec fn newest_at(g: Seq<History>) -> int
    decreases g.len(),
{
    if g.len() <= 1 {
        0
    } else {
        let k = newest_at(g.drop_last());
        if g.last().timestamp.nanos >= g[k].timestamp.nanos {
            g.len() - 1
        } else {
            k
        }
    }
}

/// The entry that stands for a group: the one started last, with the directories of all with
/// colons between them, their hosts with commas, and their sessions one after the other.
pub open spec fn merged(g: Seq<History>) -> HistoryView {
    HistoryView {
        cwd: joined(cwds(g), seq![':']),
        session: joined(sessions(g), Seq::empty()),
        hostname: joined(hostnames(g), seq![',']),
        ..g[newest_at(g)]@
    }
}

/// Of the first `n` positions, those with a command that no entry before them has.
pub open spec fn first_places(s: Seq<History>, n: int) -> Seq<int>
    decreases n,
{
    if n <= 0 {
        Seq::empty()
    } else if is_first(s, n - 1) {
        first_places(s, n - 1).push(n - 1)
    } else {
        first_places(s, n - 1)
    }
}

/// The entries with the command that stands at position `p`.
pub open spec fn group(s: Seq<History>, p: int) -> Seq<History> {
    s.filter(has_command(s[p].command@))
}

/// The entry that stands for the group of position `p`, and how many there are in it.
pub open spec fn group_row(s: Seq<History>) -> spec_fn(int) -> (HistoryView, i32) {
    |p: int| (merged(group(s, p)), group(s, p).len() as i32)
}

/// For each command, in the order in which they first occur, the entry that stands for its
/// group, and how many there are in it.
pub open spec fn group_rows(s: Seq<History>) -> Seq<(HistoryView, i32)> {
    first_places(s, s.len() as int).map_values(group_row(s))
}

/// Keys that put the rows with the latest entry first.
pub open spec fn row_keys(rows: Seq<(HistoryView, i32)>) -> Seq<i128> {
    rows.map_values(|row: (HistoryView, i32)| reversed_key(row.0.timestamp.nanos))
}

/// For each command the entry that stands for its group, and how many there are in it, latest
/// first.
pub open spec fn counted(s: Seq<History>) -> Seq<(HistoryView, i32)> {
    stable_sorted(group_rows(s), row_keys(group_rows(s)))
}

/// What each row says.
pub open spec fn row_views(rows: Seq<(History, i32)>) -> Seq<(HistoryView, i32)> {
    rows.map_values(|row: (History, i32)| (row.0@, row.1))
}

/// A group as far as it has been gathered.
struct Gathered {
    newest: usize,
    cwd: String,
    session: String,
    hostname: String,
    count: usize,
}

impl Gathered {
    spec fn holds(self, s: Seq<History>, g: Seq<History>) -> bool {
        &&& g.len() > 0
        &&& self.newest < s.len()
        &&& s[self.newest as int] == g[newest_at(g)]
        &&& 0 <= newest_at(g) < g.len()
        &&& self.cwd@ == joined(cwds(g), seq![':'])
        &&& self.session@ == joined(sessions(g), Seq::empty())
        &&& self.hostname@ == joined(hostnames(g), seq![','])
        &&& self.count == g.len()
    }
}

pub proof fn lemma_group_step(s: Seq<History>, p: int, n: int)
    requires
        0 <= p < s.len(),
        0 <= n < s.len(),
    ensures
        group_upto(s, p, n + 1) == (if same_command(s, p, n) {
            group_upto(s, p, n).push(s[n])
        } else {
            group_upto(s, p, n)
        }),
{
    reveal(Seq::filter);
    assert(s.take(n + 1).drop_last() =~= s.take(n));
}

proof fn lemma_push_parts(g: Seq<History>, h: History)
    ensures
        cwds(g.push(h)) == cwds(g).push(h.cwd@),
        sessions(g.push(h)) == sessions(g).push(h.session@),
        hostnames(g.push(h)) == hostnames(g).push(h.hostname@),
        g.push(h).drop_last() == g,
{
    assert(cwds(g.push(h)) =~= cwds(g).push(h.cwd@));
    assert(sessions(g.push(h)) =~= sessions(g).push(h.session@));
    assert(hostnames(g.push(h)) =~= hostnames(g).push(h.hostname@));
    assert(g.push(h).drop_last() =~= g);
}

proof fn lemma_joined_push(parts: Seq<Seq<char>>, part: Seq<char>, sep: Seq<char>)
    ensures
        parts.len() == 0 ==> joined(parts.push(part), sep) == part,
        parts.len() > 0 ==> joined(parts.push(part), sep) == joined(parts, sep) + sep + part,
{
    assert(parts.push(part).drop_last() =~= parts);
}

fn start_group(entries: &Vec<History>, i: usize) -> (row: Gathered)
    requires
        i < entries.len(),
    ensures
        row.holds(entries@, seq![entries@[i as int]]),
{
    let h = &entries[i];
    let ghost g = seq![entries@[i as int]];
    proof {
        assert(cwds(g) =~= seq![h.cwd@]);
        assert(sessions(g) =~= seq![h.session@]);
        assert(hostnames(g) =~= seq![h.hostname@]);
    }
    Gathered {
        newest: i,
        cwd: h.cwd.clone(),
        session: h.session.clone(),
        hostname: h.hostname.clone(),
        count: 1,
    }
}

fn add_to_group(row: Gathered, entries: &Vec<History>, i: usize, g: Ghost<Seq<History>>) -> (out:
    Gathered)
    requires
        i < entries.len(),
        row.holds(entries@, g@),
        g@.len() <= i,
    ensures
        out.holds(entries@, g@.push(entries@[i as int])),
{
    let h = &entries[i];
    let ghost more = g@.push(*h);
    proof {
        lemma_push_parts(g@, *h);
        lemma_joined_push(cwds(g@), h.cwd@, seq![':']);
        lemma_joined_push(sessions(g@), h.session@, Seq::empty());
        lemma_joined_push(hostnames(g@), h.hostname@, seq![',']);
    }
    let mut row = row;
    row.cwd.push(':');
    row.cwd.append(h.cwd.as_str());
    row.session.append(h.session.as_str());
    row.hostname.push(',');
    row.hostname.append(h.hostname.as_str());
    proof {
        assert(row.cwd@ =~= joined(cwds(more), seq![':']));
        assert(row.session@ =~= joined(sessions(more), Seq::empty()));
        assert(row.hostname@ =~= joined(hostnames(more), seq![',']));
    }
    if h.timestamp.nanos >= entries[row.newest].timestamp.nanos {
        row.newest = i;
    }
    row.count = row.count + 1;
    row
}

pub proof fn lemma_first_places(s: Seq<History>, n: int)
    requires
        0 <= n <= s.len(),
    ensures
        forall|k: int|
            0 <= k < first_places(s, n).len() ==> 0 <= #[trigger] first_places(s, n)[k] < n
                && is_first(s, first_places(s, n)[k]),
        forall|k: int, l: int|
            0 <= k < first_places(s, n).len() && 0 <= l < first_places(s, n).len() && same_command(
                s,
                #[trigger] first_places(s, n)[k],
                #[trigger] first_places(s, n)[l],
            ) ==> k == l,
    decreases n,
{
    if n > 0 {
        lemma_first_places(s, n - 1);
        let before = first_places(s, n - 1);
        let all = first_places(s, n);
        if is_first(s, n - 1) {
            assert forall|k: int, l: int|
                0 <= k < all.len() && 0 <= l < all.len() && same_command(
                    s,
                    #[trigger] all[k],
                    #[trigger] all[l],
                ) implies k == l by {
                if k < before.len() && l < before.len() {
                    assert(all[k] == before[k] && all[l] == before[l]);
                } else if k < before.len() {
                    assert(before[k] < n - 1);
                    assert(!same_command(s, n - 1, before[k]));
                } else if l < before.len() {
                    assert(before[l] < n - 1);
                    assert(!same_command(s, n - 1, before[l]));
                }
            }
        }
    }
}

/// Gathers the groups of all entries, in the order in which their commands first occur.
fn gather(entries: &Vec<History>) -> (rows: Vec<Gathered>)
    ensures
        rows.len() == first_places(entries@, entries.len() as int).len(),
        forall|k: int|
            0 <= k < rows.len() ==> (#[trigger] rows@[k]).holds(
                entries@,
                group(entries@, first_places(entries@, entries.len() as int)[k]),
            ),
{
    let firsts = first_positions(entries);
    let ghost s = entries@;
    let mut rows: Vec<Gathered> = Vec::new();
    let mut slots: Vec<usize> = Vec::with_capacity(entries.len());
    let mut i: usize = 0;
    while i < entries.len()
        invariant
            s == entries@,
            i <= entries.len(),
            firsts.len() == entries.len(),
            are_firsts(s, firsts@),
            slots.len() == i,
            rows.len() == first_places(s, i as int).len(),
            forall|j: int|
                0 <= j < i && is_first(s, j) ==> #[trigger] slots@[j] < rows.len() && first_places(
                    s,
                    i as int,
                )[slots@[j] as int] == j,
            forall|k: int|
                0 <= k < rows.len() ==> (#[trigger] rows@[k]).holds(
                    s,
                    group_upto(s, first_places(s, i as int)[k], i as int),
                ),
        decreases entries.len() - i,
    {
        let f: usize = firsts[i];
        let ghost old_rows = rows@;
        let ghost places = first_places(s, i as int);
        proof {
            lemma_first_places(s, i as int);
            assert(same_command(s, i as int, f as int));
            assert forall|k: int| 0 <= k < places.len() implies group_upto(
                s,
                #[trigger] places[k],
                i + 1,
            ) == (if same_command(s, places[k], i as int) {
                group_upto(s, places[k], i as int).push(s[i as int])
            } else {
                group_upto(s, places[k], i as int)
            }) by {
                lemma_group_step(s, places[k], i as int);
            }
        }
        if f == i {
            assert(is_first(s, i as int));
            proof {
                assert forall|k: int| 0 <= k < places.len() implies !same_command(
                    s,
                    #[trigger] places[k],
                    i as int,
                ) by {
                    assert(!same_command(s, i as int, places[k]));
                }
                lemma_group_step(s, i as int, i as int);
                lemma_none_before(s, i as int, i as int);
                assert(group_upto(s, i as int, i + 1) =~= seq![s[i as int]]);
            }
            let slot: usize = rows.len();
            rows.push(start_group(entries, i));
            slots.push(slot);
            assert forall|k: int| 0 <= k < rows.len() implies (#[trigger] rows@[k]).holds(
                s,
                group_upto(s, first_places(s, i + 1)[k], i + 1),
            ) by {
                if k < old_rows.len() {
                    assert(rows@[k] == old_rows[k]);
                    assert(places[k] == first_places(s, i + 1)[k]);
                }
            }
        } else {
            proof {
                assert(!is_first(s, i as int));
            }
            let slot: usize = slots[f];
            assert(places[slot as int] == f);
            let ghost g = group_upto(s, f as int, i as int);
            proof {
                s.take(i as int).lemma_filter_len(has_command(s[f as int].command@));
                assert(same_command(s, f as int, i as int));
            }
            let mut row = Gathered {
                newest: 0,
                cwd: String::new(),
                session: String::new(),
                hostname: String::new(),
                count: 0,
            };
            std::mem::swap(&mut row, &mut rows[slot]);
            let row = add_to_group(row, entries, i, Ghost(g));
            rows.set(slot, row);
            slots.push(slot);
            assert forall|k: int| 0 <= k < rows.len() implies (#[trigger] rows@[k]).holds(
                s,
                group_upto(s, first_places(s, i + 1)[k], i + 1),
            ) by {
                assert(first_places(s, i + 1) == places);
                if k != slot {
                    assert(rows@[k] == old_rows[k]);
                    if same_command(s, places[k], i as int) {
                        assert(same_command(s, places[k], places[slot as int]));
                    }
                }
            }
        }
        i = i + 1;
    }
    assert forall|k: int| 0 <= k < rows.len() implies (#[trigger] rows@[k]).holds(
        s,
        group(s, first_places(s, s.len() as int)[k]),
    ) by {
        assert(s.take(s.len() as int) =~= s);
    }
    rows
}

pub proof fn lemma_none_before(s: Seq<History>, p: int, n: int)
    requires
        0 <= n <= p < s.len(),
        is_first(s, p),
    ensures
        group_upto(s, p, n).len() == 0,
    decreases n,
{
    reveal(Seq::filter);
    if n > 0 {
        lemma_none_before(s, p, n - 1);
        lemma_group_step(s, p, n - 1);
        assert(!same_command(s, p, n - 1));
    }
}

impl MemoryDatabase {
    /// For each command that has an entry which is not deleted: one entry that stands for all of
    /// them, and how many there are; latest first.
    pub fn all_with_count(&self) -> (out: Vec<(History, i32)>)
        ensures
            row_views(out@) == counted(self.entries@.filter(is_live())),
    {
        let live = self.live_entries();
        let ghost s = live@;
        let rows = gather(&live);
        let ghost expected = group_rows(s);
        let ghost places = first_places(s, s.len() as int);
        let mut built: Vec<(History, i32)> = Vec::with_capacity(rows.len());
        let mut keys: Vec<i128> = Vec::with_capacity(rows.len());
        let mut i: usize = 0;
        while i < rows.len()
            invariant
                i <= rows.len(),
                s == live@,
                places == first_places(s, s.len() as int),
                expected == group_rows(s),
                rows.len() == places.len(),
                forall|k: int|
                    0 <= k < rows.len() ==> (#[trigger] rows@[k]).holds(s, group(s, places[k])),
                built.len() == i,
                keys.len() == i,
                forall|k: int|
                    0 <= k < i ==> ((#[trigger] built@[k]).0@, built@[k].1) == expected[k],
                forall|k: int| 0 <= k < i ==> #[trigger] keys@[k] == row_keys(expected)[k],
            decreases rows.len() - i,
        {
            let row = &rows[i];
            let ghost g = group(s, places[i as int]);
            assert(row.holds(s, g));
            let mut entry = live[row.newest].clone();
            entry.cwd = row.cwd.clone();
            entry.session = row.session.clone();
            entry.hostname = row.hostname.clone();
            assert(entry@ == merged(g));
            let count: i32 = row.count as i32;
            assert(expected[i as int] == (merged(g), g.len() as i32));
            keys.push(reverse_key(entry.timestamp.nanos));
            built.push((entry, count));
            i = i + 1;
        }
        assert(keys@ =~= row_keys(expected));
        let order = stable_order(&keys);
        proof {
            lemma_stable_sorted(expected, keys@, order@);
        }
        let mut out: Vec<(History, i32)> = Vec::with_capacity(built.len());
        let mut k: usize = 0;
        while k < order.len()
            invariant
                k <= order.len(),
                out.len() == k,
                order.len() == built.len(),
                expected.len() == built.len(),
                forall|j: int| 0 <= j < order.len() ==> #[trigger] order@[j] < built.len(),
                forall|j: int|
                    0 <= j < built.len() ==> ((#[trigger] built@[j]).0@, built@[j].1) == expected[j],
                forall|j: int|
                    0 <= j < k ==> ((#[trigger] out@[j]).0@, out@[j].1) == expected[order@[j] as int],
            decreases order.len() - k,
        {
            let at: usize = order[k];
            out.push((built[at].0.clone(), built[at].1));
            k = k + 1;
        }
        assert(row_views(out@) =~= pick(expected, order@));
        out
    }
}

} // verus!

//! Where the items of a list come from that was filtered and put in order.
use vstd::prelude::*;

use crate::order::{comes_before, lemma_order_complete, lemma_sorted_places, stable_sorted};

verus! {

/// Whether the item at `a` comes before the one at `b`: by the smaller key, and on equal keys by
/// where they stand.
pub open spec fn key_before<T>(s: Seq<T>, key: spec_fn(T) -> int, a: int, b: int) -> bool {
    key(s[a]) < key(s[b]) || (key(s[a]) == key(s[b]) && a < b)
}

/// Whether `at` lists the positions of items of `s` that `p` picks out, each no more than once,
/// smallest key first.
pub open spec fn are_places<T>(
    s: Seq<T>,
    p: spec_fn(T) -> bool,
    key: spec_fn(T) -> int,
    at: Seq<int>,
) -> bool {
    &&& forall|i: int| 0 <= i < at.len() ==> 0 <= #[trigger] at[i] < s.len() && p(s[at[i]])
    &&& forall|i: int, j: int|
        0 <= i < j < at.len() ==> key_before(s, key, #[trigger] at[i], #[trigger] at[j])
}

/// Whether `at` lists all positions of items that `p` picks out.
pub open spec fn are_all_places<T>(s: Seq<T>, p: spec_fn(T) -> bool, at: Seq<int>) -> bool {
    forall|q: int| 0 <= q < s.len() && #[trigger] p(s[q]) ==> at.contains(q)
}

/// What a filter leaves, by where it comes from.
pub proof fn lemma_filter_all_places<T>(s: Seq<T>, p: spec_fn(T) -> bool) -> (at: Seq<int>)
    ensures
        at.len() == s.filter(p).len(),
        forall|i: int|
            0 <= i < at.len() ==> 0 <= #[trigger] at[i] < s.len() && s.filter(p)[i] == s[at[i]]
                && p(s[at[i]]),
        forall|i: int, j: int| 0 <= i < j < at.len() ==> #[trigger] at[i] < #[trigger] at[j],
        are_all_places(s, p, at),
    decreases s.len(),
{
    reveal(Seq::filter);
    if s.len() == 0 {
        Seq::empty()
    } else {
        let rest = s.drop_last();
        let front = lemma_filter_all_places(rest, p);
        let n = s.len() - 1;
        let at = if p(s.last()) {
            front.push(n)
        } else {
            front
        };
        assert forall|q: int| 0 <= q < s.len() && #[trigger] p(s[q]) implies at.contains(q) by {
            if q < n {
                assert(rest[q] == s[q]);
                assert(p(rest[q]));
                let k = front.index_of(q);
                assert(at[k] == q);
            } else {
                assert(at[n - n + front.len()] == q);
            }
        }
        at
    }
}

/// What a filter leaves, put in order by keys, by where it comes from.
pub proof fn lemma_sorted_all_places<T>(
    s: Seq<T>,
    p: spec_fn(T) -> bool,
    key: spec_fn(T) -> int,
    keys: Seq<i128>,
) -> (at: Seq<int>)
    requires
        s.len() <= usize::MAX,
        keys.len() == s.filter(p).len(),
        forall|i: int| 0 <= i < keys.len() ==> #[trigger] keys[i] == key(s.filter(p)[i]),
    ensures
        at.len() == stable_sorted(s.filter(p), keys).len(),
        at.len() == s.filter(p).len(),
        forall|i: int|
            0 <= i < at.len() ==> stable_sorted(s.filter(p), keys)[i] == s[#[trigger] at[i]],
        are_places(s, p, key, at),
        are_all_places(s, p, at),
{
    let kept = s.filter(p);
    s.lemma_filter_len(p);
    let from = lemma_filter_all_places(s, p);
    let order = lemma_sorted_places(kept, keys);
    let at = Seq::new(order.len(), |i: int| from[order[i] as int]);
    assert forall|i: int| 0 <= i < at.len() implies 0 <= #[trigger] at[i] < s.len() && p(s[at[i]])
        && stable_sorted(kept, keys)[i] == s[at[i]] by {
        assert(order[i] < keys.len());
        assert(at[i] == from[order[i] as int]);
    }
    assert forall|i: int, j: int| 0 <= i < j < at.len() implies key_before(
        s,
        key,
        #[trigger] at[i],
        #[trigger] at[j],
    ) by {
        let a = order[i] as int;
        let b = order[j] as int;
        assert(order[i] < keys.len() && order[j] < keys.len());
        assert(comes_before(keys, a, b));
        assert(keys[a] == key(kept[a]) && keys[b] == key(kept[b]));
        assert(kept[a] == s[from[a]] && kept[b] == s[from[b]]);
        if a < b {
            assert(from[a] < from[b]);
        }
    }
    assert forall|q: int| 0 <= q < s.len() && #[trigger] p(s[q]) implies at.contains(q) by {
        assert(from.contains(q));
        let k = from.index_of(q);
        lemma_order_complete(keys, order, k);
        let i = choose|i: int| 0 <= i < order.len() && #[trigger] order[i] == k;
        assert(at[i] == q);
    }
    at
}

/// Filtering twice is filtering by both.
pub proof fn lemma_filter_both<T>(
    s: Seq<T>,
    a: spec_fn(T) -> bool,
    b: spec_fn(T) -> bool,
    both: spec_fn(T) -> bool,
)
    requires
        forall|x: T| #[trigger] both(x) == (a(x) && b(x)),
    ensures
        s.filter(a).filter(b) == s.filter(both),
    decreases s.len(),
{
    reveal(Seq::filter);
    if s.len() > 0 {
        let rest = s.drop_last();
        lemma_filter_both(rest, a, b, both);
        let x = s.last();
        assert(both(x) == (a(x) && b(x)));
        if a(x) {
            let kept = rest.filter(a);
            assert(kept.push(x).drop_last() =~= kept);
        }
    }
}

/// A filter on what is in order leaves what is left in order: the places of what is left.
pub proof fn lemma_places_filtered<T>(
    s: Seq<T>,
    p: spec_fn(T) -> bool,
    key: spec_fn(T) -> int,
    sorted: Seq<T>,
    at: Seq<int>,
    m: spec_fn(T) -> bool,
    both: spec_fn(T) -> bool,
) -> (left: Seq<int>)
    requires
        at.len() == sorted.len(),
        forall|i: int| 0 <= i < at.len() ==> sorted[i] == s[#[trigger] at[i]],
        are_places(s, p, key, at),
        are_all_places(s, p, at),
        forall|x: T| #[trigger] both(x) == (p(x) && m(x)),
    ensures
        left.len() == sorted.filter(m).len(),
        forall|i: int| 0 <= i < left.len() ==> sorted.filter(m)[i] == s[#[trigger] left[i]],
        are_places(s, both, key, left),
        are_all_places(s, both, left),
{
    let from = lemma_filter_all_places(sorted, m);
    let left = Seq::new(from.len(), |i: int| at[from[i]]);
    assert forall|i: int| 0 <= i < left.len() implies 0 <= #[trigger] left[i] < s.len() && both(
        s[left[i]],
    ) && sorted.filter(m)[i] == s[left[i]] by {
        let k = from[i];
        assert(sorted[k] == s[at[k]]);
        assert(p(s[at[k]]) && m(sorted[k]));
    }
    assert forall|i: int, j: int| 0 <= i < j < left.len() implies key_before(
        s,
        key,
        #[trigger] left[i],
        #[trigger] left[j],
    ) by {
        assert(from[i] < from[j]);
        assert(key_before(s, key, at[from[i]], at[from[j]]));
    }
    assert forall|q: int| 0 <= q < s.len() && #[trigger] both(s[q]) implies left.contains(q) by {
        assert(p(s[q]));
        assert(at.contains(q));
        let k = at.index_of(q);
        assert(sorted[k] == s[at[k]]);
        assert(m(sorted[k]));
        assert(from.contains(k));
        let i = from.index_of(k);
        assert(left[i] == q);
    }
    left
}

} // verus!

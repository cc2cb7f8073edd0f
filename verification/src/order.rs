//! Stable orders: the positions of a sequence, arranged by a key.
use vstd::prelude::*;

verus! {

/// Whether position `a` comes before position `b`: by the smaller key, and on equal keys by
/// the smaller position.
pub open spec fn comes_before(keys: Seq<i128>, a: int, b: int) -> bool {
    keys[a] < keys[b] || (keys[a] == keys[b] && a < b)
}

/// Whether each entry of `order` comes before every later one.
pub open spec fn in_order(keys: Seq<i128>, order: Seq<usize>) -> bool {
    forall|i: int, j: int|
        0 <= i < j < order.len() ==> comes_before(
            keys,
            #[trigger] order[i] as int,
            #[trigger] order[j] as int,
        )
}

/// Whether `order` lists every position of `keys` once, smallest key first and equal keys in
/// the order in which they stand.
pub open spec fn is_stable_order(keys: Seq<i128>, order: Seq<usize>) -> bool {
    &&& order.len() == keys.len()
    &&& forall|i: int| 0 <= i < order.len() ==> #[trigger] order[i] < keys.len()
    &&& in_order(keys, order)
}

/// The items of `s` at the positions that `order` lists.
pub open spec fn pick<T>(s: Seq<T>, order: Seq<usize>) -> Seq<T> {
    Seq::new(order.len(), |i: int| s[order[i] as int])
}

/// Whether `out` holds the items of `s`, smallest key first and equal keys in the order in
/// which they stand in `s`.
pub open spec fn is_stable_sort<T>(out: Seq<T>, s: Seq<T>, keys: Seq<i128>) -> bool {
    exists|order: Seq<usize>| #[trigger] is_stable_order(keys, order) && out == pick(s, order)
}

/// The items of `s`, smallest key first and equal keys in the order in which they stand in `s`.
pub open spec fn stable_sorted<T>(s: Seq<T>, keys: Seq<i128>) -> Seq<T> {
    pick(s, choose|order: Seq<usize>| is_stable_order(keys, order))
}

/// The items in a stable order are `stable_sorted`.
pub proof fn lemma_stable_sorted<T>(s: Seq<T>, keys: Seq<i128>, order: Seq<usize>)
    requires
        is_stable_order(keys, order),
    ensures
        pick(s, order) == stable_sorted(s, keys),
{
    let chosen = choose|order: Seq<usize>| is_stable_order(keys, order);
    law_stable_order_unique(keys, chosen, order);
}

/// Two ascending lists of positions, `left` from below `mid` and `right` from `mid` on, as one.
fn merge(keys: &Vec<i128>, left: &Vec<usize>, right: &Vec<usize>, lo: usize, mid: usize, hi: usize) -> (out:
    Vec<usize>)
    requires
        lo <= mid <= hi <= keys.len(),
        left.len() == mid - lo,
        right.len() == hi - mid,
        forall|i: int| 0 <= i < left.len() ==> lo <= #[trigger] left@[i] < mid,
        forall|i: int| 0 <= i < right.len() ==> mid <= #[trigger] right@[i] < hi,
        in_order(keys@, left@),
        in_order(keys@, right@),
    ensures
        out.len() == hi - lo,
        forall|i: int| 0 <= i < out.len() ==> lo <= #[trigger] out@[i] < hi,
        in_order(keys@, out@),
{
    let mut out: Vec<usize> = Vec::with_capacity(hi - lo);
    let mut i: usize = 0;
    let mut j: usize = 0;
    while i < left.len() || j < right.len()
        invariant
            lo <= mid <= hi <= keys.len(),
            left.len() == mid - lo,
            right.len() == hi - mid,
            forall|i: int| 0 <= i < left.len() ==> lo <= #[trigger] left@[i] < mid,
            forall|i: int| 0 <= i < right.len() ==> mid <= #[trigger] right@[i] < hi,
            in_order(keys@, left@),
            in_order(keys@, right@),
            i <= left.len(),
            j <= right.len(),
            out.len() == i + j,
            forall|k: int| 0 <= k < out.len() ==> lo <= #[trigger] out@[k] < hi,
            in_order(keys@, out@),
            forall|k: int, l: int|
                0 <= k < out.len() && i <= l < left.len() ==> comes_before(
                    keys@,
                    #[trigger] out@[k] as int,
                    #[trigger] left@[l] as int,
                ),
            forall|k: int, l: int|
                0 <= k < out.len() && j <= l < right.len() ==> comes_before(
                    keys@,
                    #[trigger] out@[k] as int,
                    #[trigger] right@[l] as int,
                ),
        decreases left.len() - i + right.len() - j,
    {
        if j >= right.len() || (i < left.len() && keys[left[i]] <= keys[right[j]]) {
            out.push(left[i]);
            i = i + 1;
        } else {
            out.push(right[j]);
            j = j + 1;
        }
    }
    out
}

/// The positions from `lo` to below `hi`, in stable order.
fn order_range(keys: &Vec<i128>, lo: usize, hi: usize) -> (out: Vec<usize>)
    requires
        lo <= hi <= keys.len(),
    ensures
        out.len() == hi - lo,
        forall|i: int| 0 <= i < out.len() ==> lo <= #[trigger] out@[i] < hi,
        in_order(keys@, out@),
    decreases hi - lo,
{
    if hi - lo == 0 {
        Vec::new()
    } else if hi - lo == 1 {
        let mut out: Vec<usize> = Vec::new();
        out.push(lo);
        out
    } else {
        let mid: usize = lo + (hi - lo) / 2;
        let left = order_range(keys, lo, mid);
        let right = order_range(keys, mid, hi);
        merge(keys, &left, &right, lo, mid, hi)
    }
}

/// The positions of `keys`, smallest key first, equal keys in the order in which they stand.
pub fn stable_order(keys: &Vec<i128>) -> (order: Vec<usize>)
    ensures
        is_stable_order(keys@, order@),
{
    order_range(keys, 0, keys.len())
}

/// The key that puts larger values of `k` first.
pub open spec fn reversed_key(k: i128) -> i128 {
    (-1 - k) as i128
}

/// The key that puts larger values of `k` first.
pub fn reverse_key(k: i128) -> (r: i128)
    ensures
        r == reversed_key(k),
        r == -1 - k,
{
    if k >= 0 {
        -1 - k
    } else {
        -(k + 1)
    }
}

/// A stable order lists every position.
pub proof fn lemma_order_complete(keys: Seq<i128>, order: Seq<usize>, k: int)
    requires
        is_stable_order(keys, order),
        0 <= k < keys.len(),
    ensures
        exists|i: int| 0 <= i < order.len() && #[trigger] order[i] == k,
{
    let n = keys.len();
    let ints = order.map_values(|x: usize| x as int);
    assert(ints.no_duplicates()) by {
        assert forall|i: int, j: int|
            0 <= i < ints.len() && 0 <= j < ints.len() && i != j implies ints[i] != ints[j] by {
            if i < j {
                assert(comes_before(keys, order[i] as int, order[j] as int));
            } else {
                assert(comes_before(keys, order[j] as int, order[i] as int));
            }
        }
    }
    let all = vstd::set_lib::set_int_range(0, n as int);
    vstd::set_lib::lemma_int_range(0, n as int);
    ints.unique_seq_to_set();
    assert(ints.to_set().subset_of(all)) by {
        assert forall|x: int| ints.to_set().contains(x) implies all.contains(x) by {
            let i = choose|i: int| 0 <= i < ints.len() && ints[i] == x;
            assert(order[i] < keys.len());
        }
    }
    vstd::set_lib::lemma_subset_equality(ints.to_set(), all);
    assert(all.contains(k));
    assert(ints.contains(k));
    let i = choose|i: int| 0 <= i < ints.len() && ints[i] == k;
    assert(order[i] == k);
}

/// There is one stable order: two lists that are stable orders of the same keys are the same.
pub proof fn law_stable_order_unique(keys: Seq<i128>, a: Seq<usize>, b: Seq<usize>)
    requires
        is_stable_order(keys, a),
        is_stable_order(keys, b),
    ensures
        a == b,
{
    assert forall|n: int| 0 <= n <= a.len() implies a.take(n) == b.take(n) by {
        lemma_same_front(keys, a, b, n);
    }
    assert(a.take(a.len() as int) =~= a);
    assert(b.take(b.len() as int) =~= b);
}

proof fn lemma_same_front(keys: Seq<i128>, a: Seq<usize>, b: Seq<usize>, n: int)
    requires
        is_stable_order(keys, a),
        is_stable_order(keys, b),
        0 <= n <= a.len(),
    ensures
        a.take(n) == b.take(n),
    decreases n,
{
    if n > 0 {
        lemma_same_front(keys, a, b, n - 1);
        let m = n - 1;
        assert forall|i: int| 0 <= i < m implies a[i] == b[i] by {
            assert(a.take(m)[i] == b.take(m)[i]);
        }
        lemma_order_complete(keys, b, a[m] as int);
        lemma_order_complete(keys, a, b[m] as int);
        let i = choose|i: int| 0 <= i < b.len() && #[trigger] b[i] == a[m];
        let j = choose|j: int| 0 <= j < a.len() && #[trigger] a[j] == b[m];
        if i < m {
            assert(comes_before(keys, a[i] as int, a[m] as int));
        }
        if j < m {
            assert(comes_before(keys, b[j] as int, b[m] as int));
        }
        if i > m && j > m {
            assert(comes_before(keys, b[m] as int, b[i] as int));
            assert(comes_before(keys, a[m] as int, a[j] as int));
        }
        assert(a.take(n) =~= a.take(m).push(a[m]));
        assert(b.take(n) =~= b.take(m).push(b[m]));
    }
}

/// How many of the first positions of `order` have a key that is no larger than `key`.
spec fn run_up_to(keys: Seq<i128>, order: Seq<usize>, key: i128) -> int
    decreases order.len(),
{
    if order.len() == 0 || keys[order[0] as int] > key {
        0
    } else {
        1 + run_up_to(keys, order.skip(1), key)
    }
}

proof fn lemma_run_up_to(keys: Seq<i128>, order: Seq<usize>, key: i128)
    ensures
        0 <= run_up_to(keys, order, key) <= order.len(),
        forall|i: int|
            0 <= i < run_up_to(keys, order, key) ==> keys[#[trigger] order[i] as int] <= key,
        run_up_to(keys, order, key) < order.len() ==> keys[order[run_up_to(keys, order, key)] as int]
            > key,
    decreases order.len(),
{
    if order.len() > 0 && keys[order[0] as int] <= key {
        let rest = order.skip(1);
        lemma_run_up_to(keys, rest, key);
        let n = run_up_to(keys, order, key);
        assert forall|i: int| 0 <= i < n implies keys[#[trigger] order[i] as int] <= key by {
            if i > 0 {
                assert(order[i] == rest[i - 1]);
            }
        }
        if n < order.len() {
            assert(order[n] == rest[n - 1]);
        }
    }
}

/// There is a stable order.
pub proof fn lemma_stable_order_exists(keys: Seq<i128>)
    requires
        keys.len() <= usize::MAX,
    ensures
        exists|order: Seq<usize>| is_stable_order(keys, order),
    decreases keys.len(),
{
    if keys.len() == 0 {
        assert(is_stable_order(keys, Seq::empty()));
    } else {
        let front = keys.drop_last();
        lemma_stable_order_exists(front);
        let order = choose|order: Seq<usize>| is_stable_order(front, order);
        let n = front.len() as int;
        let key = keys[n];
        lemma_run_up_to(front, order, key);
        let p = run_up_to(front, order, key);
        let all = order.insert(p, n as usize);
        assert forall|i: int, j: int| 0 <= i < j < all.len() implies comes_before(
            keys,
            #[trigger] all[i] as int,
            #[trigger] all[j] as int,
        ) by {
            let a = if i < p {
                i
            } else {
                i - 1
            };
            let b = if j < p {
                j
            } else {
                j - 1
            };
            if i != p && j != p {
                assert(all[i] == order[a] && all[j] == order[b]);
                assert(comes_before(front, order[a] as int, order[b] as int));
            } else if i == p {
                assert(all[j] == order[b]);
                if b > p {
                    assert(comes_before(front, order[p] as int, order[b] as int));
                }
            } else {
                assert(all[i] == order[a]);
            }
        }
        assert forall|i: int| 0 <= i < all.len() implies #[trigger] all[i] < keys.len() by {
            if i < p {
                assert(all[i] == order[i]);
            } else if i > p {
                assert(all[i] == order[i - 1]);
            }
        }
        assert(is_stable_order(keys, all));
    }
}

/// What `stable_sorted` gives is in the order of the keys and made up of the same items: `at`
/// tells where the item at a place comes from.
pub proof fn lemma_sorted_places<T>(s: Seq<T>, keys: Seq<i128>) -> (at: Seq<usize>)
    requires
        s.len() == keys.len(),
        keys.len() <= usize::MAX,
    ensures
        is_stable_order(keys, at),
        stable_sorted(s, keys) == pick(s, at),
{
    lemma_stable_order_exists(keys);
    choose|order: Seq<usize>| is_stable_order(keys, order)
}

} // verus!

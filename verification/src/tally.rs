//! Amounts added up under keys.
use vstd::prelude::*;

use crate::numbers::{lemma_wrapped_add, wrapped_i64};
use crate::text::{chars_of, same_chars};

verus! {

/// What the amounts under `key` add up to.
pub open spec fn total_for<K>(items: Seq<(K, i64)>, key: K) -> int
    decreases items.len(),
{
    if items.len() == 0 {
        0
    } else if items.last().0 == key {
        total_for(items.drop_last(), key) + items.last().1
    } else {
        total_for(items.drop_last(), key)
    }
}

/// Whether one of the items is under `key`.
pub open spec fn has_key<K>(items: Seq<(K, i64)>, key: K) -> bool {
    exists|i: int| 0 <= i < items.len() && (#[trigger] items[i]).0 == key
}

/// Whether `sums` holds each key that an item is under once, in ascending order, with what the
/// amounts under it add up to, counted in sixty-four bits.
pub open spec fn is_tally<K>(
    sums: Seq<(K, i64)>,
    items: Seq<(K, i64)>,
    less: spec_fn(K, K) -> bool,
) -> bool {
    &&& forall|i: int, j: int|
        0 <= i < j < sums.len() ==> #[trigger] less((#[trigger] sums[i]).0, (#[trigger] sums[j]).0)
    &&& forall|i: int|
        0 <= i < sums.len() ==> (#[trigger] sums[i]).1 == wrapped_i64(total_for(items, sums[i].0))
    &&& forall|key: K| #[trigger] has_key(items, key) == has_key(sums, key)
}

/// Numbers in ascending order.
pub open spec fn number_less() -> spec_fn(i64, i64) -> bool {
    |a: i64, b: i64| a < b
}

/// Whether text `a` comes before text `b`: at the first place where they differ it has the
/// smaller character, or it ends there.
pub open spec fn comes_first(a: Seq<char>, b: Seq<char>) -> bool
    decreases a.len(),
{
    if b.len() == 0 {
        false
    } else if a.len() == 0 {
        true
    } else if a[0] != b[0] {
        a[0] < b[0]
    } else {
        comes_first(a.drop_first(), b.drop_first())
    }
}

/// Texts in ascending order.
pub open spec fn text_less() -> spec_fn(Seq<char>, Seq<char>) -> bool {
    |a: Seq<char>, b: Seq<char>| comes_first(a, b)
}

/// Of two texts that differ one comes first, and no text comes before itself.
pub proof fn lemma_one_comes_first(a: Seq<char>, b: Seq<char>)
    ensures
        a == b || comes_first(a, b) || comes_first(b, a),
        !comes_first(a, a),
        !(comes_first(a, b) && comes_first(b, a)),
    decreases a.len(),
{
    if a.len() > 0 {
        lemma_one_comes_first(a.drop_first(), a.drop_first());
        if b.len() > 0 && a[0] == b[0] {
            lemma_one_comes_first(a.drop_first(), b.drop_first());
            if a.drop_first() == b.drop_first() {
                assert(a =~= seq![a[0]] + a.drop_first());
                assert(b =~= seq![b[0]] + b.drop_first());
            }
        }
    } else if b.len() == 0 {
        assert(a =~= b);
    }
}

proof fn lemma_comes_first_transitive(a: Seq<char>, b: Seq<char>, c: Seq<char>)
    requires
        comes_first(a, b),
        comes_first(b, c),
    ensures
        comes_first(a, c),
    decreases a.len(),
{
    if a.len() > 0 && a[0] == b[0] && b[0] == c[0] {
        lemma_comes_first_transitive(a.drop_first(), b.drop_first(), c.drop_first());
    }
}

fn text_comes_first(a: &[char], b: &[char]) -> (r: bool)
    ensures
        r == comes_first(a@, b@),
{
    let mut i: usize = 0;
    assert(a@.skip(0) =~= a@);
    assert(b@.skip(0) =~= b@);
    while i < a.len() && i < b.len() && a[i] == b[i]
        invariant
            i <= a.len(),
            i <= b.len(),
            comes_first(a@, b@) == comes_first(a@.skip(i as int), b@.skip(i as int)),
        decreases a.len() - i,
    {
        assert(a@.skip(i as int).drop_first() =~= a@.skip(i + 1));
        assert(b@.skip(i as int).drop_first() =~= b@.skip(i + 1));
        i = i + 1;
    }
    if i >= b.len() {
        false
    } else if i >= a.len() {
        true
    } else {
        a[i] < b[i]
    }
}

/// Where sums are a tally of items and one more item comes, setting the sum of its key or
/// adding it in its place gives a tally again.
proof fn lemma_tally_step<K>(
    sums: Seq<(K, i64)>,
    after: Seq<(K, i64)>,
    items: Seq<(K, i64)>,
    item: (K, i64),
    less: spec_fn(K, K) -> bool,
    p: int,
)
    requires
        is_tally(sums, items, less),
        0 <= p <= sums.len(),
        forall|a: K, b: K, c: K| #[trigger] less(a, b) && #[trigger] less(b, c) ==> less(a, c),
        forall|a: K, b: K| #[trigger] less(a, b) ==> a != b && !less(b, a),
        forall|i: int| 0 <= i < p ==> less((#[trigger] sums[i]).0, item.0),
        p < sums.len() && sums[p].0 == item.0 ==> after == sums.update(
            p,
            (item.0, sums[p].1.wrapping_add(item.1)),
        ),
        p < sums.len() && sums[p].0 != item.0 ==> less(item.0, sums[p].0),
        !(p < sums.len() && sums[p].0 == item.0) ==> after == sums.insert(p, item),
    ensures
        is_tally(after, items.push(item), less),
{
    let all = items.push(item);
    assert(all.drop_last() =~= items);
    let there = p < sums.len() && sums[p].0 == item.0;
    if there {
        lemma_wrapped_add(total_for(items, item.0), item.1);
        assert forall|i: int, j: int| 0 <= i < j < after.len() implies #[trigger] less(
            (#[trigger] after[i]).0,
            (#[trigger] after[j]).0,
        ) by {
            assert(less(sums[i].0, sums[j].0));
        }
        assert forall|i: int| 0 <= i < after.len() implies (#[trigger] after[i]).1 == wrapped_i64(
            total_for(all, after[i].0),
        ) by {
            if i != p {
                assert(sums[i].1 == wrapped_i64(total_for(items, sums[i].0)));
                if i < p {
                    assert(less(sums[i].0, sums[p].0));
                } else {
                    assert(less(sums[p].0, sums[i].0));
                }
            } else {
                assert(sums[p].1 == wrapped_i64(total_for(items, sums[p].0)));
            }
        }
    } else {
        assert forall|i: int| p <= i < sums.len() implies less(item.0, (#[trigger] sums[i]).0) by {
            if i > p {
                assert(less(sums[p].0, sums[i].0));
            }
        }
        assert(!has_key(sums, item.0)) by {
            if has_key(sums, item.0) {
                let i = choose|i: int| 0 <= i < sums.len() && (#[trigger] sums[i]).0 == item.0;
                if i < p {
                    assert(less(sums[i].0, item.0));
                } else {
                    assert(less(item.0, sums[i].0));
                }
            }
        }
        lemma_total_of_none(items, item.0);
        lemma_wrapped_add(0, item.1);
        assert(wrapped_i64(item.1 as int) == item.1);
        assert forall|i: int, j: int| 0 <= i < j < after.len() implies #[trigger] less(
            (#[trigger] after[i]).0,
            (#[trigger] after[j]).0,
        ) by {
            let a = if i < p {
                i
            } else {
                i - 1
            };
            let b = if j < p {
                j
            } else {
                j - 1
            };
            if i != p && j != p {
                assert(after[i] == sums[a] && after[j] == sums[b]);
                assert(less(sums[a].0, sums[b].0));
            } else if i == p {
                assert(after[j] == sums[b]);
            } else {
                assert(after[i] == sums[a]);
            }
        }
        assert forall|i: int| 0 <= i < after.len() implies (#[trigger] after[i]).1 == wrapped_i64(
            total_for(all, after[i].0),
        ) by {
            if i != p {
                let a = if i < p {
                    i
                } else {
                    i - 1
                };
                assert(after[i] == sums[a]);
                assert(sums[a].1 == wrapped_i64(total_for(items, sums[a].0)));
                if a < p {
                    assert(less(sums[a].0, item.0));
                } else {
                    assert(less(item.0, sums[a].0));
                }
            }
        }
    }
    assert forall|key: K| #[trigger] has_key(all, key) == has_key(after, key) by {
        assert(has_key(items, key) == has_key(sums, key));
        if has_key(items, key) {
            let i = choose|i: int| 0 <= i < items.len() && (#[trigger] items[i]).0 == key;
            assert(all[i] == items[i]);
            let k = choose|k: int| 0 <= k < sums.len() && (#[trigger] sums[k]).0 == key;
            if there {
                assert(after[k].0 == sums[k].0);
            } else if k < p {
                assert(after[k] == sums[k]);
            } else {
                assert(after[k + 1] == sums[k]);
            }
        }
        if key == item.0 {
            assert(all[items.len() as int].0 == key);
            assert(after[p].0 == key);
        }
        if has_key(all, key) && key != item.0 {
            let i = choose|i: int| 0 <= i < all.len() && (#[trigger] all[i]).0 == key;
            assert(items[i].0 == key);
        }
        if has_key(after, key) && key != item.0 {
            let k = choose|k: int| 0 <= k < after.len() && (#[trigger] after[k]).0 == key;
            if there || k < p {
                assert(sums[k].0 == key);
            } else {
                assert(sums[k - 1].0 == key);
            }
        }
    }
}

proof fn lemma_total_of_none<K>(items: Seq<(K, i64)>, key: K)
    requires
        !has_key(items, key),
    ensures
        total_for(items, key) == 0,
    decreases items.len(),
{
    if items.len() > 0 {
        assert(items[items.len() - 1].0 != key);
        let rest = items.drop_last();
        if has_key(rest, key) {
            let i = choose|i: int| 0 <= i < rest.len() && (#[trigger] rest[i]).0 == key;
            assert(items[i].0 == key);
        }
        lemma_total_of_none(rest, key);
    }
}

/// Adds amounts up under numbers.
pub fn tally_numbers(items: &Vec<(i64, i64)>) -> (sums: Vec<(i64, i64)>)
    ensures
        is_tally(sums@, items@, number_less()),
{
    let mut sums: Vec<(i64, i64)> = Vec::new();
    let mut i: usize = 0;
    assert(is_tally(sums@, items@.take(0), number_less()));
    while i < items.len()
        invariant
            i <= items.len(),
            is_tally(sums@, items@.take(i as int), number_less()),
        decreases items.len() - i,
    {
        let (key, amount) = items[i];
        let mut p: usize = 0;
        while p < sums.len() && sums[p].0 < key
            invariant
                p <= sums.len(),
                forall|k: int| 0 <= k < p ==> (#[trigger] sums@[k]).0 < key,
            decreases sums.len() - p,
        {
            p = p + 1;
        }
        let ghost before = sums@;
        if p < sums.len() && sums[p].0 == key {
            let sum: i64 = sums[p].1.wrapping_add(amount);
            sums.set(p, (key, sum));
        } else {
            sums.insert(p, (key, amount));
        }
        proof {
            lemma_tally_step(
                before,
                sums@,
                items@.take(i as int),
                items@[i as int],
                number_less(),
                p as int,
            );
            assert(items@.take(i + 1) =~= items@.take(i as int).push(items@[i as int]));
        }
        i = i + 1;
    }
    assert(items@.take(i as int) =~= items@);
    sums
}

/// Items, their keys as text.
pub open spec fn text_items(items: Seq<(String, i64)>) -> Seq<(Seq<char>, i64)> {
    items.map_values(|item: (String, i64)| (item.0@, item.1))
}

/// Adds amounts up under texts.
pub fn tally_texts(items: Vec<(String, i64)>) -> (sums: Vec<(String, i64)>)
    ensures
        is_tally(text_items(sums@), text_items(items@), text_less()),
{
    let mut sums: Vec<(String, i64)> = Vec::new();
    let ghost views = text_items(items@);
    let mut i: usize = 0;
    assert(text_items(sums@) =~= Seq::empty());
    assert(is_tally(text_items(sums@), views.take(0), text_less()));
    while i < items.len()
        invariant
            i <= items.len(),
            views == text_items(items@),
            is_tally(text_items(sums@), views.take(i as int), text_less()),
        decreases items.len() - i,
    {
        let key = chars_of(items[i].0.as_str());
        let amount: i64 = items[i].1;
        let mut p: usize = 0;
        let mut same = false;
        let mut done = false;
        while p < sums.len() && !done
            invariant
                p <= sums.len(),
                forall|k: int| 0 <= k < p ==> comes_first((#[trigger] sums@[k]).0@, key@),
                done ==> p < sums.len() && !comes_first(sums@[p as int].0@, key@) && same == (
                sums@[p as int].0@ == key@),
                !done ==> !same,
            decreases
                sums.len() - p,
                if done {
                    0int
                } else {
                    1int
                },
        {
            let other = chars_of(sums[p].0.as_str());
            if text_comes_first(other.as_slice(), key.as_slice()) {
                p = p + 1;
            } else {
                same = same_chars(other.as_slice(), key.as_slice());
                done = true;
            }
        }
        let ghost before = text_items(sums@);
        let ghost item = views[i as int];
        if same {
            let sum: i64 = sums[p].1.wrapping_add(amount);
            let name = sums[p].0.clone();
            sums.set(p, (name, sum));
            assert(text_items(sums@) =~= before.update(p as int, (item.0, sum)));
        } else {
            sums.insert(p, (items[i].0.clone(), amount));
            assert(text_items(sums@) =~= before.insert(p as int, item));
        }
        proof {
            assert forall|a: Seq<char>, b: Seq<char>, c: Seq<char>| #[trigger]
                text_less()(a, b) && #[trigger] text_less()(b, c) implies text_less()(a, c) by {
                lemma_comes_first_transitive(a, b, c);
            }
            assert forall|a: Seq<char>, b: Seq<char>| #[trigger] text_less()(a, b) implies a != b
                && !text_less()(b, a) by {
                lemma_one_comes_first(a, b);
                lemma_one_comes_first(a, a);
            }
            if p < before.len() {
                lemma_one_comes_first(before[p as int].0, item.0);
            }
            lemma_tally_step(
                before,
                text_items(sums@),
                views.take(i as int),
                item,
                text_less(),
                p as int,
            );
            assert(views.take(i + 1) =~= views.take(i as int).push(item));
        }
        i = i + 1;
    }
    assert(views.take(i as int) =~= views);
    sums
}

proof fn lemma_same_front<K>(
    a: Seq<(K, i64)>,
    b: Seq<(K, i64)>,
    items: Seq<(K, i64)>,
    less: spec_fn(K, K) -> bool,
    n: int,
)
    requires
        is_tally(a, items, less),
        is_tally(b, items, less),
        forall|x: K, y: K| #[trigger] less(x, y) ==> x != y && !less(y, x),
        0 <= n <= a.len(),
    ensures
        n <= b.len(),
        a.take(n) == b.take(n),
    decreases n,
{
    if n > 0 {
        let m = n - 1;
        lemma_same_front(a, b, items, less, m);
        assert forall|i: int| 0 <= i < m implies a[i] == b[i] by {
            assert(a.take(m)[i] == b.take(m)[i]);
        }
        let key = a[m].0;
        assert(has_key(a, key));
        assert(has_key(items, key) == has_key(a, key));
        assert(has_key(items, key) == has_key(b, key));
        let j = choose|j: int| 0 <= j < b.len() && (#[trigger] b[j]).0 == key;
        if j < m {
            assert(less(a[j].0, a[m].0));
        }
        if j > m {
            let other = b[m].0;
            assert(has_key(b, other));
            assert(has_key(items, other) == has_key(b, other));
            assert(has_key(items, other) == has_key(a, other));
            let i = choose|i: int| 0 <= i < a.len() && (#[trigger] a[i]).0 == other;
            if i < m {
                assert(less(b[i].0, b[m].0));
            } else {
                assert(less(b[m].0, b[j].0));
                if i > m {
                    assert(less(a[m].0, a[i].0));
                }
            }
        }
        assert(j == m);
        assert(a[m].1 == wrapped_i64(total_for(items, a[m].0)));
        assert(b[m].1 == wrapped_i64(total_for(items, b[m].0)));
        assert(a.take(n) =~= a.take(m).push(a[m]));
        assert(b.take(n) =~= b.take(m).push(b[m]));
    }
}

/// There is one tally of items under numbers.
pub proof fn law_number_tally_unique(
    a: Seq<(i64, i64)>,
    b: Seq<(i64, i64)>,
    items: Seq<(i64, i64)>,
)
    requires
        is_tally(a, items, number_less()),
        is_tally(b, items, number_less()),
    ensures
        a == b,
{
    lemma_same_front(a, b, items, number_less(), a.len() as int);
    lemma_same_front(b, a, items, number_less(), b.len() as int);
    assert(a.take(a.len() as int) =~= a);
    assert(b.take(b.len() as int) =~= b);
}

/// There is one tally of items under texts.
pub proof fn law_text_tally_unique(
    a: Seq<(Seq<char>, i64)>,
    b: Seq<(Seq<char>, i64)>,
    items: Seq<(Seq<char>, i64)>,
)
    requires
        is_tally(a, items, text_less()),
        is_tally(b, items, text_less()),
    ensures
        a == b,
{
    assert forall|x: Seq<char>, y: Seq<char>| #[trigger] text_less()(x, y) implies x != y
        && !text_less()(y, x) by {
        lemma_one_comes_first(x, y);
        lemma_one_comes_first(x, x);
    }
    lemma_same_front(a, b, items, text_less(), a.len() as int);
    lemma_same_front(b, a, items, text_less(), b.len() as int);
    assert(a.take(a.len() as int) =~= a);
    assert(b.take(b.len() as int) =~= b);
}

} // verus!

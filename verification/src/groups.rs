//! Entries of one command: where the first of them stands.
use std::collections::HashMap;

use vstd::prelude::*;

use crate::history::History;
use crate::text::{chars_of, same_text};

verus! {

/// Whether the command at position `i` is the one at position `j`.
pub open spec fn same_command(s: Seq<History>, i: int, j: int) -> bool {
    s[i].command@ == s[j].command@
}

/// Whether no entry before position `i` has the command that stands there.
pub open spec fn is_first(s: Seq<History>, i: int) -> bool {
    forall|j: int| 0 <= j < i ==> !#[trigger] same_command(s, i, j)
}

/// A number by which texts are looked up; that of one text is always the same.
pub open spec fn text_hash(s: Seq<char>) -> u64
    decreases s.len(),
{
    if s.len() == 0 {
        0
    } else {
        text_hash(s.drop_last()).wrapping_mul(31).wrapping_add(s.last() as u64)
    }
}

fn hash_of(s: &str) -> (h: u64)
    ensures
        h == text_hash(s@),
{
    let chars = chars_of(s);
    let mut h: u64 = 0;
    let mut i: usize = 0;
    while i < chars.len()
        invariant
            i <= chars.len(),
            chars@ == s@,
            h == text_hash(chars@.take(i as int)),
        decreases chars.len() - i,
    {
        assert(chars@.take(i + 1).drop_last() =~= chars@.take(i as int));
        h = h.wrapping_mul(31).wrapping_add(chars[i] as u64);
        i = i + 1;
    }
    assert(chars@.take(i as int) =~= chars@);
    h
}

/// Whether each position of `firsts` is that of the first entry with the command that stands at
/// the same place in `s`.
pub open spec fn are_firsts(s: Seq<History>, firsts: Seq<usize>) -> bool {
    forall|i: int|
        0 <= i < firsts.len() ==> #[trigger] firsts[i] <= i && same_command(
            s,
            i,
            firsts[i] as int,
        ) && is_first(s, firsts[i] as int)
}

/// Whether each list in `buckets` holds first positions before `n`, and every first position
/// before `n` is in the list for its command.
spec fn buckets_hold(
    s: Seq<History>,
    buckets: Map<u64, Vec<usize>>,
    firsts: Seq<usize>,
    n: int,
) -> bool {
    &&& forall|key: u64, k: int|
        #![trigger buckets[key]@[k]]
        buckets.contains_key(key) && 0 <= k < buckets[key].len() ==> buckets[key]@[k] < n
            && is_first(s, buckets[key]@[k] as int)
    &&& forall|i: int|
        0 <= i < n && #[trigger] firsts[i] == i ==> buckets.contains_key(
            text_hash(s[i].command@),
        ) && buckets[text_hash(s[i].command@)]@.contains(i as usize)
}

/// For each entry, the position of the first entry with the same command.
pub fn first_positions(s: &Vec<History>) -> (firsts: Vec<usize>)
    ensures
        firsts.len() == s.len(),
        are_firsts(s@, firsts@),
{
    broadcast use vstd::std_specs::hash::group_hash_axioms;

    let mut firsts: Vec<usize> = Vec::with_capacity(s.len());
    let mut buckets: HashMap<u64, Vec<usize>> = HashMap::new();
    let mut i: usize = 0;
    while i < s.len()
        invariant
            i <= s.len(),
            firsts.len() == i,
            are_firsts(s@, firsts@),
            buckets_hold(s@, buckets@, firsts@, i as int),
        decreases s.len() - i,
    {
        let h: u64 = hash_of(s[i].command.as_str());
        let ghost before = buckets@;
        let mut bucket: Vec<usize> = match buckets.remove(&h) {
            Some(bucket) => bucket,
            None => Vec::new(),
        };
        let ghost old_bucket = bucket@;
        assert(before.contains_key(h) ==> old_bucket == before[h]@);
        assert(!before.contains_key(h) ==> old_bucket.len() == 0);
        assert forall|k: int| 0 <= k < old_bucket.len() implies #[trigger] old_bucket[k] < i
            && is_first(s@, old_bucket[k] as int) by {
            assert(before[h]@[k] < i);
        }
        let mut found: Option<usize> = None;
        let mut k: usize = 0;
        while k < bucket.len() && found.is_none()
            invariant
                i < s.len(),
                k <= bucket.len(),
                bucket@ == old_bucket,
                forall|k: int| 0 <= k < old_bucket.len() ==> #[trigger] old_bucket[k] < i,
                found is None ==> forall|j: int|
                    0 <= j < k ==> !same_command(s@, i as int, #[trigger] old_bucket[j] as int),
                found matches Some(p) ==> old_bucket.contains(p) && same_command(
                    s@,
                    i as int,
                    p as int,
                ),
            decreases bucket.len() - k,
        {
            let p: usize = bucket[k];
            if same_text(s[i].command.as_str(), s[p].command.as_str()) {
                assert(old_bucket[k as int] == p);
                found = Some(p);
            }
            k = k + 1;
        }
        let ghost old_firsts = firsts@;
        match found {
            Some(p) => {
                firsts.push(p);
            },
            None => {
                assert forall|j: int| 0 <= j < i implies !#[trigger] same_command(
                    s@,
                    i as int,
                    j,
                ) by {
                    if same_command(s@, i as int, j) {
                        let f = old_firsts[j] as int;
                        assert(same_command(s@, j, f) && is_first(s@, f));
                        assert(old_firsts[f] == f) by {
                            let g = old_firsts[f] as int;
                            if g < f {
                                assert(same_command(s@, f, g));
                            }
                        }
                        assert(before[h]@.contains(f as usize));
                        let at = old_bucket.index_of(f as usize);
                        assert(!same_command(s@, i as int, old_bucket[at] as int));
                    }
                }
                assert(is_first(s@, i as int));
                bucket.push(i);
                firsts.push(i);
            },
        }
        assert forall|j: int| 0 <= j < firsts@.len() implies #[trigger] firsts@[j] <= j
            && same_command(s@, j, firsts@[j] as int) && is_first(s@, firsts@[j] as int) by {
            if j < i {
                assert(firsts@[j] == old_firsts[j]);
            }
        }
        let ghost new_bucket = bucket@;
        buckets.insert(h, bucket);
        assert(buckets@ =~= before.insert(h, bucket));
        assert forall|j: int| 0 <= j < i + 1 && #[trigger] firsts@[j] == j implies buckets@.contains_key(
            text_hash(s@[j].command@),
        ) && buckets@[text_hash(s@[j].command@)]@.contains(j as usize) by {
            let key = text_hash(s@[j].command@);
            if j < i {
                assert(old_firsts[j] == j);
                assert(before[key]@.contains(j as usize));
                if key == h {
                    let at = old_bucket.index_of(j as usize);
                    assert(new_bucket[at] == j);
                }
            } else {
                assert(new_bucket[new_bucket.len() - 1] == i);
            }
        }
        assert forall|key: u64, k: int|
            #![trigger buckets@[key]@[k]]
            buckets@.contains_key(key) && 0 <= k < buckets@[key].len() implies buckets@[key]@[k]
            < i + 1 && is_first(s@, buckets@[key]@[k] as int) by {
            if key != h {
                assert(before[key]@[k] < i);
            } else if k < old_bucket.len() {
                assert(new_bucket[k] == old_bucket[k]);
            }
        }
        i = i + 1;
    }
    firsts
}

} // verus!

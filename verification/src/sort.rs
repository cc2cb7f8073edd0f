//! Sorting what was found by how well it matches and how recent it is.
use vstd::prelude::*;

use crate::clock::Timestamp;
use crate::history::{pick_entries, History};
use crate::order::{
    comes_before, lemma_order_complete, lemma_sorted_places, lemma_stable_sorted, reverse_key,
    reversed_key, stable_order, stable_sorted,
};
use crate::text::{chars_of, contains_text, occurs_in, starts_with};

verus! {

/// How a query stands in a command.
#[derive(Clone, Copy, Debug, PartialEq, Eq, Structural)]
pub enum MatchKind {
    /// At its start.
    Prefix,
    /// Further on in it.
    Within,
    /// Not at all.
    Absent,
}

/// How a query stands in a command.
pub open spec fn match_kind_of(query: Seq<char>, command: Seq<char>) -> MatchKind {
    if query.is_prefix_of(command) {
        MatchKind::Prefix
    } else if occurs_in(command, query) {
        MatchKind::Within
    } else {
        MatchKind::Absent
    }
}

/// How a query stands in a command.
pub fn match_kind(query: &str, command: &str) -> (kind: MatchKind)
    ensures
        kind == match_kind_of(query@, command@),
{
    let query = chars_of(query);
    let command = chars_of(command);
    if starts_with(command.as_slice(), query.as_slice()) {
        MatchKind::Prefix
    } else if contains_text(command.as_slice(), query.as_slice()) {
        MatchKind::Within
    } else {
        MatchKind::Absent
    }
}

/// How many seconds `then` lies before `now`, both in whole seconds, and at least one.
pub fn age_in_seconds(now: &Timestamp, then: &Timestamp) -> (seconds: i64)
    requires
        now.wf(),
        then.wf(),
    ensures
        seconds >= 1,
        seconds == vstd::math::max(1, now.seconds() - then.seconds()),
{
    let diff: i64 = now.unix_timestamp() - then.unix_timestamp();
    if diff < 1 {
        1
    } else {
        diff
    }
}

/// Keys that put the largest score first.
pub open spec fn score_keys(scores: Seq<i64>) -> Seq<i128> {
    scores.map_values(|s: i64| reversed_key(s as i128))
}

/// The entries, the one with the largest score first; of entries with equal scores the one that
/// stands first.
pub fn sort(input: Vec<History>, scores: &Vec<i64>) -> (out: Vec<History>)
    requires
        input.len() == scores.len(),
    ensures
        out@ == stable_sorted(input@, score_keys(scores@)),
{
    let mut keys: Vec<i128> = Vec::with_capacity(scores.len());
    let mut i: usize = 0;
    while i < scores.len()
        invariant
            i <= scores.len(),
            keys.len() == i,
            forall|j: int| 0 <= j < i ==> #[trigger] keys@[j] == reversed_key(scores@[j] as i128),
        decreases scores.len() - i,
    {
        keys.push(reverse_key(scores[i] as i128));
        i = i + 1;
    }
    assert(keys@ =~= score_keys(scores@));
    let order = stable_order(&keys);
    proof {
        lemma_stable_sorted(input@, keys@, order@);
    }
    pick_entries(&input, &order)
}

/// Whether position `k` is one of those at the places `at`.
pub open spec fn has_place(at: Seq<usize>, k: int) -> bool {
    exists|i: int| 0 <= i < at.len() && #[trigger] at[i] == k
}

/// Sorting by score neither adds nor drops entries and puts the largest score first: each place
/// has one entry, no entry has two places, and of two entries the one with the larger score, or
/// on equal scores the one that stood first, comes first.
pub proof fn law_sorted_by_score(input: Seq<History>, scores: Seq<i64>) -> (at: Seq<usize>)
    requires
        input.len() == scores.len(),
        scores.len() <= usize::MAX,
    ensures
        at.len() == input.len(),
        stable_sorted(input, score_keys(scores)).len() == input.len(),
        forall|i: int|
            0 <= i < at.len() ==> #[trigger] at[i] < input.len() && stable_sorted(
                input,
                score_keys(scores),
            )[i] == input[at[i] as int],
        forall|i: int, j: int|
            0 <= i < j < at.len() ==> {
                let a = #[trigger] at[i] as int;
                let b = #[trigger] at[j] as int;
                scores[a] > scores[b] || (scores[a] == scores[b] && a < b)
            },
        forall|k: int|
            0 <= k < input.len() ==> #[trigger] has_place(at, k),
{
    let keys = score_keys(scores);
    let at = lemma_sorted_places(input, keys);
    assert forall|i: int, j: int| 0 <= i < j < at.len() implies ({
        let a = #[trigger] at[i] as int;
        let b = #[trigger] at[j] as int;
        scores[a] > scores[b] || (scores[a] == scores[b] && a < b)
    }) by {
        assert(comes_before(keys, at[i] as int, at[j] as int));
    }
    assert forall|k: int| 0 <= k < input.len() implies #[trigger] has_place(at, k) by {
        lemma_order_complete(keys, at, k);
    }
    at
}

/// A query stands at the start of a command where the command has its characters there, within it
/// where it has them further on only, and is absent where it has them nowhere.
pub proof fn law_match_kind(query: Seq<char>, command: Seq<char>)
    ensures
        match_kind_of(query, command) == (if crate::list_laws::stands_from(command, query, 0) {
            MatchKind::Prefix
        } else if exists|i: int| #[trigger] crate::list_laws::stands_from(command, query, i) {
            MatchKind::Within
        } else {
            MatchKind::Absent
        }),
{
    crate::list_laws::law_occurs_in(command, query);
    if query.is_prefix_of(command) {
        assert forall|k: int| 0 <= k < query.len() implies command[0 + k] == #[trigger] query[k] by {
            assert(command.subrange(0, query.len() as int)[k] == command[k]);
        }
    }
    if crate::list_laws::stands_from(command, query, 0) {
        assert forall|k: int| 0 <= k < query.len() implies #[trigger] command.subrange(
            0,
            query.len() as int,
        )[k] == query[k] by {
            assert(command[0 + k] == query[k]);
        }
        assert(command.subrange(0, query.len() as int) =~= query);
    }
}

} // verus!

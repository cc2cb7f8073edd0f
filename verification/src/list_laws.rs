//! What a list and a search show: which entries, in which order, and none left out.
use vstd::prelude::*;

use crate::clock::clock_shows;
use crate::database::{
    first_of_each, found, is_listed, is_match, is_shown, latest_first, latest_keys,
    lemma_firsts_among, list_of,
};
use crate::dates::{english_date, law_date_is_read, takes_words, DateRead, Dialect};
use crate::filter::{filtered, from_offset, in_mode, is_bound, passing, FilterMode};
use crate::groups::{is_first, same_command};
use crate::history::{Context, History, OptFilters};
use crate::places::{
    are_all_places, are_places, key_before, lemma_filter_all_places, lemma_places_filtered,
    lemma_sorted_all_places,
};
use crate::query::{query_matches, regex_verdicts, tokens_of, SearchMode};
use crate::text::{occurs_at, occurs_in};

verus! {

/// Whether the entry at `a` comes before the one at `b` in a list: it was started later, or at
/// the same time and stands before it in the history.
pub open spec fn later(s: Seq<History>, a: int, b: int) -> bool {
    s[a].timestamp.nanos > s[b].timestamp.nanos || (s[a].timestamp.nanos == s[b].timestamp.nanos
        && a < b)
}

/// Whether a list may show an entry: it is not deleted, or deleted ones are asked for, and one of
/// the modes shows it, or there are none.
pub open spec fn may_list(
    h: History,
    filters: Seq<FilterMode>,
    context: Context,
    include_deleted: bool,
) -> bool {
    &&& include_deleted || h.deleted_at is None
    &&& filters.len() == 0 || exists|i: int|
        0 <= i < filters.len() && in_mode(h@, #[trigger] filters[i], context)
}

/// Whether one of the entries at the positions `at` has the command of the one at `q`.
pub open spec fn command_listed(s: Seq<History>, at: Seq<int>, q: int) -> bool {
    exists|i: int| 0 <= i < at.len() && s[#[trigger] at[i]].command@ == s[q].command@
}

spec fn newest() -> spec_fn(History) -> int {
    |h: History| -1 - h.timestamp.nanos
}

proof fn lemma_listed_places(
    s: Seq<History>,
    filters: Seq<FilterMode>,
    context: Context,
    include_deleted: bool,
) -> (at: Seq<int>)
    requires
        s.len() <= usize::MAX,
    ensures
        ({
            let p = is_listed(filters, context, include_deleted);
            let sorted = latest_first(s.filter(p));
            &&& at.len() == sorted.len()
            &&& forall|i: int| 0 <= i < at.len() ==> sorted[i] == s[#[trigger] at[i]]
            &&& are_places(s, p, newest(), at)
            &&& are_all_places(s, p, at)
        }),
{
    let p = is_listed(filters, context, include_deleted);
    let kept = s.filter(p);
    let keys = latest_keys(kept);
    assert forall|i: int| 0 <= i < keys.len() implies #[trigger] keys[i] == newest()(kept[i]) by {}
    lemma_sorted_all_places(s, p, newest(), keys)
}

/// A list shows the entries that it may show, latest first, each once: `at` tells where they
/// stand in the history. It shows as many as were asked for at most, and misses nothing that it
/// has room for: where it shows fewer, or no number was asked for, every entry that it may show
/// is there. What is left out comes after all that is shown.
pub proof fn law_list_misses_nothing(
    s: Seq<History>,
    filters: Seq<FilterMode>,
    context: Context,
    max: Option<usize>,
    include_deleted: bool,
) -> (at: Seq<int>)
    requires
        s.len() <= usize::MAX,
    ensures
        at.len() == list_of(s, filters, context, max, false, include_deleted).len(),
        forall|i: int|
            0 <= i < at.len() ==> {
                &&& 0 <= #[trigger] at[i] < s.len()
                &&& list_of(s, filters, context, max, false, include_deleted)[i] == s[at[i]]
                &&& may_list(s[at[i]], filters, context, include_deleted)
            },
        forall|i: int, j: int|
            0 <= i < j < at.len() ==> later(s, #[trigger] at[i], #[trigger] at[j]),
        max matches Some(n) ==> at.len() <= n,
        forall|q: int|
            0 <= q < s.len() && #[trigger] may_list(s[q], filters, context, include_deleted)
                && !at.contains(q) ==> {
                &&& max matches Some(n) && at.len() == n
                &&& forall|i: int| 0 <= i < at.len() ==> later(s, #[trigger] at[i], q)
            },
{
    let p = is_listed(filters, context, include_deleted);
    let all = lemma_listed_places(s, filters, context, include_deleted);
    let out = list_of(s, filters, context, max, false, include_deleted);
    let at = all.take(out.len() as int);
    assert forall|i: int, j: int| 0 <= i < j < at.len() implies later(
        s,
        #[trigger] at[i],
        #[trigger] at[j],
    ) by {
        assert(key_before(s, newest(), all[i], all[j]));
    }
    assert forall|i: int| 0 <= i < at.len() implies {
        &&& 0 <= #[trigger] at[i] < s.len()
        &&& out[i] == s[at[i]]
        &&& may_list(s[at[i]], filters, context, include_deleted)
    } by {
        assert(at[i] == all[i]);
        assert(p(s[all[i]]));
    }
    assert forall|q: int|
        0 <= q < s.len() && #[trigger] may_list(s[q], filters, context, include_deleted)
            && !at.contains(q) implies {
        &&& max matches Some(n) && at.len() == n
        &&& forall|i: int| 0 <= i < at.len() ==> later(s, #[trigger] at[i], q)
    } by {
        assert(p(s[q]));
        assert(all.contains(q));
        let k = all.index_of(q);
        if k < at.len() {
            assert(at[k] == q);
        }
        assert forall|i: int| 0 <= i < at.len() implies later(s, #[trigger] at[i], q) by {
            assert(key_before(s, newest(), all[i], all[k]));
        }
    }
    at
}

/// Where only the latest entry of each command is asked for, a list shows no command twice, and
/// of each command the entry that comes first among all that it may show. It misses no command
/// that it has room for: where it shows fewer entries than asked for, or no number was asked for,
/// the command of every entry that it may show is there. What is left out for want of room comes
/// after all that is shown.
pub proof fn law_unique_list_misses_nothing(
    s: Seq<History>,
    filters: Seq<FilterMode>,
    context: Context,
    max: Option<usize>,
    include_deleted: bool,
) -> (at: Seq<int>)
    requires
        s.len() <= usize::MAX,
    ensures
        at.len() == list_of(s, filters, context, max, true, include_deleted).len(),
        forall|i: int|
            0 <= i < at.len() ==> {
                &&& 0 <= #[trigger] at[i] < s.len()
                &&& list_of(s, filters, context, max, true, include_deleted)[i] == s[at[i]]
                &&& may_list(s[at[i]], filters, context, include_deleted)
            },
        forall|i: int, j: int|
            0 <= i < j < at.len() ==> later(s, #[trigger] at[i], #[trigger] at[j])
                && s[at[i]].command@ != s[at[j]].command@,
        max matches Some(n) ==> at.len() <= n,
        forall|q: int, i: int|
            0 <= q < s.len() && may_list(s[q], filters, context, include_deleted) && 0 <= i
                < at.len() && s[q].command@ == s[at[i]].command@ ==> q == at[i] || #[trigger] later(
                s,
                at[i],
                q,
            ),
        forall|q: int|
            0 <= q < s.len() && #[trigger] may_list(s[q], filters, context, include_deleted)
                && !command_listed(s, at, q) ==> {
                &&& max matches Some(n) && at.len() == n
                &&& forall|i: int| 0 <= i < at.len() ==> later(s, #[trigger] at[i], q)
            },
{
    let p = is_listed(filters, context, include_deleted);
    let sorted = latest_first(s.filter(p));
    let all = lemma_listed_places(s, filters, context, include_deleted);
    let firsts = lemma_firsts_among(sorted, sorted.len() as int);
    let out = list_of(s, filters, context, max, true, include_deleted);
    let at = Seq::new(out.len(), |i: int| all[firsts[i]]);
    assert forall|i: int| 0 <= i < at.len() implies {
        &&& 0 <= #[trigger] at[i] < s.len()
        &&& out[i] == s[at[i]]
        &&& may_list(s[at[i]], filters, context, include_deleted)
    } by {
        let k = firsts[i];
        assert(first_of_each(sorted)[i] == sorted[k]);
        assert(sorted[k] == s[all[k]]);
        assert(p(s[all[k]]));
    }
    assert forall|i: int, j: int| 0 <= i < j < at.len() implies later(
        s,
        #[trigger] at[i],
        #[trigger] at[j],
    ) && s[at[i]].command@ != s[at[j]].command@ by {
        assert(firsts[i] < firsts[j]);
        assert(key_before(s, newest(), all[firsts[i]], all[firsts[j]]));
        assert(is_first(sorted, firsts[j]));
        assert(!same_command(sorted, firsts[j], firsts[i]));
        assert(sorted[firsts[i]] == s[all[firsts[i]]] && sorted[firsts[j]] == s[all[firsts[j]]]);
    }
    assert forall|q: int, i: int|
        0 <= q < s.len() && may_list(s[q], filters, context, include_deleted) && 0 <= i < at.len()
            && s[q].command@ == s[at[i]].command@ implies q == at[i] || #[trigger] later(
        s,
        at[i],
        q,
    ) by {
        assert(p(s[q]));
        assert(all.contains(q));
        let k = all.index_of(q);
        let f = firsts[i];
        assert(sorted[k] == s[all[k]] && sorted[f] == s[all[f]]);
        assert(is_first(sorted, f));
        if k < f {
            assert(same_command(sorted, f, k));
        } else if f < k {
            assert(key_before(s, newest(), all[f], all[k]));
        }
    }
    assert forall|q: int|
        0 <= q < s.len() && #[trigger] may_list(s[q], filters, context, include_deleted)
            && !command_listed(s, at, q) implies {
        &&& max matches Some(n) && at.len() == n
        &&& forall|i: int| 0 <= i < at.len() ==> later(s, #[trigger] at[i], q)
    } by {
        assert(p(s[q]));
        assert(all.contains(q));
        let k = all.index_of(q);
        let f = crate::count_laws::lemma_has_first(sorted, k);
        assert(firsts.contains(f));
        let r = firsts.index_of(f);
        assert(sorted[k] == s[all[k]] && sorted[f] == s[all[f]]);
        if r < at.len() {
            assert(at[r] == all[f]);
            assert(s[at[r]].command@ == s[q].command@);
        }
        assert forall|i: int| 0 <= i < at.len() implies later(s, #[trigger] at[i], q) by {
            assert(firsts[i] < firsts[r]);
            assert(key_before(s, newest(), all[firsts[i]], all[k]));
        }
    }
    at
}

/// Whether a search may show an entry: it is not deleted, the mode shows it, and the query finds
/// its command; a query of nothing finds every one.
pub open spec fn may_find(
    h: History,
    mode: SearchMode,
    filter: FilterMode,
    context: Context,
    query: Seq<char>,
) -> bool {
    &&& h.deleted_at is None
    &&& in_mode(h@, filter, context)
    &&& query.len() == 0 || query_matches(
        h.command@,
        tokens_of(query),
        mode,
        regex_verdicts(tokens_of(query), h.command@),
    )
}

/// A search shows all entries that it may show, latest first, each once: `at` tells where they
/// stand in the history.
pub proof fn law_search_misses_nothing(
    s: Seq<History>,
    mode: SearchMode,
    filter: FilterMode,
    context: Context,
    query: Seq<char>,
) -> (at: Seq<int>)
    requires
        s.len() <= usize::MAX,
    ensures
        at.len() == found(s, mode, filter, context, query).len(),
        forall|i: int|
            0 <= i < at.len() ==> {
                &&& 0 <= #[trigger] at[i] < s.len()
                &&& found(s, mode, filter, context, query)[i] == s[at[i]]
                &&& may_find(s[at[i]], mode, filter, context, query)
            },
        forall|i: int, j: int|
            0 <= i < j < at.len() ==> later(s, #[trigger] at[i], #[trigger] at[j]),
        forall|q: int|
            0 <= q < s.len() && #[trigger] may_find(s[q], mode, filter, context, query)
                ==> at.contains(q),
{
    let p = is_shown(filter, context);
    let m = is_match(query, mode);
    let kept = s.filter(p);
    let keys = latest_keys(kept);
    assert forall|i: int| 0 <= i < keys.len() implies #[trigger] keys[i] == newest()(kept[i]) by {}
    let all = lemma_sorted_all_places(s, p, newest(), keys);
    let both = |h: History| p(h) && m(h);
    let at = lemma_places_filtered(s, p, newest(), latest_first(kept), all, m, both);
    assert forall|i: int, j: int| 0 <= i < j < at.len() implies later(
        s,
        #[trigger] at[i],
        #[trigger] at[j],
    ) by {
        assert(key_before(s, newest(), at[i], at[j]));
    }
    assert forall|i: int| 0 <= i < at.len() implies {
        &&& 0 <= #[trigger] at[i] < s.len()
        &&& found(s, mode, filter, context, query)[i] == s[at[i]]
        &&& may_find(s[at[i]], mode, filter, context, query)
    } by {
        assert(both(s[at[i]]));
    }
    assert forall|q: int|
        0 <= q < s.len() && #[trigger] may_find(s[q], mode, filter, context, query) implies
        at.contains(q) by {
        assert(both(s[q]));
    }
    at
}

/// Whether one text stands in another, from some position on, character by character.
pub open spec fn stands_in(text: Seq<char>, part: Seq<char>) -> bool {
    exists|i: int| #[trigger] stands_from(text, part, i)
}

/// Whether one text stands in another from position `i` on, character by character.
pub open spec fn stands_from(text: Seq<char>, part: Seq<char>, i: int) -> bool {
    &&& 0 <= i
    &&& i + part.len() <= text.len()
    &&& forall|k: int| 0 <= k < part.len() ==> text[i + k] == #[trigger] part[k]
}

/// To occur in a text is to stand in it, character by character.
pub proof fn law_occurs_in(text: Seq<char>, part: Seq<char>)
    ensures
        occurs_in(text, part) == stands_in(text, part),
{
    if occurs_in(text, part) {
        let i = choose|i: int| occurs_at(text, part, i);
        assert forall|k: int| 0 <= k < part.len() implies text[i + k] == #[trigger] part[k] by {
            assert(text.subrange(i, i + part.len())[k] == text[i + k]);
        }
        assert(stands_from(text, part, i));
    }
    if stands_in(text, part) {
        let i = choose|i: int| #[trigger] stands_from(text, part, i);
        assert(text.subrange(i, i + part.len()) =~= part);
        assert(occurs_at(text, part, i));
    }
}

/// Whether an entry has what the filters ask for: the code, none of the code that is excluded,
/// the text in its directory, the excluded text nowhere in it, and a time within the bounds.
pub open spec fn has_what_is_asked(
    h: History,
    f: OptFilters,
    before: Option<i128>,
    after: Option<i128>,
) -> bool {
    &&& f.exit matches Some(code) ==> h.exit == code
    &&& f.exclude_exit matches Some(code) ==> h.exit != code
    &&& f.cwd matches Some(dir) ==> stands_in(h.cwd@, dir@)
    &&& f.exclude_cwd matches Some(dir) ==> !stands_in(h.cwd@, dir@)
    &&& before matches Some(t) ==> h.timestamp.nanos <= t
    &&& after matches Some(t) ==> t <= h.timestamp.nanos
}

/// How many of `n` entries an offset leaves out.
pub open spec fn left_out(n: int, offset: Option<i64>) -> int {
    match offset {
        Some(k) => if k < 0 || k > n {
            n
        } else {
            k as int
        },
        None => 0,
    }
}

/// Filters leave the entries that have what they ask for, in the order of the list or in the
/// opposite one: `all` tells where those stand that have it, and of these the ones before the
/// offset, and beyond the limit, are left out and no others.
pub proof fn law_filters_leave_the_rest(
    s: Seq<History>,
    f: OptFilters,
    before: Option<i128>,
    after: Option<i128>,
) -> (all: Seq<int>)
    ensures
        forall|i: int|
            0 <= i < all.len() ==> 0 <= #[trigger] all[i] < s.len() && has_what_is_asked(
                s[all[i]],
                f,
                before,
                after,
            ),
        forall|i: int, j: int| 0 <= i < j < all.len() ==> #[trigger] all[i] < #[trigger] all[j],
        forall|q: int|
            0 <= q < s.len() && #[trigger] has_what_is_asked(s[q], f, before, after)
                ==> all.contains(q),
        ({
            let room = all.len() - left_out(all.len() as int, f.offset);
            filtered(s, f, before, after).len() == (match f.limit {
                Some(n) => if 0 <= n < room {
                    n as int
                } else {
                    room
                },
                None => room,
            })
        }),
        forall|i: int|
            0 <= i < filtered(s, f, before, after).len() ==> #[trigger] filtered(
                s,
                f,
                before,
                after,
            )[i] == s[if f.reverse {
                all[all.len() - 1 - left_out(all.len() as int, f.offset) - i]
            } else {
                all[left_out(all.len() as int, f.offset) + i]
            }],
{
    let p = passing(f, before, after);
    let all = lemma_filter_all_places(s, p);
    assert forall|h: History| #[trigger] p(h) == has_what_is_asked(h, f, before, after) by {
        if let Some(dir) = f.cwd {
            law_occurs_in(h.cwd@, dir@);
        }
        if let Some(dir) = f.exclude_cwd {
            law_occurs_in(h.cwd@, dir@);
        }
    }
    assert forall|i: int| 0 <= i < all.len() implies 0 <= #[trigger] all[i] < s.len()
        && has_what_is_asked(s[all[i]], f, before, after) by {
        assert(p(s[all[i]]));
    }
    assert forall|q: int|
        0 <= q < s.len() && #[trigger] has_what_is_asked(s[q], f, before, after) implies
        all.contains(q) by {
        assert(p(s[q]));
    }
    let kept = s.filter(p);
    let turned = if f.reverse {
        kept.reverse()
    } else {
        kept
    };
    let skip = left_out(all.len() as int, f.offset);
    let rest = from_offset(turned, f.offset);
    assert(rest =~= turned.skip(skip));
    let out = filtered(s, f, before, after);
    assert forall|i: int| 0 <= i < out.len() implies #[trigger] out[i] == s[if f.reverse {
        all[all.len() - 1 - skip - i]
    } else {
        all[skip + i]
    }] by {
        assert(out[i] == rest[i]);
        assert(rest[i] == turned[skip + i]);
    }
    all
}

/// A date that a filter names bounds what is left by what the parser reads from its text, in
/// British English, at the time that the machine's clock was read as: where it reads a date, no
/// entry after `before`, or before `after`, is left; where it reads none, nothing is bound.
pub proof fn law_dates_as_of_the_clock(text: String, bound: Option<i128>) -> (now: i128)
    requires
        is_bound(Some(text), bound),
    ensures
        clock_shows(now),
        bound matches Some(t) ==> english_date(text@, now, true) == DateRead::Date(t),
        forall|t: i128|
            english_date(text@, now, true) == DateRead::Date(t) && takes_words(text@, now, true)
                ==> bound == Some(t),
{
    let now = choose|now: i128| #[trigger]
        clock_shows(now) && crate::clock::in_calendar(now as int) && bound
            == crate::dates::date_value(text@, now, Dialect::Uk);
    law_date_is_read(text@, now, Dialect::Uk);
    now
}

/// A filter that names no date bounds nothing.
pub proof fn law_no_date_bounds_nothing(bound: Option<i128>)
    ensures
        is_bound(None, bound) ==> bound is None,
{
}

} // verus!

//! History held in memory: listing, searching, counting and summing it up.
use vstd::prelude::*;

use crate::filter::{
    apply_opt_filters, filter_from, filtered, in_mode, is_bound, law_filtered_in_order,
    lemma_filter_from, lemma_filter_places, FilterMode,
};
use crate::groups::{are_firsts, first_positions, is_first, same_command};
use crate::history::{pick_entries, Context, History, OptFilters};
use crate::order::{
    comes_before, lemma_order_complete, lemma_sorted_places, lemma_stable_sorted, reverse_key,
    reversed_key, stable_order, stable_sorted,
};
use crate::query::{
    matches_query, query_matches, regex_verdicts, token_views, tokens_of, QueryTokenizer,
    SearchMode,
};
use crate::session::{session_start, session_start_of};

verus! {

/// History held in memory.
pub struct MemoryDatabase {
    pub entries: Vec<History>,
}

/// When each entry was started.
pub open spec fn instants(s: Seq<History>) -> Seq<i128> {
    s.map_values(|h: History| h.timestamp.nanos)
}

/// Keys that put the entries started last first.
pub open spec fn latest_keys(s: Seq<History>) -> Seq<i128> {
    s.map_values(|h: History| reversed_key(h.timestamp.nanos))
}

/// Entries, the one started last first; of entries started at one time, the one that stands
/// first in `s`.
pub open spec fn latest_first(s: Seq<History>) -> Seq<History> {
    stable_sorted(s, latest_keys(s))
}

/// Entries, the one started first first; of entries started at one time, the one that stands
/// first in `s`.
pub open spec fn earliest_first(s: Seq<History>) -> Seq<History> {
    stable_sorted(s, instants(s))
}

/// The entries, the one started last first.
pub fn sort_latest_first(entries: &Vec<History>) -> (out: Vec<History>)
    ensures
        out@ == latest_first(entries@),
{
    let mut keys: Vec<i128> = Vec::with_capacity(entries.len());
    let mut i: usize = 0;
    while i < entries.len()
        invariant
            i <= entries.len(),
            keys.len() == i,
            forall|j: int|
                0 <= j < i ==> #[trigger] keys@[j] == reversed_key(entries@[j].timestamp.nanos),
        decreases entries.len() - i,
    {
        keys.push(reverse_key(entries[i].timestamp.nanos));
        i = i + 1;
    }
    assert(keys@ =~= latest_keys(entries@));
    let order = stable_order(&keys);
    proof {
        lemma_stable_sorted(entries@, keys@, order@);
    }
    pick_entries(entries, &order)
}

/// The entries, the one started first first.
pub fn sort_earliest_first(entries: &Vec<History>) -> (out: Vec<History>)
    ensures
        out@ == earliest_first(entries@),
{
    let mut keys: Vec<i128> = Vec::with_capacity(entries.len());
    let mut i: usize = 0;
    while i < entries.len()
        invariant
            i <= entries.len(),
            keys.len() == i,
            forall|j: int| 0 <= j < i ==> #[trigger] keys@[j] == entries@[j].timestamp.nanos,
        decreases entries.len() - i,
    {
        keys.push(entries[i].timestamp.nanos);
        i = i + 1;
    }
    assert(keys@ =~= instants(entries@));
    let order = stable_order(&keys);
    proof {
        lemma_stable_sorted(entries@, keys@, order@);
    }
    pick_entries(entries, &order)
}

/// Of the first `n` entries, those with a command that no entry before them has.
pub open spec fn firsts_among(s: Seq<History>, n: int) -> Seq<History>
    decreases n,
{
    if n <= 0 {
        Seq::empty()
    } else if is_first(s, n - 1) {
        firsts_among(s, n - 1).push(s[n - 1])
    } else {
        firsts_among(s, n - 1)
    }
}

/// The entries with a command that no entry before them has.
pub open spec fn first_of_each(s: Seq<History>) -> Seq<History> {
    firsts_among(s, s.len() as int)
}

/// The first `max` of a list, or all of it.
pub open spec fn truncated<T>(s: Seq<T>, max: Option<usize>) -> Seq<T> {
    match max {
        Some(n) => if n < s.len() {
            s.take(n as int)
        } else {
            s
        },
        None => s,
    }
}

/// Whether an entry is listed: it is not a deleted one, unless those are asked for, and one of
/// the modes shows it, if any are given.
pub open spec fn listed(
    h: History,
    filters: Seq<FilterMode>,
    context: Context,
    include_deleted: bool,
) -> bool {
    &&& include_deleted || h.live()
    &&& filters.len() == 0 || exists|i: int|
        0 <= i < filters.len() && in_mode(h@, #[trigger] filters[i], context)
}

/// Picks out the entries that are listed.
pub open spec fn is_listed(
    filters: Seq<FilterMode>,
    context: Context,
    include_deleted: bool,
) -> spec_fn(History) -> bool {
    |h: History| listed(h, filters, context, include_deleted)
}

/// Picks out the entries that are not deleted and that a mode shows.
pub open spec fn is_shown(filter: FilterMode, context: Context) -> spec_fn(History) -> bool {
    |h: History| h.live() && in_mode(h@, filter, context)
}

/// Picks out the entries whose command a query matches. A query of nothing matches every one.
pub open spec fn is_match(query: Seq<char>, mode: SearchMode) -> spec_fn(History) -> bool {
    |h: History|
        query.len() == 0 || query_matches(
            h.command@,
            tokens_of(query),
            mode,
            regex_verdicts(tokens_of(query), h.command@),
        )
}

/// What a search finds, latest first, before the filters apply.
pub open spec fn found(
    s: Seq<History>,
    mode: SearchMode,
    filter: FilterMode,
    context: Context,
    query: Seq<char>,
) -> Seq<History> {
    latest_first(s.filter(is_shown(filter, context))).filter(is_match(query, mode))
}

/// What a list shows.
pub open spec fn list_of(
    s: Seq<History>,
    filters: Seq<FilterMode>,
    context: Context,
    max: Option<usize>,
    unique: bool,
    include_deleted: bool,
) -> Seq<History> {
    let sorted = latest_first(s.filter(is_listed(filters, context, include_deleted)));
    truncated(
        if unique {
            first_of_each(sorted)
        } else {
            sorted
        },
        max,
    )
}

/// Picks out the entries that are not deleted.
pub open spec fn is_live() -> spec_fn(History) -> bool {
    |h: History| h.live()
}

/// Picks out the entries with another id.
pub open spec fn has_other_id(id: Seq<char>) -> spec_fn(History) -> bool {
    |h: History| h.id@ != id
}

fn any_mode_shows(
    h: &History,
    filters: &[FilterMode],
    context: &Context,
    start: Option<i128>,
) -> (b: bool)
    requires
        start == session_start_of(context.session@),
    ensures
        b == exists|i: int| 0 <= i < filters.len() && in_mode(h@, #[trigger] filters@[i], *context),
{
    let mut i: usize = 0;
    while i < filters.len()
        invariant
            i <= filters.len(),
            start == session_start_of(context.session@),
            forall|j: int| 0 <= j < i ==> !in_mode(h@, #[trigger] filters@[j], *context),
        decreases filters.len() - i,
    {
        if filter_from(h, filters[i], context, start) {
            assert(in_mode(h@, filters@[i as int], *context));
            return true;
        }
        i = i + 1;
    }
    false
}

/// The first of the entries with each command.
pub fn keep_first_of_each(entries: Vec<History>) -> (out: Vec<History>)
    ensures
        out@ == first_of_each(entries@),
{
    let firsts = first_positions(&entries);
    let mut out: Vec<History> = Vec::new();
    let mut i: usize = 0;
    while i < entries.len()
        invariant
            i <= entries.len(),
            firsts.len() == entries.len(),
            are_firsts(entries@, firsts@),
            out@ == firsts_among(entries@, i as int),
        decreases entries.len() - i,
    {
        proof {
            let f = firsts@[i as int] as int;
            if f < i {
                assert(same_command(entries@, i as int, f));
                assert(!is_first(entries@, i as int));
            }
        }
        if firsts[i] == i {
            out.push(entries[i].clone());
        }
        i = i + 1;
    }
    out
}

impl MemoryDatabase {
    /// Holds `initial`.
    pub fn new(initial: Vec<History>) -> (db: Self)
        ensures
            db.entries == initial,
    {
        MemoryDatabase { entries: initial }
    }

    /// Adds a batch of entries after those that are there.
    pub fn append(&mut self, batch: Vec<History>)
        ensures
            final(self).entries@ == old(self).entries@ + batch@,
    {
        let mut batch = batch;
        self.entries.append(&mut batch);
    }

    /// The first entry with the id `id`.
    pub fn load(&self, id: &str) -> (out: Option<History>)
        ensures
            match out {
                Some(h) => h.id@ == id@ && exists|i: int|
                    0 <= i < self.entries.len() && #[trigger] self.entries@[i] == h && forall|j: int|
                        0 <= j < i ==> (#[trigger] self.entries@[j]).id@ != id@,
                None => forall|j: int|
                    0 <= j < self.entries.len() ==> (#[trigger] self.entries@[j]).id@ != id@,
            },
    {
        let mut i: usize = 0;
        while i < self.entries.len()
            invariant
                i <= self.entries.len(),
                forall|j: int| 0 <= j < i ==> (#[trigger] self.entries@[j]).id@ != id@,
            decreases self.entries.len() - i,
        {
            if crate::text::same_text(self.entries[i].id.0.as_str(), id) {
                let h = self.entries[i].clone();
                assert(self.entries@[i as int] == h);
                return Some(h);
            }
            i = i + 1;
        }
        None
    }

    /// The entries that one of the modes shows, latest first: only the latest of each command
    /// where `unique` is set, and no more than `max`.
    pub fn list(
        &self,
        filters: &[FilterMode],
        context: &Context,
        max: Option<usize>,
        unique: bool,
        include_deleted: bool,
    ) -> (out: Vec<History>)
        ensures
            out@ == list_of(self.entries@, filters@, *context, max, unique, include_deleted),
    {
        let start = session_start(context.session.as_str());
        let ghost p = is_listed(filters@, *context, include_deleted);
        let mut kept: Vec<History> = Vec::new();
        let mut i: usize = 0;
        proof {
            reveal(Seq::filter);
            assert(self.entries@.take(0).filter(p) =~= Seq::empty());
        }
        while i < self.entries.len()
            invariant
                i <= self.entries.len(),
                start == session_start_of(context.session@),
                p == is_listed(filters@, *context, include_deleted),
                kept@ == self.entries@.take(i as int).filter(p),
            decreases self.entries.len() - i,
        {
            proof {
                reveal(Seq::filter);
                assert(self.entries@.take(i + 1).drop_last() =~= self.entries@.take(i as int));
            }
            let h = &self.entries[i];
            if (include_deleted || h.is_live()) && (filters.len() == 0 || any_mode_shows(
                h,
                filters,
                context,
                start,
            )) {
                kept.push(h.clone());
            }
            i = i + 1;
        }
        assert(self.entries@.take(i as int) =~= self.entries@);
        let sorted = sort_latest_first(&kept);
        let mut out = if unique {
            keep_first_of_each(sorted)
        } else {
            sorted
        };
        if let Some(max) = max {
            if max < out.len() {
                out.truncate(max);
            }
        }
        out
    }

    /// What a search finds, latest first, before the filters apply.
    pub fn find(
        &self,
        search_mode: SearchMode,
        filter: FilterMode,
        context: &Context,
        query: &str,
    ) -> (out: Vec<History>)
        ensures
            out@ == found(self.entries@, search_mode, filter, *context, query@),
    {
        let start = session_start(context.session.as_str());
        let ghost p = is_shown(filter, *context);
        let mut kept: Vec<History> = Vec::new();
        let mut i: usize = 0;
        proof {
            reveal(Seq::filter);
            assert(self.entries@.take(0).filter(p) =~= Seq::empty());
        }
        while i < self.entries.len()
            invariant
                i <= self.entries.len(),
                start == session_start_of(context.session@),
                p == is_shown(filter, *context),
                kept@ == self.entries@.take(i as int).filter(p),
            decreases self.entries.len() - i,
        {
            proof {
                reveal(Seq::filter);
                assert(self.entries@.take(i + 1).drop_last() =~= self.entries@.take(i as int));
            }
            let h = &self.entries[i];
            if h.is_live() && filter_from(h, filter, context, start) {
                kept.push(h.clone());
            }
            i = i + 1;
        }
        assert(self.entries@.take(i as int) =~= self.entries@);
        let sorted = sort_latest_first(&kept);
        let tokens = QueryTokenizer::new(query).tokens();
        let all = query.is_empty();
        let ghost m = is_match(query@, search_mode);
        let mut out: Vec<History> = Vec::new();
        let mut k: usize = 0;
        proof {
            reveal(Seq::filter);
            assert(sorted@.take(0).filter(m) =~= Seq::empty());
        }
        while k < sorted.len()
            invariant
                k <= sorted.len(),
                all == (query@.len() == 0),
                token_views(tokens@) == tokens_of(query@),
                m == is_match(query@, search_mode),
                out@ == sorted@.take(k as int).filter(m),
            decreases sorted.len() - k,
        {
            proof {
                reveal(Seq::filter);
                assert(sorted@.take(k + 1).drop_last() =~= sorted@.take(k as int));
            }
            if all || matches_query(sorted[k].command.as_str(), &tokens, search_mode) {
                out.push(sorted[k].clone());
            }
            k = k + 1;
        }
        assert(sorted@.take(k as int) =~= sorted@);
        out
    }

    /// What a search finds, latest first, as far as the filters leave it. The dates that the
    /// filters name are taken as of right now.
    pub fn search(
        &self,
        search_mode: SearchMode,
        filter: FilterMode,
        context: &Context,
        query: &str,
        filter_options: &OptFilters,
    ) -> (out: Vec<History>)
        ensures
            exists|before: Option<i128>, after: Option<i128>|
                is_bound(filter_options.before, before) && is_bound(filter_options.after, after)
                    && out@ == #[trigger] filtered(
                    found(self.entries@, search_mode, filter, *context, query@),
                    *filter_options,
                    before,
                    after,
                ),
            filter_options.before is None && filter_options.after is None ==> out@ == filtered(
                found(self.entries@, search_mode, filter, *context, query@),
                *filter_options,
                None,
                None,
            ),
    {
        apply_opt_filters(self.find(search_mode, filter, context, query), filter_options)
    }

    /// The entries that are not deleted.
    pub fn live_entries(&self) -> (out: Vec<History>)
        ensures
            out@ == self.entries@.filter(is_live()),
    {
        let mut out: Vec<History> = Vec::new();
        let mut i: usize = 0;
        proof {
            reveal(Seq::filter);
            assert(self.entries@.take(0).filter(is_live()) =~= Seq::empty());
        }
        while i < self.entries.len()
            invariant
                i <= self.entries.len(),
                out@ == self.entries@.take(i as int).filter(is_live()),
            decreases self.entries.len() - i,
        {
            proof {
                reveal(Seq::filter);
                assert(self.entries@.take(i + 1).drop_last() =~= self.entries@.take(i as int));
            }
            if self.entries[i].is_live() {
                out.push(self.entries[i].clone());
            }
            i = i + 1;
        }
        assert(self.entries@.take(i as int) =~= self.entries@);
        out
    }

    /// How many entries there are, with the deleted ones or without.
    pub fn history_count(&self, include_deleted: bool) -> (n: i64)
        ensures
            n == (if include_deleted {
                self.entries.len()
            } else {
                self.entries@.filter(is_live()).len() as usize
            }) as i64,
    {
        if include_deleted {
            self.entries.len() as i64
        } else {
            let live = self.live_entries();
            live.len() as i64
        }
    }

    /// Takes out every entry with the id of `h`.
    pub fn delete(&mut self, h: &History)
        ensures
            final(self).entries@ == old(self).entries@.filter(has_other_id(h.id@)),
    {
        let mut kept: Vec<History> = Vec::new();
        let mut i: usize = 0;
        let ghost all = self.entries@;
        proof {
            reveal(Seq::filter);
            assert(all.take(0).filter(has_other_id(h.id@)) =~= Seq::empty());
        }
        while i < self.entries.len()
            invariant
                i <= self.entries.len(),
                all == self.entries@,
                kept@ == all.take(i as int).filter(has_other_id(h.id@)),
            decreases self.entries.len() - i,
        {
            proof {
                reveal(Seq::filter);
                assert(all.take(i + 1).drop_last() =~= all.take(i as int));
            }
            if !self.entries[i].id.same(&h.id) {
                kept.push(self.entries[i].clone());
            }
            i = i + 1;
        }
        assert(all.take(i as int) =~= all);
        self.entries = kept;
    }
}

/// What is deleted is gone: no entry that is left has the id.
pub proof fn law_deleted_is_gone(s: Seq<History>, id: Seq<char>, i: int)
    requires
        0 <= i < s.filter(has_other_id(id)).len(),
    ensures
        s.filter(has_other_id(id))[i].id@ != id,
        s.contains(s.filter(has_other_id(id))[i]),
{
    s.lemma_filter_pred(has_other_id(id), i);
    lemma_filter_from(s, has_other_id(id), i);
}

/// Deleting one entry leaves every entry with another id.
pub proof fn law_delete_keeps_others(s: Seq<History>, id: Seq<char>, h: History)
    requires
        s.contains(h),
        h.id@ != id,
    ensures
        s.filter(has_other_id(id)).contains(h),
{
    let i = s.index_of(h);
    s.lemma_filter_contains(has_other_id(id), i);
}

/// Deleting twice is deleting once.
pub proof fn law_delete_twice(s: Seq<History>, id: Seq<char>)
    ensures
        s.filter(has_other_id(id)).filter(has_other_id(id)) == s.filter(has_other_id(id)),
    decreases s.len(),
{
    reveal(Seq::filter);
    if s.len() > 0 {
        law_delete_twice(s.drop_last(), id);
        let p = has_other_id(id);
        let rest = s.drop_last().filter(p);
        if p(s.last()) {
            assert(rest.push(s.last()).drop_last() =~= rest);
        }
    }
}

proof fn lemma_latest_first(s: Seq<History>, i: int, j: int)
    requires
        s.len() <= usize::MAX,
        0 <= i <= j < latest_first(s).len(),
    ensures
        latest_first(s)[i].timestamp.nanos >= latest_first(s)[j].timestamp.nanos,
        s.contains(latest_first(s)[i]),
{
    let keys = latest_keys(s);
    let at = lemma_sorted_places(s, keys);
    assert(at[i] < keys.len());
    assert(at[j] < keys.len());
    assert(latest_first(s)[i] == s[at[i] as int]);
    assert(latest_first(s)[j] == s[at[j] as int]);
    if i < j {
        assert(comes_before(keys, at[i] as int, at[j] as int));
    }
}

/// Where the entries come from that have a command which no entry before them has.
pub proof fn lemma_firsts_among(s: Seq<History>, n: int) -> (at: Seq<int>)
    requires
        0 <= n <= s.len(),
    ensures
        at.len() == firsts_among(s, n).len(),
        forall|i: int| 0 <= i < at.len() ==> 0 <= #[trigger] at[i] < n && is_first(s, at[i]),
        forall|i: int| 0 <= i < at.len() ==> firsts_among(s, n)[i] == s[#[trigger] at[i]],
        forall|i: int, j: int| 0 <= i < j < at.len() ==> #[trigger] at[i] < #[trigger] at[j],
        forall|p: int| 0 <= p < n && #[trigger] is_first(s, p) ==> at.contains(p),
    decreases n,
{
    if n == 0 {
        Seq::empty()
    } else {
        let rest = lemma_firsts_among(s, n - 1);
        if is_first(s, n - 1) {
            let at = rest.push(n - 1);
            assert forall|p: int| 0 <= p < n && #[trigger] is_first(s, p) implies at.contains(p) by {
                if p < n - 1 {
                    assert(at[rest.index_of(p)] == p);
                } else {
                    assert(at[rest.len() as int] == p);
                }
            }
            at
        } else {
            rest
        }
    }
}

/// A list is in the order of the times at which the commands were started, latest first.
pub proof fn law_list_latest_first(
    s: Seq<History>,
    filters: Seq<FilterMode>,
    context: Context,
    max: Option<usize>,
    unique: bool,
    include_deleted: bool,
    i: int,
    j: int,
)
    requires
        s.len() <= usize::MAX,
        0 <= i <= j < list_of(s, filters, context, max, unique, include_deleted).len(),
    ensures
        list_of(s, filters, context, max, unique, include_deleted)[i].timestamp.nanos >= list_of(
            s,
            filters,
            context,
            max,
            unique,
            include_deleted,
        )[j].timestamp.nanos,
{
    let kept = s.filter(is_listed(filters, context, include_deleted));
    s.lemma_filter_len(is_listed(filters, context, include_deleted));
    let sorted = latest_first(kept);
    if unique {
        let at = lemma_firsts_among(sorted, sorted.len() as int);
        assert(at[i] <= at[j]);
        assert(first_of_each(sorted)[i] == sorted[at[i]]);
        assert(first_of_each(sorted)[j] == sorted[at[j]]);
        lemma_latest_first(kept, at[i], at[j]);
    } else {
        lemma_latest_first(kept, i, j);
    }
}

/// What is listed is in the history and shown by the modes that were asked for, and there is
/// no more of it than asked for.
pub proof fn law_list_holds_listed(
    s: Seq<History>,
    filters: Seq<FilterMode>,
    context: Context,
    max: Option<usize>,
    unique: bool,
    include_deleted: bool,
    i: int,
)
    requires
        s.len() <= usize::MAX,
        0 <= i < list_of(s, filters, context, max, unique, include_deleted).len(),
    ensures
        listed(
            list_of(s, filters, context, max, unique, include_deleted)[i],
            filters,
            context,
            include_deleted,
        ),
        s.contains(list_of(s, filters, context, max, unique, include_deleted)[i]),
        max matches Some(n) ==> list_of(s, filters, context, max, unique, include_deleted).len()
            <= n,
{
    let p = is_listed(filters, context, include_deleted);
    let kept = s.filter(p);
    s.lemma_filter_len(p);
    let sorted = latest_first(kept);
    let h = list_of(s, filters, context, max, unique, include_deleted)[i];
    if unique {
        let at = lemma_firsts_among(sorted, sorted.len() as int);
        assert(first_of_each(sorted)[i] == sorted[at[i]]);
        lemma_latest_first(kept, at[i], at[i]);
    } else {
        lemma_latest_first(kept, i, i);
    }
    assert(kept.contains(h));
    let k = kept.index_of(h);
    s.lemma_filter_pred(p, k);
    lemma_filter_from(s, p, k);
}

/// Where only the latest of each command is asked for, no two entries of a list have the same
/// command.
pub proof fn law_list_unique(
    s: Seq<History>,
    filters: Seq<FilterMode>,
    context: Context,
    max: Option<usize>,
    include_deleted: bool,
    i: int,
    j: int,
)
    requires
        0 <= i < j < list_of(s, filters, context, max, true, include_deleted).len(),
    ensures
        list_of(s, filters, context, max, true, include_deleted)[i].command@ != list_of(
            s,
            filters,
            context,
            max,
            true,
            include_deleted,
        )[j].command@,
{
    let sorted = latest_first(s.filter(is_listed(filters, context, include_deleted)));
    let at = lemma_firsts_among(sorted, sorted.len() as int);
    assert(first_of_each(sorted)[i] == sorted[at[i]]);
    assert(first_of_each(sorted)[j] == sorted[at[j]]);
    assert(at[i] < at[j]);
    assert(is_first(sorted, at[j]));
    assert(!same_command(sorted, at[j], at[i]));
}

/// What a search finds is in the history, is not deleted, is shown by the mode, and matches the
/// query.
pub proof fn law_search_finds_matches(
    s: Seq<History>,
    mode: SearchMode,
    filter: FilterMode,
    context: Context,
    query: Seq<char>,
    i: int,
)
    requires
        s.len() <= usize::MAX,
        0 <= i < found(s, mode, filter, context, query).len(),
    ensures
        s.contains(found(s, mode, filter, context, query)[i]),
        found(s, mode, filter, context, query)[i].live(),
        in_mode(found(s, mode, filter, context, query)[i]@, filter, context),
        is_match(query, mode)(found(s, mode, filter, context, query)[i]),
{
    let p = is_shown(filter, context);
    let m = is_match(query, mode);
    let kept = s.filter(p);
    s.lemma_filter_len(p);
    let sorted = latest_first(kept);
    let h = found(s, mode, filter, context, query)[i];
    sorted.lemma_filter_pred(m, i);
    lemma_filter_from(sorted, m, i);
    let k = sorted.index_of(h);
    lemma_latest_first(kept, k, k);
    let q = kept.index_of(h);
    s.lemma_filter_pred(p, q);
    lemma_filter_from(s, p, q);
}

/// A search misses nothing: an entry that is not deleted, that the mode shows and that the
/// query matches is found.
pub proof fn law_search_complete(
    s: Seq<History>,
    mode: SearchMode,
    filter: FilterMode,
    context: Context,
    query: Seq<char>,
    h: History,
)
    requires
        s.len() <= usize::MAX,
        s.contains(h),
        h.live(),
        in_mode(h@, filter, context),
        is_match(query, mode)(h),
    ensures
        found(s, mode, filter, context, query).contains(h),
{
    let p = is_shown(filter, context);
    let m = is_match(query, mode);
    s.lemma_filter_len(p);
    s.lemma_filter_contains(p, s.index_of(h));
    let kept = s.filter(p);
    let keys = latest_keys(kept);
    let at = lemma_sorted_places(kept, keys);
    let k = kept.index_of(h);
    lemma_order_complete(keys, at, k);
    let i = choose|i: int| 0 <= i < at.len() && #[trigger] at[i] == k;
    let sorted = latest_first(kept);
    assert(sorted[i] == h);
    sorted.lemma_filter_contains(m, i);
}

/// What a search finds is in the order of the times at which the commands were started, latest
/// first, or earliest first where the opposite order is asked for.
pub proof fn law_search_in_order(
    s: Seq<History>,
    mode: SearchMode,
    filter: FilterMode,
    context: Context,
    query: Seq<char>,
    f: OptFilters,
    before: Option<i128>,
    after: Option<i128>,
    i: int,
    j: int,
)
    requires
        s.len() <= usize::MAX,
        0 <= i <= j < filtered(found(s, mode, filter, context, query), f, before, after).len(),
    ensures
        ({
            let out = filtered(found(s, mode, filter, context, query), f, before, after);
            if f.reverse {
                out[i].timestamp.nanos <= out[j].timestamp.nanos
            } else {
                out[i].timestamp.nanos >= out[j].timestamp.nanos
            }
        }),
{
    let kept = s.filter(is_shown(filter, context));
    s.lemma_filter_len(is_shown(filter, context));
    let sorted = latest_first(kept);
    let matching = lemma_filter_places(sorted, is_match(query, mode));
    let at = law_filtered_in_order(found(s, mode, filter, context, query), f, before, after);
    let a = if f.reverse {
        at[j]
    } else {
        at[i]
    };
    let b = if f.reverse {
        at[i]
    } else {
        at[j]
    };
    assert(a <= b);
    assert(matching[a] <= matching[b]);
    lemma_latest_first(kept, matching[a], matching[b]);
}

} // verus!

//! Fuzzy search: which entries a few letters of a command bring up, and in what order.
use fuzzy_matcher::skim::SkimMatcherV2;
use vstd::prelude::*;

use crate::clock::in_calendar;
use crate::count_laws::lemma_has_first;
use crate::counts::{counted, row_views};
use crate::database::{
    first_of_each, is_live, keep_first_of_each, lemma_firsts_among, truncated, MemoryDatabase,
};
use crate::filter::{filter_from, in_mode, FilterMode};
use crate::groups::{is_first, same_command};
use crate::history::{pick_entries, Context, History};
use crate::order::{
    comes_before, lemma_order_complete, lemma_sorted_places, lemma_stable_sorted, stable_order,
    stable_sorted,
};
use crate::paths::{components, path_dist, steps_between, System};
use crate::session::{session_start, session_start_of};
use crate::text::ascii_lower;

verus! {

/// How many entries a fuzzy search brings up at most.
pub const MAX_RESULTS: usize = 200;

/// What is looked for, and from where.
pub struct SearchState {
    pub input: String,
    pub filter_mode: FilterMode,
    pub context: Context,
}

/// `fuzzy_matcher::skim::SkimMatcherV2`: a matcher, with the matrices that it computes in.
#[verifier::external_type_specification]
#[verifier::external_body]
pub struct ExSkimMatcherV2(SkimMatcherV2);

/// The matcher of a fuzzy search.
pub struct Matcher {
    engine: SkimMatcherV2,
}

/// The entries that a fuzzy search looks through, each with how often its command was run, and
/// the matcher that it looks with.
pub struct Search {
    pub all_history: Vec<(History, i32)>,
    pub engine: Matcher,
    /// The system whose paths the entries have.
    pub system: System,
}

/// Whether an upper-case ASCII letter stands in the text.
pub open spec fn has_ascii_upper(s: Seq<char>) -> bool {
    exists|i: int| 0 <= i < s.len() && 'A' <= #[trigger] s[i] <= 'Z'
}

/// Whether two characters are taken for the same: in case the case counts, if they are, and
/// else if they are but for the case of an ASCII letter.
pub open spec fn same_letter(a: char, b: char, case_counts: bool) -> bool {
    if case_counts {
        a == b
    } else {
        ascii_lower(a) == ascii_lower(b)
    }
}

/// Whether the characters of `pattern` stand in `text` one after the other, with or without
/// others between them.
pub open spec fn in_sequence(text: Seq<char>, pattern: Seq<char>, case_counts: bool) -> bool
    decreases text.len(),
{
    if pattern.len() == 0 {
        true
    } else if text.len() == 0 {
        false
    } else if same_letter(text[0], pattern[0], case_counts) {
        in_sequence(text.skip(1), pattern.skip(1), case_counts)
    } else {
        in_sequence(text.skip(1), pattern, case_counts)
    }
}

/// What `fuzzy_matcher::skim::SkimMatcherV2` finds of a pattern in a text: how well it matches,
/// and the positions of the characters that do. `left` are the bonuses that the cells of its
/// matrix have from earlier calls on the thread, row by row.
pub uninterp spec fn fuzzy_found(left: Seq<i32>, text: Seq<char>, pattern: Seq<char>) -> Option<
    (i64, Seq<usize>),
>;

/// What a matcher found, with the positions as a list.
pub open spec fn found_view(found: Option<(i64, Vec<usize>)>) -> Option<(i64, Seq<usize>)> {
    match found {
        Some((score, indices)) => Some((score, indices@)),
        None => None,
    }
}

/// Whether this may be what the matcher finds of a pattern in a text, whatever earlier calls
/// left in it. It finds something exactly where the characters of the pattern stand in the text
/// one after the other, case counting only for a pattern with an upper-case ASCII letter.
pub open spec fn may_find(
    text: Seq<char>,
    pattern: Seq<char>,
    found: Option<(i64, Seq<usize>)>,
) -> bool {
    &&& exists|left: Seq<i32>| #[trigger] fuzzy_found(left, text, pattern) == found
    &&& found is Some == in_sequence(text, pattern, has_ascii_upper(pattern))
    &&& found matches Some((score, indices)) ==> {
        &&& i32::MIN <= score <= i32::MAX
        &&& forall|i: int| 0 <= i < indices.len() ==> #[trigger] indices[i] < text.len()
        &&& forall|i: int, j: int|
            0 <= i < j < indices.len() ==> #[trigger] indices[i] < #[trigger] indices[j]
        &&& pattern.len() == 0 ==> score == 0 && indices.len() == 0
    }
}

/// `SkimMatcherV2::default`: a matcher that has not been asked anything. What it finds is stated
/// of `fuzzy_indices`.
#[verifier::external_body]
fn default_engine() -> SkimMatcherV2 {
    SkimMatcherV2::default()
}

/// `SkimMatcherV2::fuzzy_indices` of a matcher that `SkimMatcherV2::default` made. It finds
/// something exactly where the characters of the pattern stand in the text one after the other,
/// case counting only for a pattern with an upper-case ASCII letter; positions ascend and are
/// positions of the text; of an empty pattern it finds a score of 0 and no positions. How well
/// a pattern matches, and which of several ways is the best, is left to the crate, and rests on
/// the text, the pattern and the bonuses that earlier calls on the thread left in the matrix,
/// which nothing shows; a score fits in thirty-two bits.
#[verifier::external_body]
fn fuzzy_indices(matcher: &Matcher, text: &str, pattern: &str) -> (out: Option<(i64, Vec<usize>)>)
    ensures
        exists|left: Seq<i32>| #[trigger] fuzzy_found(left, text@, pattern@) == found_view(out),
        may_find(text@, pattern@, found_view(out)),
{
    fuzzy_matcher::FuzzyMatcher::fuzzy_indices(&matcher.engine, text, pattern)
}

/// Whether `found` is what a matcher was asked for and gave: a call of `fuzzy_indices` on it with
/// the text and the pattern gave it.
pub closed spec fn matcher_gave(
    matcher: Matcher,
    text: Seq<char>,
    pattern: Seq<char>,
    found: Option<(i64, Seq<usize>)>,
) -> bool {
    exists|t: &str, p: &str, out: Option<(i64, Vec<usize>)>|
        t@ == text && p@ == pattern && found_view(out) == found && #[trigger] call_ensures(
            fuzzy_indices,
            (&matcher, t, p),
            out,
        )
}

/// What the order of an entry among those found goes by.
#[derive(Clone, Copy, Debug, PartialEq, Eq, Structural)]
pub struct Candidate {
    /// Where the entry stands in the history that was looked through.
    pub index: usize,
    /// How well its command matches.
    pub score: i64,
    /// The position of the first character that matches.
    pub begin: usize,
    /// How often its command was run.
    pub count: i32,
    /// How long ago it was started, in nanoseconds.
    pub age: i128,
    /// How many steps up and down lead from its directory to the one that is looked from.
    pub distance: u128,
}

/// What the order of an entry goes by, where `found` is what the matcher found in its command.
pub open spec fn candidate_of(
    windows: bool,
    entry: History,
    count: i32,
    index: int,
    found: (i64, Seq<usize>),
    cwd: Seq<char>,
    now: i128,
) -> Candidate {
    Candidate {
        index: index as usize,
        score: found.0,
        begin: if found.1.len() > 0 {
            found.1[0]
        } else {
            0
        },
        count,
        age: (now - entry.timestamp.nanos) as i128,
        distance: steps_between(
            components(windows, entry.cwd@),
            components(windows, cwd),
        ) as u128,
    }
}

/// The candidates among the entries from `start` on, where `found` is what was found in the
/// command of each of them, in order.
pub open spec fn candidates_of(
    windows: bool,
    rows: Seq<(History, i32)>,
    cwd: Seq<char>,
    now: i128,
    start: int,
    found: Seq<Option<(i64, Seq<usize>)>>,
) -> Seq<Candidate>
    decreases found.len(),
{
    if found.len() == 0 {
        Seq::empty()
    } else {
        let before = candidates_of(windows, rows, cwd, now, start, found.drop_last());
        let index = start + found.len() - 1;
        match found.last() {
            Some(f) => before.push(
                candidate_of(windows, rows[index].0, rows[index].1, index, f, cwd, now),
            ),
            None => before,
        }
    }
}

/// Whether this may be what is found in the command of an entry: nothing where the mode does
/// not show the entry, and else what the matcher may find of the input.
pub open spec fn may_be_found(
    entry: History,
    state: SearchState,
    found: Option<(i64, Seq<usize>)>,
) -> bool {
    if in_mode(entry@, state.filter_mode, state.context) {
        may_find(entry.command@, state.input@, found)
    } else {
        found is None
    }
}

/// Whether this may be what is found in the commands of the entries from `start` on.
pub open spec fn may_all_be_found(
    rows: Seq<(History, i32)>,
    state: SearchState,
    start: int,
    found: Seq<Option<(i64, Seq<usize>)>>,
) -> bool {
    forall|k: int|
        0 <= k < found.len() ==> may_be_found(rows[start + k].0, state, #[trigger] found[k])
}

/// Whether what is found in the command of each entry that the mode shows, from `start` on, is
/// what a matcher gave when it was asked for the input.
pub open spec fn all_given_by(
    matcher: Matcher,
    rows: Seq<(History, i32)>,
    state: SearchState,
    start: int,
    found: Seq<Option<(i64, Seq<usize>)>>,
) -> bool {
    forall|k: int|
        0 <= k < found.len() && in_mode(
            rows[start + k].0@,
            state.filter_mode,
            state.context,
        ) ==> matcher_gave(matcher, rows[start + k].0.command@, state.input@, #[trigger] found[k])
}

/// Where the entries from `start` to before `end` stand that the mode shows and in whose command
/// the characters of the input stand one after the other.
pub open spec fn matching(
    rows: Seq<(History, i32)>,
    state: SearchState,
    start: int,
    end: int,
) -> Seq<usize>
    decreases end - start,
{
    if end <= start {
        Seq::empty()
    } else {
        let before = matching(rows, state, start, end - 1);
        let entry = rows[end - 1].0;
        if in_mode(entry@, state.filter_mode, state.context) && in_sequence(
            entry.command@,
            state.input@,
            has_ascii_upper(state.input@),
        ) {
            before.push((end - 1) as usize)
        } else {
            before
        }
    }
}

/// Where the entries of candidates stand.
pub open spec fn places(candidates: Seq<Candidate>) -> Seq<usize> {
    candidates.map_values(|c: Candidate| c.index)
}

/// What earlier searches left in the matcher changes how well a command matches, but not which
/// entries are candidates: that rests on the mode and the input alone.
pub proof fn law_candidates_match(
    windows: bool,
    rows: Seq<(History, i32)>,
    state: SearchState,
    now: i128,
    start: int,
    found: Seq<Option<(i64, Seq<usize>)>>,
)
    requires
        0 <= start,
        start + found.len() <= rows.len(),
        may_all_be_found(rows, state, start, found),
    ensures
        places(candidates_of(windows, rows, state.context.cwd@, now, start, found)) == matching(
            rows,
            state,
            start,
            start + found.len() as int,
        ),
    decreases found.len(),
{
    let cwd = state.context.cwd@;
    let all = candidates_of(windows, rows, cwd, now, start, found);
    if found.len() == 0 {
        assert(places(all) =~= Seq::empty());
    } else {
        let front = found.drop_last();
        assert forall|k: int| 0 <= k < front.len() implies may_be_found(
            rows[start + k].0,
            state,
            #[trigger] front[k],
        ) by {
            assert(front[k] == found[k]);
        }
        law_candidates_match(windows, rows, state, now, start, front);
        let before = candidates_of(windows, rows, cwd, now, start, front);
        let last = found.len() - 1;
        assert(may_be_found(rows[start + last].0, state, found[last]));
        if let Some(f) = found.last() {
            let c = candidate_of(
                windows,
                rows[start + last].0,
                rows[start + last].1,
                start + last,
                f,
                cwd,
                now,
            );
            assert(places(before.push(c)) =~= places(before).push(c.index));
        }
    }
}

/// What was found in each command, with the positions as lists.
pub open spec fn found_views(found: Seq<Option<(i64, Vec<usize>)>>) -> Seq<
    Option<(i64, Seq<usize>)>,
> {
    found.map_values(|f: Option<(i64, Vec<usize>)>| found_view(f))
}

/// The positions to show, given what was found: none where nothing was.
pub open spec fn highlights_of(found: Option<(i64, Seq<usize>)>) -> Seq<usize> {
    match found {
        Some(f) => f.1,
        None => Seq::empty(),
    }
}

/// The positions to show, given what was found.
pub fn highlights(found: Option<(i64, Vec<usize>)>) -> (indices: Vec<usize>)
    ensures
        indices@ == highlights_of(found_view(found)),
{
    match found {
        Some((_, indices)) => indices,
        None => Vec::new(),
    }
}

/// Whether the calendar has the times of all entries.
pub open spec fn rows_dated(rows: Seq<(History, i32)>) -> bool {
    forall|i: int| 0 <= i < rows.len() ==> (#[trigger] rows[i]).0.timestamp.wf()
}

/// What the order of an entry goes by, where the matcher found `score` and `indices` in its
/// command.
pub fn candidate(
    system: &System,
    row: &(History, i32),
    index: usize,
    score: i64,
    indices: &Vec<usize>,
    cwd: &str,
    now: i128,
) -> (c: Candidate)
    requires
        row.0.timestamp.wf(),
        in_calendar(now as int),
    ensures
        c == candidate_of(
            system.windows(),
            row.0,
            row.1,
            index as int,
            (score, indices@),
            cwd@,
            now,
        ),
{
    let begin: usize = if indices.len() > 0 {
        indices[0]
    } else {
        0
    };
    Candidate {
        index,
        score,
        begin,
        count: row.1,
        age: now - row.0.timestamp.nanos,
        distance: path_dist(system, row.0.cwd.as_str(), cwd),
    }
}

/// The entries that candidates stand for.
pub open spec fn candidate_entries(rows: Seq<(History, i32)>, candidates: Seq<Candidate>) -> Seq<
    History,
> {
    candidates.map_values(|c: Candidate| rows[c.index as int].0)
}

/// Numbers as keys to sort by.
pub open spec fn wide_keys(keys: Seq<i64>) -> Seq<i128> {
    keys.map_values(|k: i64| k as i128)
}

/// The entries found, in order: smallest key first, of one command only the entry that comes
/// first, and no more than `MAX_RESULTS`. Of entries with equal keys the one that stands first
/// among the candidates comes first.
pub open spec fn ranked(entries: Seq<History>, keys: Seq<i64>) -> Seq<History> {
    truncated(first_of_each(stable_sorted(entries, wide_keys(keys))), Some(MAX_RESULTS))
}

impl Search {
    /// Looks through nothing yet.
    pub fn new() -> (search: Self)
        ensures
            search.all_history@ == Seq::<(History, i32)>::empty(),
            search.system.is_this_machine(),
    {
        Search {
            all_history: Vec::new(),
            engine: Matcher { engine: default_engine() },
            system: System::this(),
        }
    }

    /// Takes over all commands of the history, each as one entry.
    pub fn load(&mut self, db: &MemoryDatabase)
        ensures
            row_views(final(self).all_history@) == counted(db.entries@.filter(is_live())),
            final(self).engine == old(self).engine,
            final(self).system == old(self).system,
    {
        self.all_history = db.all_with_count();
    }

    /// The positions of the characters of a command that match what is looked for; none where
    /// the matcher finds nothing.
    pub fn get_highlight_indices(&self, command: &str, search_input: &str) -> (indices: Vec<usize>)
        ensures
            exists|found: Option<(i64, Seq<usize>)>| #[trigger]
                may_find(command@, search_input@, found) && matcher_gave(
                    self.engine,
                    command@,
                    search_input@,
                    found,
                ) && indices@ == highlights_of(found),
    {
        let found = fuzzy_indices(&self.engine, command, search_input);
        assert(may_find(command@, search_input@, found_view(found)));
        assert(matcher_gave(self.engine, command@, search_input@, found_view(found)));
        highlights(found)
    }

    /// The candidates among the entries from `start` on, where `found` is what was found in the
    /// command of each of them, in order.
    pub fn candidates_given(
        &self,
        cwd: &str,
        now: i128,
        start: usize,
        found: &Vec<Option<(i64, Vec<usize>)>>,
    ) -> (out: Vec<Candidate>)
        requires
            start + found.len() <= self.all_history.len(),
            rows_dated(self.all_history@),
            in_calendar(now as int),
        ensures
            out@ == candidates_of(
                self.system.windows(),
                self.all_history@,
                cwd@,
                now,
                start as int,
                found_views(found@),
            ),
    {
        let mut out: Vec<Candidate> = Vec::new();
        let ghost views = found_views(found@);
        let mut k: usize = 0;
        assert(views.take(0) =~= Seq::empty());
        while k < found.len()
            invariant
                k <= found.len(),
                start + found.len() <= self.all_history.len(),
                rows_dated(self.all_history@),
                in_calendar(now as int),
                views == found_views(found@),
                out@ == candidates_of(
                    self.system.windows(),
                    self.all_history@,
                    cwd@,
                    now,
                    start as int,
                    views.take(k as int),
                ),
            decreases found.len() - k,
        {
            let index: usize = start + k;
            assert(views.take(k + 1).drop_last() =~= views.take(k as int));
            assert(views[k as int] == found_view(found@[k as int]));
            match &found[k] {
                Some((score, indices)) => {
                    let row = &self.all_history[index];
                    assert(self.all_history@[index as int].0.timestamp.wf());
                    out.push(candidate(&self.system, row, index, *score, indices, cwd, now));
                },
                None => {},
            }
            k = k + 1;
        }
        assert(views.take(k as int) =~= views);
        out
    }

    /// The candidates among the entries from `start` to before `end`: those that the mode shows
    /// and in whose command the matcher finds the input.
    pub fn candidates(&self, state: &SearchState, now: i128, start: usize, end: usize) -> (out: Vec<
        Candidate,
    >)
        requires
            start <= end <= self.all_history.len(),
            rows_dated(self.all_history@),
            in_calendar(now as int),
        ensures
            exists|found: Seq<Option<(i64, Seq<usize>)>>| #[trigger]
                may_all_be_found(self.all_history@, *state, start as int, found) && all_given_by(
                    self.engine,
                    self.all_history@,
                    *state,
                    start as int,
                    found,
                ) && found.len() == end - start && out@ == candidates_of(
                    self.system.windows(),
                    self.all_history@,
                    state.context.cwd@,
                    now,
                    start as int,
                    found,
                ),
            places(out@) == matching(self.all_history@, *state, start as int, end as int),
            forall|i: int|
                0 <= i < out.len() ==> start <= (#[trigger] out@[i]).index < end,
    {
        let session = session_start(state.context.session.as_str());
        let mut found: Vec<Option<(i64, Vec<usize>)>> = Vec::new();
        let mut i: usize = start;
        while i < end
            invariant
                start <= i <= end <= self.all_history.len(),
                session == session_start_of(state.context.session@),
                found.len() == i - start,
                may_all_be_found(self.all_history@, *state, start as int, found_views(found@)),
                all_given_by(
                    self.engine,
                    self.all_history@,
                    *state,
                    start as int,
                    found_views(found@),
                ),
            decreases end - i,
        {
            let row = &self.all_history[i];
            let ghost before = found_views(found@);
            let f = if filter_from(&row.0, state.filter_mode, &state.context, session) {
                fuzzy_indices(&self.engine, row.0.command.as_str(), state.input.as_str())
            } else {
                None
            };
            assert(in_mode(row.0@, state.filter_mode, state.context) ==> matcher_gave(
                self.engine,
                row.0.command@,
                state.input@,
                found_view(f),
            ));
            assert(may_be_found(self.all_history@[i as int].0, *state, found_view(f)));
            found.push(f);
            assert(found_views(found@) =~= before.push(found_view(f)));
            i = i + 1;
        }
        let out = self.candidates_given(state.context.cwd.as_str(), now, start, &found);
        proof {
            let views = found_views(found@);
            law_candidates_match(
                self.system.windows(),
                self.all_history@,
                *state,
                now,
                start as int,
                views,
            );
            lemma_places_between(self.all_history@, *state, start as int, end as int);
            assert forall|i: int| 0 <= i < out.len() implies start <= (
            #[trigger] out@[i]).index < end by {
                assert(places(out@)[i] == out@[i].index);
            }
        }
        out
    }

    /// The entries found, in the order of the keys that were given to the candidates.
    pub fn rank(&self, candidates: &Vec<Candidate>, keys: &Vec<i64>) -> (out: Vec<History>)
        requires
            candidates.len() == keys.len(),
            forall|i: int|
                0 <= i < candidates.len() ==> (#[trigger] candidates@[i]).index
                    < self.all_history.len(),
        ensures
            out@ == ranked(candidate_entries(self.all_history@, candidates@), keys@),
    {
        let ghost entries = candidate_entries(self.all_history@, candidates@);
        let mut wide: Vec<i128> = Vec::with_capacity(keys.len());
        let mut picked: Vec<History> = Vec::with_capacity(candidates.len());
        let mut i: usize = 0;
        while i < keys.len()
            invariant
                i <= keys.len(),
                candidates.len() == keys.len(),
                forall|i: int|
                    0 <= i < candidates.len() ==> (#[trigger] candidates@[i]).index
                        < self.all_history.len(),
                entries == candidate_entries(self.all_history@, candidates@),
                wide.len() == i,
                picked.len() == i,
                forall|j: int| 0 <= j < i ==> #[trigger] wide@[j] == keys@[j],
                forall|j: int| 0 <= j < i ==> #[trigger] picked@[j] == entries[j],
            decreases keys.len() - i,
        {
            let at: usize = candidates[i].index;
            assert(entries[i as int] == self.all_history@[at as int].0);
            picked.push(self.all_history[at].0.clone());
            wide.push(keys[i] as i128);
            i = i + 1;
        }
        assert(picked@ =~= entries);
        assert(wide@ =~= wide_keys(keys@));
        let order = stable_order(&wide);
        proof {
            lemma_stable_sorted(entries, wide@, order@);
        }
        let sorted = pick_entries(&picked, &order);
        let mut out = keep_first_of_each(sorted);
        if out.len() > MAX_RESULTS {
            out.truncate(MAX_RESULTS);
        }
        out
    }
}

proof fn lemma_places_between(
    rows: Seq<(History, i32)>,
    state: SearchState,
    start: int,
    end: int,
)
    requires
        0 <= start,
        end <= usize::MAX,
    ensures
        forall|i: int|
            0 <= i < matching(rows, state, start, end).len() ==> start <= #[trigger] matching(
                rows,
                state,
                start,
                end,
            )[i] < end,
    decreases end - start,
{
    if start < end {
        lemma_places_between(rows, state, start, end - 1);
        let before = matching(rows, state, start, end - 1);
        let all = matching(rows, state, start, end);
        assert forall|i: int| 0 <= i < all.len() implies start <= #[trigger] all[i] < end by {
            if i < before.len() {
                assert(all[i] == before[i]);
            }
        }
    }
}

/// Whether the command at position `j` is the one at one of the positions `at`.
pub open spec fn command_among(entries: Seq<History>, at: Seq<int>, j: int) -> bool {
    exists|i: int| 0 <= i < at.len() && #[trigger] same_command(entries, at[i], j)
}

/// What a search brings up, told by where the entries stand among the candidates: they come in
/// the order of their keys; each is the best of its command, by its key and then by where it
/// stands; no command comes twice; there are no more than `MAX_RESULTS`; and where there are
/// fewer, every command of a candidate is there. What is left out for want of room comes after all
/// that is there.
pub proof fn law_ranked(entries: Seq<History>, keys: Seq<i64>) -> (at: Seq<int>)
    requires
        entries.len() == keys.len(),
        keys.len() <= usize::MAX,
    ensures
        at.len() == ranked(entries, keys).len(),
        at.len() <= MAX_RESULTS,
        forall|i: int|
            0 <= i < at.len() ==> 0 <= #[trigger] at[i] < entries.len() && ranked(entries, keys)[i]
                == entries[at[i]],
        forall|i: int, j: int|
            0 <= i < j < at.len() ==> comes_before(
                wide_keys(keys),
                #[trigger] at[i],
                #[trigger] at[j],
            ),
        forall|i: int, j: int|
            0 <= i < at.len() && 0 <= j < entries.len() && same_command(
                entries,
                #[trigger] at[i],
                j,
            ) ==> at[i] == j || #[trigger] comes_before(wide_keys(keys), at[i], j),
        forall|i: int, j: int|
            0 <= i < j < at.len() ==> !#[trigger] same_command(entries, at[i], at[j]),
        at.len() < MAX_RESULTS ==> forall|j: int|
            0 <= j < entries.len() ==> #[trigger] command_among(entries, at, j),
        forall|i: int, j: int|
            0 <= i < at.len() && 0 <= j < entries.len() && !command_among(entries, at, j)
                ==> #[trigger] comes_before(wide_keys(keys), at[i], j),
{
    let wide = wide_keys(keys);
    let order = lemma_sorted_places(entries, wide);
    let sorted = stable_sorted(entries, wide);
    let n = sorted.len() as int;
    let all = lemma_firsts_among(sorted, n);
    let count = ranked(entries, keys).len();
    let at = Seq::new(count, |i: int| order[all[i]] as int);
    assert forall|i: int| 0 <= i < at.len() implies 0 <= #[trigger] at[i] < entries.len()
        && ranked(entries, keys)[i] == entries[at[i]] by {
        assert(order[all[i]] < wide.len());
        assert(first_of_each(sorted)[i] == sorted[all[i]]);
    }
    assert forall|i: int, j: int| 0 <= i < j < at.len() implies comes_before(
        wide,
        #[trigger] at[i],
        #[trigger] at[j],
    ) by {
        assert(all[i] < all[j]);
        assert(comes_before(wide, order[all[i]] as int, order[all[j]] as int));
    }
    assert forall|i: int, j: int|
        0 <= i < at.len() && 0 <= j < entries.len() && same_command(
            entries,
            #[trigger] at[i],
            j,
        ) implies at[i] == j || #[trigger] comes_before(wide, at[i], j) by {
        lemma_order_complete(wide, order, j);
        let k = choose|k: int| 0 <= k < order.len() && #[trigger] order[k] == j;
        let f = all[i];
        assert(is_first(sorted, f));
        assert(sorted[k] == entries[j] && sorted[f] == entries[at[i]]);
        if k < f {
            assert(same_command(sorted, f, k));
        } else if f < k {
            assert(comes_before(wide, order[f] as int, order[k] as int));
        }
    }
    assert forall|i: int, j: int| 0 <= i < j < at.len() implies !#[trigger] same_command(
        entries,
        at[i],
        at[j],
    ) by {
        assert(all[i] < all[j] && is_first(sorted, all[j]));
        assert(!same_command(sorted, all[j], all[i]));
        assert(sorted[all[i]] == entries[at[i]] && sorted[all[j]] == entries[at[j]]);
    }
    if at.len() < MAX_RESULTS {
        assert forall|j: int| 0 <= j < entries.len() implies #[trigger] command_among(
            entries,
            at,
            j,
        ) by {
            lemma_order_complete(wide, order, j);
            let k = choose|k: int| 0 <= k < order.len() && #[trigger] order[k] == j;
            let f = lemma_has_first(sorted, k);
            assert(all.contains(f));
            let i = all.index_of(f);
            assert(i < at.len());
            assert(sorted[k] == entries[j] && sorted[f] == entries[at[i]]);
            assert(same_command(entries, at[i], j));
        }
    }
    assert forall|i: int, j: int|
        0 <= i < at.len() && 0 <= j < entries.len() && !command_among(entries, at, j) implies
        #[trigger] comes_before(wide, at[i], j) by {
        lemma_order_complete(wide, order, j);
        let k = choose|k: int| 0 <= k < order.len() && #[trigger] order[k] == j;
        let f = lemma_has_first(sorted, k);
        assert(all.contains(f));
        let r = all.index_of(f);
        assert(sorted[k] == entries[j] && sorted[f] == entries[order[f] as int]);
        if r < at.len() {
            assert(same_command(entries, at[r], j));
        }
        assert(all[i] < all[r]);
        assert(comes_before(wide, order[all[i]] as int, order[k] as int));
    }
    at
}

} // verus!

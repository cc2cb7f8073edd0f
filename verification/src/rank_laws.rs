//! What the order of what a fuzzy search finds goes by, and how far apart directories are.
use vstd::prelude::*;

use crate::history::History;
use crate::groups::same_command;
use crate::order::comes_before;
use crate::paths::{
    common_len, components, is_name, last_slash, parent_of, path_from, steps_between, trimmed_path,
};
use crate::skim::{
    candidate_entries, candidates_of, command_among, highlights_of, law_ranked, ranked, wide_keys,
    Candidate,
};
use crate::text::{first_at, is_char, lemma_first_where, lemma_first_where_is, split_at_char};

verus! {

/// Whether a candidate says of the entry at its index what there is to say: how well the command
/// matches and where the match begins, by what was found, how often the command was run, how long
/// ago it was started, and how far its directory is.
pub open spec fn is_candidate(
    c: Candidate,
    windows: bool,
    rows: Seq<(History, i32)>,
    cwd: Seq<char>,
    now: i128,
    start: int,
    found: Seq<Option<(i64, Seq<usize>)>>,
) -> bool {
    let k = c.index - start;
    &&& 0 <= k < found.len()
    &&& found[k] matches Some((score, indices)) && c.score == score && c.begin == (
    if indices.len() == 0 {
        0
    } else {
        indices[0] as int
    })
    &&& c.count == rows[c.index as int].1
    &&& c.age == (now - rows[c.index as int].0.timestamp.nanos) as i128
    &&& c.distance == steps_between(
        components(windows, rows[c.index as int].0.cwd@),
        components(windows, cwd),
    ) as u128
}

/// Every entry in whose command something was found is a candidate, once, in the order of the
/// history, and no other is; each says of its entry what there is to say.
pub proof fn law_candidates(
    windows: bool,
    rows: Seq<(History, i32)>,
    cwd: Seq<char>,
    now: i128,
    start: int,
    found: Seq<Option<(i64, Seq<usize>)>>,
)
    requires
        0 <= start,
        start + found.len() <= rows.len(),
        rows.len() <= usize::MAX,
    ensures
        forall|i: int|
            0 <= i < candidates_of(windows, rows, cwd, now, start, found).len() ==> is_candidate(
                #[trigger] candidates_of(windows, rows, cwd, now, start, found)[i],
                windows,
                rows,
                cwd,
                now,
                start,
                found,
            ),
        forall|i: int, j: int|
            0 <= i < j < candidates_of(windows, rows, cwd, now, start, found).len() ==> (
            #[trigger] candidates_of(windows, rows, cwd, now, start, found)[i]).index < (
            #[trigger] candidates_of(windows, rows, cwd, now, start, found)[j]).index,
        forall|k: int|
            0 <= k < found.len() && (#[trigger] found[k]) is Some ==> exists|i: int|
                0 <= i < candidates_of(windows, rows, cwd, now, start, found).len() && (
                #[trigger] candidates_of(windows, rows, cwd, now, start, found)[i]).index == start
                    + k,
    decreases found.len(),
{
    let all = candidates_of(windows, rows, cwd, now, start, found);
    if found.len() > 0 {
        let front = found.drop_last();
        law_candidates(windows, rows, cwd, now, start, front);
        let before = candidates_of(windows, rows, cwd, now, start, front);
        let last = found.len() - 1;
        assert forall|i: int| 0 <= i < all.len() implies is_candidate(
            #[trigger] all[i],
            windows,
            rows,
            cwd,
            now,
            start,
            found,
        ) by {
            if i < before.len() {
                assert(all[i] == before[i]);
                assert(is_candidate(before[i], windows, rows, cwd, now, start, front));
                assert(front[all[i].index - start] == found[all[i].index - start]);
            }
        }
        assert forall|i: int, j: int| 0 <= i < j < all.len() implies (#[trigger] all[i]).index < (
        #[trigger] all[j]).index by {
            assert(all[i] == before[i]);
            assert(is_candidate(before[i], windows, rows, cwd, now, start, front));
            if j < before.len() {
                assert(all[j] == before[j]);
            }
        }
        assert forall|k: int| 0 <= k < found.len() && (#[trigger] found[k]) is Some implies exists|
            i: int,
        |
            0 <= i < all.len() && (#[trigger] all[i]).index == start + k by {
            if k < last {
                assert(front[k] == found[k]);
                let i = choose|i: int| 0 <= i < before.len() && (#[trigger] before[i]).index == start
                    + k;
                assert(all[i] == before[i]);
            } else {
                assert(all[all.len() - 1].index == start + k);
            }
        }
    }
}

/// The way from one list of names to another goes up from what is behind their common start and
/// down to what is behind it: where the two go on differently, it takes one step for each name.
pub proof fn law_steps<T>(common: Seq<T>, a: Seq<T>, b: Seq<T>)
    requires
        a.len() > 0 && b.len() > 0 ==> a[0] != b[0],
    ensures
        steps_between(common + a, common + b) == a.len() + b.len(),
    decreases common.len(),
{
    let x = common + a;
    let y = common + b;
    if common.len() == 0 {
        assert(x =~= a && y =~= b);
    } else {
        law_steps(common.skip(1), a, b);
        assert(x.skip(1) =~= common.skip(1) + a);
        assert(y.skip(1) =~= common.skip(1) + b);
        assert(x[0] == common[0] && y[0] == common[0]);
        assert(common_len(x, y) == 1 + common_len(x.skip(1), y.skip(1)));
    }
}

/// Names with a slash between each and the next.
pub open spec fn with_slashes(names: Seq<Seq<char>>) -> Seq<char>
    decreases names.len(),
{
    if names.len() == 0 {
        Seq::empty()
    } else if names.len() == 1 {
        names[0]
    } else {
        names[0] + seq!['/'] + with_slashes(names.skip(1))
    }
}

/// Whether a text can be a name in a path: it is something other than a dot, and has no slash.
pub open spec fn can_be_name(name: Seq<char>) -> bool {
    &&& name.len() > 0
    &&& name != seq!['.']
    &&& forall|i: int| 0 <= i < name.len() ==> #[trigger] name[i] != '/'
}

proof fn lemma_split_names(names: Seq<Seq<char>>)
    requires
        names.len() > 0,
        forall|i: int| 0 <= i < names.len() ==> can_be_name(#[trigger] names[i]),
    ensures
        split_at_char(with_slashes(names), '/') == names,
    decreases names.len(),
{
    let text = with_slashes(names);
    let first = names[0];
    let n = first.len() as int;
    assert(can_be_name(names[0]));
    if names.len() == 1 {
        lemma_first_where(text, is_char('/'));
        let i = first_at(text, '/');
        if i < text.len() {
            assert(names[0][i] != '/');
        }
        assert(split_at_char(text, '/') =~= names);
    } else {
        let rest = names.skip(1);
        assert forall|i: int| 0 <= i < rest.len() implies can_be_name(#[trigger] rest[i]) by {
            assert(rest[i] == names[i + 1]);
        }
        lemma_split_names(rest);
        assert forall|j: int| 0 <= j < n implies !is_char('/')(#[trigger] text[j]) by {
            assert(text[j] == first[j]);
        }
        assert(text[n] == '/');
        lemma_first_where_is(text, is_char('/'), n);
        assert(text.take(n) =~= first);
        assert(text.skip(n + 1) =~= with_slashes(rest));
        assert(seq![first] + rest =~= names);
    }
}

proof fn lemma_all_names(names: Seq<Seq<char>>)
    requires
        forall|i: int| 0 <= i < names.len() ==> can_be_name(#[trigger] names[i]),
    ensures
        names.filter(is_name()) == names,
    decreases names.len(),
{
    reveal(Seq::filter);
    if names.len() > 0 {
        let front = names.drop_last();
        assert forall|i: int| 0 <= i < front.len() implies can_be_name(#[trigger] front[i]) by {
            assert(front[i] == names[i]);
        }
        lemma_all_names(front);
        assert(can_be_name(names[names.len() - 1]));
        assert(front.push(names.last()) =~= names);
    } else {
        assert(names.filter(is_name()) =~= names);
    }
}

/// On a system other than Windows, the components of a path are the names that it is written
/// with, behind the root where it starts with a slash.
pub proof fn law_components(names: Seq<Seq<char>>)
    requires
        names.len() > 0,
        forall|i: int| 0 <= i < names.len() ==> can_be_name(#[trigger] names[i]),
    ensures
        components(false, with_slashes(names)) == names,
        components(false, seq!['/'] + with_slashes(names)) == seq![seq!['/']] + names,
{
    let text = with_slashes(names);
    lemma_split_names(names);
    lemma_all_names(names);
    assert(can_be_name(names[0]));
    assert(text[0] == names[0][0]) by {
        if names.len() > 1 {
            assert(text == names[0] + seq!['/'] + with_slashes(names.skip(1)));
        }
    }
    let rooted = seq!['/'] + text;
    assert(rooted[0] == '/');
    lemma_first_where_is(rooted, is_char('/'), 0);
    assert(rooted.skip(1) =~= text);
    let none = Seq::<char>::empty();
    assert(rooted.take(0) =~= none);
    assert(split_at_char(rooted, '/') == seq![none] + names);
    lemma_nothing_is_no_name(names);
}

proof fn lemma_nothing_is_no_name(names: Seq<Seq<char>>)
    ensures
        (seq![Seq::<char>::empty()] + names).filter(is_name()) == names.filter(is_name()),
{
    let none = seq![Seq::<char>::empty()];
    crate::paths::lemma_filter_one(Seq::<char>::empty(), is_name());
    Seq::filter_distributes_over_add(none, names, is_name());
    assert(Seq::<Seq<char>>::empty() + names.filter(is_name()) =~= names.filter(is_name()));
}

/// Whether the entry at `a` comes before the one at `b`: it has the smaller key, or the same and
/// stands first.
pub open spec fn ranks_before(keys: Seq<i64>, a: int, b: int) -> bool {
    keys[a] < keys[b] || (keys[a] == keys[b] && a < b)
}

/// A search brings up the entries found in the order of their keys, the smallest first, no command
/// twice, of each command the one that comes first, and two hundred at most; where it brings up
/// fewer, the command of every entry found is there, and what is left out for want of room comes
/// after all that is brought up. `at` tells where the entries stand among those found.
pub proof fn law_ranked_by_keys(entries: Seq<History>, keys: Seq<i64>) -> (at: Seq<int>)
    requires
        entries.len() == keys.len(),
        keys.len() <= usize::MAX,
    ensures
        at.len() == ranked(entries, keys).len(),
        at.len() <= 200,
        forall|i: int|
            0 <= i < at.len() ==> 0 <= #[trigger] at[i] < entries.len() && ranked(entries, keys)[i]
                == entries[at[i]],
        forall|i: int, j: int|
            0 <= i < j < at.len() ==> ranks_before(keys, #[trigger] at[i], #[trigger] at[j])
                && entries[at[i]].command@ != entries[at[j]].command@,
        forall|i: int, q: int|
            0 <= i < at.len() && 0 <= q < entries.len() && entries[q].command@
                == entries[at[i]].command@ ==> q == at[i] || #[trigger] ranks_before(
                keys,
                at[i],
                q,
            ),
        at.len() < 200 ==> forall|q: int|
            0 <= q < entries.len() ==> exists|i: int|
                0 <= i < at.len() && entries[#[trigger] at[i]].command@ == (
                #[trigger] entries[q]).command@,
        forall|i: int, q: int|
            0 <= i < at.len() && 0 <= q < entries.len() && (forall|j: int|
                0 <= j < at.len() ==> entries[#[trigger] at[j]].command@ != entries[q].command@)
                ==> #[trigger] ranks_before(keys, at[i], q),
{
    let at = law_ranked(entries, keys);
    let wide = wide_keys(keys);
    assert forall|i: int, j: int| 0 <= i < j < at.len() implies ranks_before(
        keys,
        #[trigger] at[i],
        #[trigger] at[j],
    ) && entries[at[i]].command@ != entries[at[j]].command@ by {
        assert(comes_before(wide, at[i], at[j]));
        assert(!same_command(entries, at[i], at[j]));
        assert(wide[at[i]] == keys[at[i]] && wide[at[j]] == keys[at[j]]);
    }
    assert forall|i: int, q: int|
        0 <= i < at.len() && 0 <= q < entries.len() && entries[q].command@
            == entries[at[i]].command@ implies q == at[i] || #[trigger] ranks_before(
        keys,
        at[i],
        q,
    ) by {
        assert(same_command(entries, at[i], q));
        assert(at[i] == q || comes_before(wide, at[i], q));
        assert(wide[at[i]] == keys[at[i]] && wide[q] == keys[q]);
    }
    assert forall|i: int, q: int|
        0 <= i < at.len() && 0 <= q < entries.len() && (forall|j: int|
            0 <= j < at.len() ==> entries[#[trigger] at[j]].command@ != entries[q].command@)
        implies #[trigger] ranks_before(keys, at[i], q) by {
        if command_among(entries, at, q) {
            let j = choose|j: int| 0 <= j < at.len() && #[trigger] same_command(entries, at[j], q);
            assert(entries[at[j]].command@ == entries[q].command@);
        }
        assert(comes_before(wide, at[i], q));
        assert(wide[at[i]] == keys[at[i]] && wide[q] == keys[q]);
    }
    if at.len() < 200 {
        assert forall|q: int| 0 <= q < entries.len() implies exists|i: int|
            0 <= i < at.len() && entries[#[trigger] at[i]].command@ == (
            #[trigger] entries[q]).command@ by {
            assert(command_among(entries, at, q));
            let i = choose|i: int| 0 <= i < at.len() && #[trigger] same_command(entries, at[i], q);
            assert(entries[at[i]].command@ == entries[q].command@);
        }
    }
    at
}

/// On a system other than Windows, a path that does not start at the root is seen from a directory
/// as the directory, one slash, and the path; one that does is seen as it is.
pub proof fn law_seen_from(base: Seq<char>, path: Seq<char>)
    ensures
        path.len() > 0 && path[0] == '/' ==> path_from(false, base, path) == path,
        (path.len() == 0 || path[0] != '/') && base.len() > 0 && base.last() != '/' ==> path_from(
            false,
            base,
            path,
        ) == base + seq!['/'] + path,
        (path.len() == 0 || path[0] != '/') && (base.len() == 0 || base.last() == '/')
            ==> path_from(false, base, path) == base + path,
{
}

/// On a system other than Windows, a path without its last name is the path up to the slash before
/// it; a single name leaves nothing, or the root where it stands there.
pub proof fn law_parent(names: Seq<Seq<char>>, name: Seq<char>)
    requires
        forall|i: int| 0 <= i < names.len() ==> can_be_name(#[trigger] names[i]),
        can_be_name(name),
    ensures
        names.len() > 0 ==> parent_of(false, with_slashes(names) + seq!['/'] + name) == Some(
            with_slashes(names),
        ),
        names.len() > 0 ==> parent_of(false, seq!['/'] + with_slashes(names) + seq!['/'] + name)
            == Some(seq!['/'] + with_slashes(names)),
        parent_of(false, name) == Some(Seq::<char>::empty()),
        parent_of(false, seq!['/'] + name) == Some(seq!['/']),
        parent_of(false, seq!['/']) is None,
        parent_of(false, Seq::empty()) is None,
{
    let none = Seq::<char>::empty();
    lemma_name_end(none, name);
    lemma_name_end(seq!['/'], name);
    assert(none + name =~= name);
    assert(trimmed_path(none) =~= none);
    assert(trimmed_path(seq!['/']) =~= seq!['/']);
    assert(name.take(0) =~= none);
    assert((seq!['/'] + name).take(1) =~= seq!['/']);
    if names.len() > 0 {
        let dir = with_slashes(names);
        let rooted = seq!['/'] + dir;
        lemma_names_end(names);
        lemma_name_end(dir + seq!['/'], name);
        lemma_name_end(rooted + seq!['/'], name);
        assert((dir + seq!['/'] + name).take(dir.len() as int + 1) =~= dir + seq!['/']);
        assert((rooted + seq!['/'] + name).take(rooted.len() as int + 1) =~= rooted + seq!['/']);
        lemma_slash_trimmed(dir);
        assert(rooted.last() == dir.last());
        assert(rooted.len() > 1);
        if dir.len() == 1 {
            assert(dir[0] == dir.last());
            assert(dir != seq!['.']);
            assert(dir =~= seq![dir[0]]);
        } else {
            assert(rooted[rooted.len() - 2] == dir[dir.len() - 2]);
        }
        lemma_slash_trimmed(rooted);
    }
}

/// Whether a path has nothing at its end that does not count: no slash, and no dot behind one.
spec fn ends_well(s: Seq<char>) -> bool {
    &&& s.len() > 0
    &&& s.last() != '/'
    &&& !(s.len() > 1 && s.last() == '.' && s[s.len() - 2] == '/')
}

/// Behind `front`, which is nothing or ends with a slash, a name ends the path, and is what stands
/// behind its last slash.
proof fn lemma_name_end(front: Seq<char>, name: Seq<char>)
    requires
        can_be_name(name),
        front.len() > 0 ==> front.last() == '/',
    ensures
        trimmed_path(front + name) == front + name,
        last_slash(front + name) == front.len() - 1,
    decreases name.len(),
{
    let s = front + name;
    assert(s.last() == name[name.len() - 1]);
    if s.last() == '.' && s.len() > 1 && s[s.len() - 2] == '/' {
        if name.len() > 1 {
            assert(s[s.len() - 2] == name[name.len() - 2]);
        } else {
            assert(name =~= seq!['.']);
        }
    }
    lemma_last_slash_before(front, name);
}

proof fn lemma_last_slash_before(front: Seq<char>, name: Seq<char>)
    requires
        forall|i: int| 0 <= i < name.len() ==> #[trigger] name[i] != '/',
        front.len() > 0 ==> front.last() == '/',
    ensures
        last_slash(front + name) == front.len() - 1,
    decreases name.len(),
{
    let s = front + name;
    if name.len() == 0 {
        assert(s =~= front);
    } else {
        assert(s.last() == name[name.len() - 1]);
        assert(s.drop_last() =~= front + name.drop_last());
        lemma_last_slash_before(front, name.drop_last());
    }
}

proof fn lemma_names_end(names: Seq<Seq<char>>)
    requires
        names.len() > 0,
        forall|i: int| 0 <= i < names.len() ==> can_be_name(#[trigger] names[i]),
    ensures
        ends_well(with_slashes(names)),
        with_slashes(names) != seq!['.'],
    decreases names.len(),
{
    let s = with_slashes(names);
    assert(can_be_name(names[0]));
    if names.len() == 1 {
        assert(s.last() == names[0][s.len() - 1]);
        if s.len() > 1 {
            assert(names[0][s.len() - 2] != '/');
        }
    } else {
        let rest = names.skip(1);
        assert forall|i: int| 0 <= i < rest.len() implies can_be_name(#[trigger] rest[i]) by {
            assert(rest[i] == names[i + 1]);
        }
        lemma_names_end(rest);
        let t = with_slashes(rest);
        assert(s.last() == t.last());
        if t.len() > 1 {
            assert(s[s.len() - 2] == t[t.len() - 2]);
        } else {
            assert(t =~= seq![t[0]]);
        }
        assert(s.len() > 1);
    }
}

/// A slash at the end of a path does not count.
proof fn lemma_slash_trimmed(s: Seq<char>)
    requires
        ends_well(s),
    ensures
        trimmed_path(s + seq!['/']) == s,
{
    let t = s + seq!['/'];
    assert(t.last() == '/' && t.len() > 1);
    assert(t.drop_last() =~= s);
    assert(trimmed_path(s) == s);
}

/// The entry that a candidate stands for is the one at its index, wherever the candidate comes
/// among the others.
pub proof fn law_candidate_entries(
    rows: Seq<(History, i32)>,
    candidates: Seq<Candidate>,
    i: int,
)
    requires
        0 <= i < candidates.len(),
    ensures
        candidate_entries(rows, candidates).len() == candidates.len(),
        candidate_entries(rows, candidates)[i] == rows[candidates[i].index as int].0,
{
}

/// The positions to show are all those that were found, and none where nothing was.
pub proof fn law_highlights(score: i64, indices: Seq<usize>)
    ensures
        highlights_of(Some((score, indices))) == indices,
        highlights_of(None).len() == 0,
{
}

} // verus!

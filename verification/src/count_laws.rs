//! What holds of entries of one command taken together.
use vstd::prelude::*;
use vstd::utf8::encode_utf8;

use crate::counts::{
    cwds, first_places, group, group_upto, has_command, hostnames, joined, lemma_first_places,
    lemma_group_step, lemma_none_before, merged, sessions,
};
use crate::filter::{in_mode, lemma_parts_put_together, FilterMode};
use crate::groups::{is_first, same_command};
use crate::history::{Context, History};
use crate::session::{in_sessions, law_sessions_put_together, SESSION_BYTES};
use crate::text::has_part;

verus! {

/// How many of the first `n` entries there are in the groups of `places` together.
pub open spec fn grouped(s: Seq<History>, places: Seq<int>, n: int) -> int
    decreases places.len(),
{
    if places.len() == 0 {
        0
    } else {
        grouped(s, places.drop_last(), n) + group_upto(s, places.last(), n).len()
    }
}

proof fn lemma_grouped_same(s: Seq<History>, places: Seq<int>, n: int)
    requires
        0 <= n < s.len(),
        forall|k: int|
            0 <= k < places.len() ==> 0 <= #[trigger] places[k] < s.len() && !same_command(
                s,
                places[k],
                n,
            ),
    ensures
        grouped(s, places, n + 1) == grouped(s, places, n),
    decreases places.len(),
{
    if places.len() > 0 {
        assert forall|k: int| 0 <= k < places.drop_last().len() implies 0
            <= #[trigger] places.drop_last()[k] < s.len() && !same_command(
            s,
            places.drop_last()[k],
            n,
        ) by {
            assert(places[k] == places.drop_last()[k]);
        }
        lemma_grouped_same(s, places.drop_last(), n);
        assert(!same_command(s, places[places.len() - 1], n));
        lemma_group_step(s, places.last(), n);
    }
}

proof fn lemma_grouped_one_more(s: Seq<History>, places: Seq<int>, n: int, at: int)
    requires
        0 <= n < s.len(),
        0 <= at < places.len(),
        same_command(s, places[at], n),
        forall|k: int|
            0 <= k < places.len() ==> 0 <= #[trigger] places[k] < s.len() && (k != at
                ==> !same_command(s, places[k], n)),
    ensures
        grouped(s, places, n + 1) == grouped(s, places, n) + 1,
    decreases places.len(),
{
    let front = places.drop_last();
    assert forall|k: int| 0 <= k < front.len() implies 0 <= #[trigger] front[k] < s.len() && (k != at
        ==> !same_command(s, front[k], n)) by {
        assert(places[k] == front[k]);
    }
    assert(0 <= places[places.len() - 1] < s.len());
    lemma_group_step(s, places.last(), n);
    if at == places.len() - 1 {
        lemma_grouped_same(s, front, n);
    } else {
        assert(front[at] == places[at]);
        lemma_grouped_one_more(s, front, n, at);
        assert(!same_command(s, places[places.len() - 1], n));
    }
}

/// The first entry with a command is listed.
pub proof fn lemma_place_of_first(s: Seq<History>, n: int, f: int) -> (at: int)
    requires
        0 <= f < n <= s.len(),
        is_first(s, f),
    ensures
        0 <= at < first_places(s, n).len(),
        first_places(s, n)[at] == f,
    decreases n,
{
    if f == n - 1 {
        first_places(s, n).len() - 1
    } else {
        lemma_place_of_first(s, n - 1, f)
    }
}

/// Each entry has one that is the first with its command.
pub proof fn lemma_has_first(s: Seq<History>, i: int) -> (f: int)
    requires
        0 <= i < s.len(),
    ensures
        0 <= f <= i,
        is_first(s, f),
        same_command(s, i, f),
    decreases i,
{
    if is_first(s, i) {
        i
    } else {
        let j = choose|j: int| 0 <= j < i && #[trigger] same_command(s, i, j);
        lemma_has_first(s, j)
    }
}

proof fn lemma_counts(s: Seq<History>, n: int)
    requires
        0 <= n <= s.len(),
    ensures
        grouped(s, first_places(s, n), n) == n,
    decreases n,
{
    if n > 0 {
        let m = n - 1;
        lemma_counts(s, m);
        lemma_first_places(s, m);
        lemma_first_places(s, n);
        let places = first_places(s, m);
        if is_first(s, m) {
            assert forall|k: int| 0 <= k < places.len() implies 0 <= #[trigger] places[k] < s.len()
                && !same_command(s, places[k], m) by {
                assert(!same_command(s, m, places[k]));
            }
            lemma_grouped_same(s, places, m);
            assert(first_places(s, n).drop_last() =~= places);
            lemma_none_before(s, m, m);
            lemma_group_step(s, m, m);
        } else {
            let f = lemma_has_first(s, m);
            let at = lemma_place_of_first(s, m, f);
            assert forall|k: int| 0 <= k < places.len() implies 0 <= #[trigger] places[k] < s.len()
                && (k != at ==> !same_command(s, places[k], m)) by {
                if same_command(s, places[k], m) {
                    assert(same_command(s, places[k], places[at]));
                }
            }
            lemma_grouped_one_more(s, places, m, at);
        }
    }
}

/// The counts of all commands add up to the number of entries.
pub proof fn law_counts_add_up(s: Seq<History>)
    ensures
        grouped(s, first_places(s, s.len() as int), s.len() as int) == s.len(),
{
    lemma_counts(s, s.len() as int);
}

/// Every entry is in the group of one of the commands that are counted.
pub proof fn law_every_entry_counted(s: Seq<History>, i: int) -> (at: int)
    requires
        0 <= i < s.len(),
    ensures
        0 <= at < first_places(s, s.len() as int).len(),
        group(s, first_places(s, s.len() as int)[at]).contains(s[i]),
{
    let f = lemma_has_first(s, i);
    let at = lemma_place_of_first(s, s.len() as int, f);
    s.lemma_filter_contains(has_command(s[f].command@), i);
    at
}

/// No two rows of the counts are of one command.
pub proof fn law_counted_once(s: Seq<History>, k: int, l: int)
    requires
        0 <= k < first_places(s, s.len() as int).len(),
        0 <= l < first_places(s, s.len() as int).len(),
        same_command(
            s,
            first_places(s, s.len() as int)[k],
            first_places(s, s.len() as int)[l],
        ),
    ensures
        k == l,
{
    lemma_first_places(s, s.len() as int);
}

/// A part of what is put together is a part of one of the texts.
proof fn lemma_joined_parts(parts: Seq<Seq<char>>, sep: char, part: Seq<char>)
    requires
        parts.len() > 0,
    ensures
        has_part(joined(parts, seq![sep]), sep, part) == exists|i: int|
            0 <= i < parts.len() && has_part(#[trigger] parts[i], sep, part),
    decreases parts.len(),
{
    if parts.len() > 1 {
        let front = parts.drop_last();
        lemma_joined_parts(front, sep, part);
        let a = joined(front, seq![sep]);
        let b = parts.last();
        assert(joined(parts, seq![sep]) =~= a.push(sep) + b);
        lemma_parts_put_together(a, b, sep, part);
        if has_part(a, sep, part) {
            let i = choose|i: int| 0 <= i < front.len() && has_part(#[trigger] front[i], sep, part);
            assert(has_part(parts[i], sep, part));
        }
        if has_part(b, sep, part) {
            assert(has_part(parts[parts.len() - 1], sep, part));
        }
        if exists|i: int| 0 <= i < parts.len() && has_part(#[trigger] parts[i], sep, part) {
            let i = choose|i: int| 0 <= i < parts.len() && has_part(#[trigger] parts[i], sep, part);
            if i < front.len() {
                assert(has_part(front[i], sep, part));
            }
        }
    } else {
        assert(parts[0] == joined(parts, seq![sep]));
    }
}

/// The entry that stands for a group is shown in a mode that goes by host, directory or
/// workspace exactly if one of the group is.
pub proof fn law_group_shown(g: Seq<History>, mode: FilterMode, context: Context)
    requires
        g.len() > 0,
        mode == FilterMode::Host || mode == FilterMode::Directory || mode == FilterMode::Workspace,
    ensures
        in_mode(merged(g), mode, context) == exists|i: int|
            0 <= i < g.len() && in_mode((#[trigger] g[i])@, mode, context),
{
    let (parts, sep, part) = if mode == FilterMode::Host {
        (hostnames(g), ',', context.hostname@)
    } else if mode == FilterMode::Directory {
        (cwds(g), ':', context.cwd@)
    } else {
        (cwds(g), ':', context.workspace())
    };
    lemma_joined_parts(parts, sep, part);
    if exists|i: int| 0 <= i < parts.len() && has_part(#[trigger] parts[i], sep, part) {
        let i = choose|i: int| 0 <= i < parts.len() && has_part(#[trigger] parts[i], sep, part);
        assert(in_mode(g[i]@, mode, context));
    }
    if exists|i: int| 0 <= i < g.len() && in_mode((#[trigger] g[i])@, mode, context) {
        let i = choose|i: int| 0 <= i < g.len() && in_mode((#[trigger] g[i])@, mode, context);
        assert(has_part(parts[i], sep, part));
    }
}

proof fn lemma_joined_front(parts: Seq<Seq<char>>)
    requires
        parts.len() > 0,
    ensures
        joined(parts, Seq::empty()) == parts[0] + joined(parts.skip(1), Seq::empty()),
    decreases parts.len(),
{
    let none = Seq::<char>::empty();
    if parts.len() == 1 {
        assert(joined(parts.skip(1), none) =~= none);
        assert(parts[0] + none =~= parts[0]);
    } else {
        lemma_joined_front(parts.drop_last());
        assert(parts.drop_last().skip(1) =~= parts.skip(1).drop_last());
        assert(parts.skip(1).last() == parts.last());
        if parts.len() == 2 {
            assert(joined(parts.skip(1), none) == parts.skip(1)[0]);
            assert(joined(parts.drop_last(), none) == parts[0]);
        }
        assert(joined(parts, none) =~= parts[0] + joined(parts.skip(1), none));
    }
}

proof fn lemma_joined_sessions(parts: Seq<Seq<char>>, session: Seq<char>)
    requires
        forall|i: int|
            0 <= i < parts.len() ==> encode_utf8(#[trigger] parts[i]).len() == SESSION_BYTES,
    ensures
        in_sessions(joined(parts, Seq::empty()), session) == exists|i: int|
            0 <= i < parts.len() && encode_utf8(#[trigger] parts[i]) == encode_utf8(session),
    decreases parts.len(),
{
    if parts.len() > 0 {
        let rest = parts.skip(1);
        assert forall|i: int| 0 <= i < rest.len() implies encode_utf8(#[trigger] rest[i]).len()
            == SESSION_BYTES by {
            assert(rest[i] == parts[i + 1]);
        }
        lemma_joined_sessions(rest, session);
        lemma_joined_front(parts);
        law_sessions_put_together(parts[0], joined(rest, Seq::empty()), session);
        if exists|i: int| 0 <= i < rest.len() && encode_utf8(#[trigger] rest[i]) == encode_utf8(
            session,
        ) {
            let i = choose|i: int|
                0 <= i < rest.len() && encode_utf8(#[trigger] rest[i]) == encode_utf8(session);
            assert(encode_utf8(parts[i + 1]) == encode_utf8(session));
        }
        if exists|i: int| 0 <= i < parts.len() && encode_utf8(#[trigger] parts[i]) == encode_utf8(
            session,
        ) {
            let i = choose|i: int|
                0 <= i < parts.len() && encode_utf8(#[trigger] parts[i]) == encode_utf8(session);
            if i > 0 {
                assert(rest[i - 1] == parts[i]);
            }
        }
    }
}

/// Where the ids of the sessions of a group take `SESSION_BYTES` bytes each, the entry that
/// stands for the group is shown for a session exactly if one of the group is of that session.
pub proof fn law_group_in_session(g: Seq<History>, context: Context)
    requires
        g.len() > 0,
        forall|i: int|
            0 <= i < g.len() ==> encode_utf8((#[trigger] g[i]).session@).len() == SESSION_BYTES,
    ensures
        in_mode(merged(g), FilterMode::Session, context) == exists|i: int|
            0 <= i < g.len() && (#[trigger] g[i]).session@ == context.session@,
{
    broadcast use vstd::utf8::encode_utf8_decode_utf8;

    let parts = sessions(g);
    assert forall|i: int| 0 <= i < parts.len() implies encode_utf8(#[trigger] parts[i]).len()
        == SESSION_BYTES by {
        assert(parts[i] == g[i].session@);
    }
    lemma_joined_sessions(parts, context.session@);
    if exists|i: int| 0 <= i < parts.len() && encode_utf8(#[trigger] parts[i]) == encode_utf8(
        context.session@,
    ) {
        let i = choose|i: int|
            0 <= i < parts.len() && encode_utf8(#[trigger] parts[i]) == encode_utf8(
                context.session@,
            );
        assert(vstd::utf8::decode_utf8(encode_utf8(parts[i])) == parts[i]);
        assert(g[i].session@ == context.session@);
    }
    if exists|i: int| 0 <= i < g.len() && (#[trigger] g[i]).session@ == context.session@ {
        let i = choose|i: int| 0 <= i < g.len() && (#[trigger] g[i]).session@ == context.session@;
        assert(encode_utf8(parts[i]) == encode_utf8(context.session@));
    }
}

} // verus!

//! What the modes show, in terms of the characters of an entry and of the place.
use vstd::prelude::*;
use vstd::utf8::encode_utf8;

use crate::clock::in_calendar;
use crate::filter::{in_mode, FilterMode};
use crate::history::{Context, History};
use crate::list_laws::stands_from;
use crate::session::{
    in_sessions, session_chunk, session_start_of, uuid_unix_time, uuid_value, SESSION_BYTES,
};
use crate::text::{first_at, has_part, is_char, lemma_first_where, split_at_char};

verus! {

/// Whether a text stands in another from `i` on as a part of its own: nothing or a separator is
/// before it and behind it, and none in it.
pub open spec fn is_part_from(text: Seq<char>, sep: char, part: Seq<char>, i: int) -> bool {
    &&& stands_from(text, part, i)
    &&& i == 0 || text[i - 1] == sep
    &&& i + part.len() == text.len() || text[i + part.len()] == sep
    &&& forall|k: int| 0 <= k < part.len() ==> #[trigger] part[k] != sep
}

/// To be a part of a text is to stand in it between separators.
pub proof fn law_has_part(text: Seq<char>, sep: char, part: Seq<char>)
    ensures
        has_part(text, sep, part) == exists|i: int| is_part_from(text, sep, part, i),
    decreases text.len(),
{
    lemma_first_where(text, is_char(sep));
    let n = first_at(text, sep);
    let parts = split_at_char(text, sep);
    let head = text.take(n);
    if n == text.len() {
        assert(head =~= text);
        assert(parts =~= seq![text]);
        if parts.contains(part) {
            assert(part == text);
            assert(is_part_from(text, sep, part, 0));
        }
        if exists|i: int| is_part_from(text, sep, part, i) {
            let i = choose|i: int| is_part_from(text, sep, part, i);
            assert(i == 0) by {
                if i > 0 {
                    assert(!is_char(sep)(text[i - 1]));
                }
            }
            if part.len() < text.len() {
                assert(!is_char(sep)(text[part.len() as int]));
            }
            assert(part =~= text);
            assert(parts[0] == part);
        }
    } else {
        let rest = text.skip(n + 1);
        law_has_part(rest, sep, part);
        let tail = split_at_char(rest, sep);
        assert(parts == seq![head] + tail);
        assert(parts.contains(part) == (part == head || tail.contains(part))) by {
            if part == head {
                assert(parts[0] == part);
            }
            if tail.contains(part) {
                assert(parts[tail.index_of(part) + 1] == part);
            }
            if parts.contains(part) {
                let k = parts.index_of(part);
                if k > 0 {
                    assert(tail[k - 1] == part);
                }
            }
        }
        if part == head {
            assert forall|k: int| 0 <= k < part.len() implies #[trigger] part[k] != sep by {
                assert(!is_char(sep)(text[k]));
            }
            assert(is_part_from(text, sep, part, 0));
        }
        if exists|i: int| is_part_from(rest, sep, part, i) {
            let i = choose|i: int| is_part_from(rest, sep, part, i);
            assert forall|k: int| 0 <= k < part.len() implies text[n + 1 + i + k]
                == #[trigger] part[k] by {
                assert(rest[i + k] == part[k]);
            }
            if i > 0 {
                assert(rest[i - 1] == text[n + i]);
            }
            if i + part.len() < rest.len() {
                assert(rest[i + part.len()] == text[n + 1 + i + part.len()]);
            }
            assert(is_part_from(text, sep, part, n + 1 + i));
        }
        if exists|i: int| is_part_from(text, sep, part, i) {
            let i = choose|i: int| is_part_from(text, sep, part, i);
            if i == 0 {
                if part.len() > n {
                    assert(text[0 + n] == part[n]);
                } else if part.len() < n {
                    assert(!is_char(sep)(text[part.len() as int]));
                }
                assert(part =~= head);
            } else {
                if i <= n {
                    assert(!is_char(sep)(text[i - 1]));
                }
                let j = i - n - 1;
                assert forall|k: int| 0 <= k < part.len() implies rest[j + k]
                    == #[trigger] part[k] by {
                    assert(text[i + k] == part[k]);
                }
                if j > 0 {
                    assert(rest[j - 1] == text[i - 1]);
                }
                if i + part.len() < text.len() {
                    assert(rest[j + part.len()] == text[i + part.len()]);
                }
                assert(is_part_from(rest, sep, part, j));
            }
        }
    }
}

/// Whether the `k`-th run of thirty-two bytes is `part`; the last run may be shorter.
pub open spec fn is_run_at(bytes: Seq<u8>, part: Seq<u8>, k: int) -> bool {
    &&& 0 <= k && 32 * k < bytes.len()
    &&& part.len() == (if bytes.len() - 32 * k < 32 {
        bytes.len() - 32 * k
    } else {
        32
    })
    &&& forall|j: int| 0 <= j < part.len() ==> bytes[32 * k + j] == #[trigger] part[j]
}

/// Whether a session is one of those of which a text is made, thirty-two bytes each.
pub open spec fn is_session_of(sessions: Seq<char>, session: Seq<char>) -> bool {
    exists|k: int| is_run_at(encode_utf8(sessions), encode_utf8(session), k)
}

proof fn lemma_is_session_of(sessions: Seq<char>, session: Seq<char>)
    ensures
        in_sessions(sessions, session) == is_session_of(sessions, session),
{
    let bytes = encode_utf8(sessions);
    let part = encode_utf8(session);
    if in_sessions(sessions, session) {
        let k = choose|k: int|
            0 <= k && k * SESSION_BYTES < bytes.len() && #[trigger] session_chunk(bytes, k) == part;
        assert forall|j: int| 0 <= j < part.len() implies bytes[32 * k + j] == #[trigger] part[j] by {
            assert(session_chunk(bytes, k)[j] == bytes[32 * k + j]);
        }
        assert(is_run_at(bytes, part, k));
    }
    if is_session_of(sessions, session) {
        let k = choose|k: int| is_run_at(bytes, part, k);
        assert(session_chunk(bytes, k) =~= part);
    }
}

/// What each mode shows: everything; what was run on the host; what was run in the session; that
/// and what was started before the session was; what was run in the directory; and what was run
/// in the root of the repository, or in the directory where there is none. An entry that stands
/// for several lists their hosts with commas and their directories with colons between them.
pub proof fn law_modes(h: History, context: Context)
    ensures
        in_mode(h@, FilterMode::Global, context),
        in_mode(h@, FilterMode::Host, context) == exists|i: int|
            is_part_from(h.hostname@, ',', context.hostname@, i),
        in_mode(h@, FilterMode::Directory, context) == exists|i: int|
            is_part_from(h.cwd@, ':', context.cwd@, i),
        in_mode(h@, FilterMode::Workspace, context) == (match context.git_root {
            Some(root) => exists|i: int| is_part_from(h.cwd@, ':', root@, i),
            None => exists|i: int| is_part_from(h.cwd@, ':', context.cwd@, i),
        }),
        in_mode(h@, FilterMode::Session, context) == is_session_of(h.session@, context.session@),
        in_mode(h@, FilterMode::SessionPreload, context) == (is_session_of(
            h.session@,
            context.session@,
        ) || (session_start_of(context.session@) matches Some(t) && h.timestamp.nanos < t)),
{
    law_has_part(h.hostname@, ',', context.hostname@);
    law_has_part(h.cwd@, ':', context.cwd@);
    if let Some(root) = context.git_root {
        law_has_part(h.cwd@, ':', root@);
    }
    lemma_is_session_of(h.session@, context.session@);
}

/// A session started at the time that its id holds, where that is a UUID with a time which the
/// calendar has; of any other it is not known when it started.
pub proof fn law_session_start(session: Seq<char>)
    ensures
        session_start_of(session) == (match uuid_value(session) {
            Some(value) => match uuid_unix_time(value) {
                Some((seconds, nanos)) => if in_calendar(seconds * 1_000_000_000 + nanos) {
                    Some((seconds * 1_000_000_000 + nanos) as i128)
                } else {
                    None
                },
                None => None,
            },
            None => None,
        }),
{
}

} // verus!

//! What is known of a command from all the times it was run.
use vstd::prelude::*;

use crate::clock::{
    date_of, days_to_year, is_date_of, law_date_unique, law_day_dated, CalendarDate, Timestamp, DAY,
};
use crate::counts::has_command;
use crate::database::{earliest_first, is_live, sort_earliest_first, MemoryDatabase};
use crate::history::{History, HistoryStats};
use crate::numbers::{
    digit_char, digit_of, lemma_wrapped_add, push_zero_padded, wrapped_i64, zero_padded,
};
use crate::tally::{
    is_tally, number_less, tally_numbers, tally_texts, text_items, text_less,
};
use crate::text::same_text;

verus! {

/// Picks out the entries of the session `text`.
pub open spec fn has_session(text: Seq<char>) -> spec_fn(History) -> bool {
    |h: History| h.session@ == text
}

/// The entries of one session that are not deleted, earliest first.
pub open spec fn session_entries(s: Seq<History>, session: Seq<char>) -> Seq<History> {
    earliest_first(s.filter(is_live()).filter(has_session(session)))
}

/// The entries with one command that are not deleted.
pub open spec fn runs_of(s: Seq<History>, command: Seq<char>) -> Seq<History> {
    s.filter(is_live()).filter(has_command(command))
}

/// The position of the first entry with the id `id`, or the length where there is none.
pub open spec fn id_position(s: Seq<History>, id: Seq<char>) -> int
    decreases s.len(),
{
    if s.len() == 0 || s[0].id@ == id {
        0
    } else {
        1 + id_position(s.skip(1), id)
    }
}

/// The entry before the one with the id `id`.
pub open spec fn entry_before(s: Seq<History>, id: Seq<char>) -> Option<History> {
    let i = id_position(s, id);
    if 0 < i < s.len() {
        Some(s[i - 1])
    } else {
        None
    }
}

/// The entry after the one with the id `id`.
pub open spec fn entry_after(s: Seq<History>, id: Seq<char>) -> Option<History> {
    let i = id_position(s, id);
    if i + 1 < s.len() {
        Some(s[i + 1])
    } else {
        None
    }
}

/// Picks out the entries that are known to have taken some time.
pub open spec fn took_time() -> spec_fn(History) -> bool {
    |h: History| h.duration > 0
}

/// How long the entries took in all.
pub open spec fn total_duration(s: Seq<History>) -> int
    decreases s.len(),
{
    if s.len() == 0 {
        0
    } else {
        total_duration(s.drop_last()) + s.last().duration
    }
}

/// How long the entries took on average, those that are known to have taken some time: the
/// total, counted in sixty-four bits with a sign, divided by how many there are with the rest
/// dropped, and counted in sixty-four bits without a sign.
pub open spec fn average_duration(s: Seq<History>) -> u64 {
    let timed = s.filter(took_time());
    let total = wrapped_i64(total_duration(timed));
    if timed.len() == 0 {
        0
    } else if total >= 0 {
        (total as int / timed.len() as int) as u64
    } else {
        ((0x1_0000_0000_0000_0000 - (-total) / timed.len() as int) % 0x1_0000_0000_0000_0000) as u64
    }
}

/// The calendar date of the day `day` days after 1970-01-01.
pub open spec fn date_of_day(day: int) -> CalendarDate {
    choose|date: CalendarDate| is_date_of(date, day)
}

/// The calendar date on which a timestamp fell, by the clock that it was read from.
pub open spec fn date_on(t: Timestamp) -> CalendarDate {
    date_of_day(t.local() / DAY as int)
}

/// The day of the week of a date as a digit, 0 for Sunday.
pub open spec fn day_text(date: CalendarDate) -> Seq<char> {
    seq![digit_of(date.weekday as int)]
}

/// A year as at least four characters, with zeros after the sign where it has fewer digits.
pub open spec fn year_text(year: i32) -> Seq<char> {
    if year < 0 {
        seq!['-'] + zero_padded((-year) as nat, 3)
    } else {
        zero_padded(year as nat, 4)
    }
}

/// The first day of the month of a date, as `01-MM-YYYY`.
pub open spec fn month_text(date: CalendarDate) -> Seq<char> {
    seq!['0', '1', '-'] + zero_padded(date.month as nat, 2) + seq!['-'] + year_text(date.year)
}

/// The code that each run ended with, each counting one.
pub open spec fn exit_items(s: Seq<History>) -> Seq<(i64, i64)> {
    s.map_values(|h: History| (h.exit, 1i64))
}

/// The day of the week of each run, each counting one.
pub open spec fn day_items(s: Seq<History>) -> Seq<(Seq<char>, i64)> {
    s.map_values(|h: History| (day_text(date_on(h.timestamp)), 1i64))
}

/// The month of each run, and how long it took.
pub open spec fn month_items(s: Seq<History>) -> Seq<(Seq<char>, i64)> {
    s.map_values(|h: History| (month_text(date_on(h.timestamp)), h.duration))
}

/// Whether `stats` is what the history `s` tells of the command of `h`.
pub open spec fn is_stats_of(stats: HistoryStats, s: Seq<History>, h: History) -> bool {
    let session = session_entries(s, h.session@);
    let runs = runs_of(s, h.command@);
    &&& stats.previous == entry_before(session, h.id@)
    &&& stats.next == entry_after(session, h.id@)
    &&& stats.total == runs.len()
    &&& stats.average_duration == average_duration(runs)
    &&& is_tally(stats.exits@, exit_items(runs), number_less())
    &&& is_tally(text_items(stats.day_of_week@), day_items(runs), text_less())
    &&& is_tally(text_items(stats.duration_over_time@), month_items(runs), text_less())
}

/// Whether the calendar has the times of all entries.
pub open spec fn all_dated(s: Seq<History>) -> bool {
    forall|i: int| 0 <= i < s.len() ==> (#[trigger] s[i]).timestamp.wf()
}

proof fn lemma_id_position(s: Seq<History>, id: Seq<char>, i: int)
    requires
        0 <= i <= s.len(),
        forall|j: int| 0 <= j < i ==> (#[trigger] s[j]).id@ != id,
        i < s.len() ==> s[i].id@ == id,
    ensures
        id_position(s, id) == i,
    decreases s.len(),
{
    if i > 0 {
        assert(s[0].id@ != id);
        assert forall|j: int| 0 <= j < i - 1 implies (#[trigger] s.skip(1)[j]).id@ != id by {
            assert(s[j + 1].id@ != id);
        }
        lemma_id_position(s.skip(1), id, i - 1);
    }
}

/// What holds of all entries holds of those that a filter leaves.
proof fn lemma_filter_dated(s: Seq<History>, p: spec_fn(History) -> bool)
    requires
        all_dated(s),
    ensures
        all_dated(s.filter(p)),
    decreases s.len(),
{
    reveal(Seq::filter);
    if s.len() > 0 {
        assert(s[s.len() - 1].timestamp.wf());
        assert forall|i: int| 0 <= i < s.drop_last().len() implies (
        #[trigger] s.drop_last()[i]).timestamp.wf() by {
            assert(s.drop_last()[i] == s[i]);
        }
        lemma_filter_dated(s.drop_last(), p);
    }
}

/// Texts of the day and of the month of a timestamp.
fn date_texts(t: &Timestamp) -> (out: (String, String))
    requires
        t.wf(),
    ensures
        out.0@ == day_text(date_on(*t)),
        out.1@ == month_text(date_on(*t)),
{
    let date = date_of(t);
    proof {
        law_date_unique(date, date_on(*t), t.local() / DAY as int);
    }
    let mut day = String::new();
    day.push(digit_char(date.weekday));
    assert(day@ =~= day_text(date));
    let mut month = String::new();
    month.push('0');
    month.push('1');
    month.push('-');
    push_zero_padded(&mut month, date.month as u64, 2);
    month.push('-');
    if date.year < 0 {
        month.push('-');
        let n: u64 = (0 - (date.year as i64)) as u64;
        push_zero_padded(&mut month, n, 3);
    } else {
        push_zero_padded(&mut month, date.year as u64, 4);
    }
    assert(month@ =~= month_text(date));
    (day, month)
}

/// The average of a total over a number of runs.
fn average_of(total: i64, n: u64) -> (average: u64)
    requires
        n > 0,
    ensures
        average == (if total >= 0 {
            total as int / n as int
        } else {
            (0x1_0000_0000_0000_0000 - (-total) / n as int) % 0x1_0000_0000_0000_0000
        }),
{
    if total >= 0 {
        total as u64 / n
    } else {
        let size: u64 = (0 - (total as i128)) as u64;
        0u64.wrapping_sub(size / n)
    }
}

impl MemoryDatabase {
    /// Entries that are not deleted and that have the command, or the session, `text`.
    fn live_with(&self, text: &str, by_command: bool) -> (out: Vec<History>)
        ensures
            by_command ==> out@ == runs_of(self.entries@, text@),
            !by_command ==> out@ == self.entries@.filter(is_live()).filter(has_session(text@)),
    {
        let live = self.live_entries();
        let ghost p = if by_command {
            has_command(text@)
        } else {
            has_session(text@)
        };
        let mut out: Vec<History> = Vec::new();
        let mut i: usize = 0;
        proof {
            reveal(Seq::filter);
            assert(live@.take(0).filter(p) =~= Seq::empty());
        }
        while i < live.len()
            invariant
                i <= live.len(),
                p == (if by_command {
                    has_command(text@)
                } else {
                    has_session(text@)
                }),
                out@ == live@.take(i as int).filter(p),
            decreases live.len() - i,
        {
            proof {
                reveal(Seq::filter);
                assert(live@.take(i + 1).drop_last() =~= live@.take(i as int));
            }
            let h = &live[i];
            let other: &str = if by_command {
                h.command.as_str()
            } else {
                h.session.as_str()
            };
            if same_text(other, text) {
                out.push(h.clone());
            }
            i = i + 1;
        }
        assert(live@.take(i as int) =~= live@);
        out
    }

    /// What the history tells of the command of `h`: what was run before and after it in its
    /// session, how often it was run, how long it took, how it ended, and on which days of the
    /// week and in which months it was run.
    pub fn stats(&self, h: &History) -> (stats: HistoryStats)
        requires
            all_dated(self.entries@),
        ensures
            is_stats_of(stats, self.entries@, *h),
    {
        let of_session = self.live_with(h.session.as_str(), false);
        let session = sort_earliest_first(&of_session);
        let mut at: usize = 0;
        while at < session.len() && !session[at].id.same(&h.id)
            invariant
                at <= session.len(),
                forall|j: int| 0 <= j < at ==> (#[trigger] session@[j]).id@ != h.id@,
            decreases session.len() - at,
        {
            at = at + 1;
        }
        proof {
            lemma_id_position(session@, h.id@, at as int);
        }
        let previous = if 0 < at && at < session.len() {
            Some(session[at - 1].clone())
        } else {
            None
        };
        let next = if at < session.len() && at + 1 < session.len() {
            Some(session[at + 1].clone())
        } else {
            None
        };
        let runs = self.live_with(h.command.as_str(), true);
        proof {
            lemma_filter_dated(self.entries@, is_live());
            lemma_filter_dated(self.entries@.filter(is_live()), has_command(h.command@));
            reveal(Seq::filter);
            assert(runs@.take(0).filter(took_time()) =~= Seq::empty());
        }
        let mut exits: Vec<(i64, i64)> = Vec::with_capacity(runs.len());
        let mut days: Vec<(String, i64)> = Vec::with_capacity(runs.len());
        let mut months: Vec<(String, i64)> = Vec::with_capacity(runs.len());
        let mut total: i64 = 0;
        let mut timed: u64 = 0;
        let mut i: usize = 0;
        while i < runs.len()
            invariant
                i <= runs.len(),
                all_dated(runs@),
                exits.len() == i,
                days.len() == i,
                months.len() == i,
                timed <= i,
                forall|j: int| 0 <= j < i ==> #[trigger] exits@[j] == exit_items(runs@)[j],
                forall|j: int|
                    0 <= j < i ==> ((#[trigger] days@[j]).0@, days@[j].1) == day_items(runs@)[j],
                forall|j: int|
                    0 <= j < i ==> ((#[trigger] months@[j]).0@, months@[j].1) == month_items(
                        runs@,
                    )[j],
                timed == runs@.take(i as int).filter(took_time()).len(),
                total == wrapped_i64(total_duration(runs@.take(i as int).filter(took_time()))),
            decreases runs.len() - i,
        {
            let run = &runs[i];
            proof {
                reveal(Seq::filter);
                assert(runs@.take(i + 1).drop_last() =~= runs@.take(i as int));
                let so_far = runs@.take(i as int).filter(took_time());
                assert(so_far.push(*run).drop_last() =~= so_far);
                lemma_wrapped_add(total_duration(so_far), run.duration);
            }
            if run.duration > 0 {
                total = total.wrapping_add(run.duration);
                timed = timed + 1;
            }
            let (day, month) = date_texts(&run.timestamp);
            exits.push((run.exit, 1));
            days.push((day, 1));
            months.push((month, run.duration));
            i = i + 1;
        }
        assert(runs@.take(i as int) =~= runs@);
        assert(exits@ =~= exit_items(runs@));
        assert(text_items(days@) =~= day_items(runs@));
        assert(text_items(months@) =~= month_items(runs@));
        let average: u64 = if timed == 0 {
            0
        } else {
            average_of(total, timed)
        };
        HistoryStats {
            next,
            previous,
            total: runs.len() as u64,
            average_duration: average,
            exits: tally_numbers(&exits),
            day_of_week: tally_texts(days),
            duration_over_time: tally_texts(months),
        }
    }
}

/// Every day of the calendar has the date that is told of it.
pub proof fn law_date_exists(day: int)
    requires
        days_to_year(-9999) <= day < days_to_year(10000),
    ensures
        is_date_of(date_of_day(day), day),
        -9999 <= date_of_day(day).year <= 9999,
{
    let date = law_day_dated(day);
    assert(is_date_of(date, day));
    law_date_unique(date, date_of_day(day), day);
}

/// The day of the week of every run is told by a digit from 0 to 6, and the month by one from 1
/// to 12.
pub proof fn law_run_dated(t: Timestamp)
    requires
        t.wf(),
    ensures
        is_date_of(date_on(t), t.local() / DAY as int),
        0 <= date_on(t).weekday <= 6,
        1 <= date_on(t).month <= 12,
{
    law_date_exists(t.local() / DAY as int);
}

} // verus!

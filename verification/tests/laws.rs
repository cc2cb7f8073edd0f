//! What holds of every input, on a few.
use atuin_fullhistory::clock::{date_of, Timestamp, DAY, FIRST_NANO, LAST_NANO};
use atuin_fullhistory::colors::ColorError;
use atuin_fullhistory::database::MemoryDatabase;
use atuin_fullhistory::filter::FilterMode;
use atuin_fullhistory::history::{Context, History, HistoryId, OptFilters};
use atuin_fullhistory::input::parse_fullhistory;
use atuin_fullhistory::numbers::{decimal_text, parse_i64, parse_u32};
use atuin_fullhistory::order::stable_order;
use atuin_fullhistory::query::SearchMode;
use atuin_fullhistory::tally::{tally_numbers, tally_texts};
use atuin_fullhistory::text::chars_of;
use atuin_fullhistory::timezone::Timezone;

const SECOND: i128 = 1_000_000_000;

fn entry(id: &str, command: &str, seconds: i128) -> History {
    History {
        id: HistoryId(id.to_string()),
        timestamp: Timestamp { nanos: seconds * SECOND, offset: 0 },
        duration: 5,
        exit: 0,
        command: command.to_string(),
        cwd: "/".to_string(),
        session: "s".to_string(),
        hostname: "box".to_string(),
        author: String::new(),
        intent: None,
        deleted_at: None,
    }
}

fn context() -> Context {
    Context {
        session: "s".to_string(),
        cwd: "/".to_string(),
        hostname: "box".to_string(),
        host_id: String::new(),
        git_root: None,
    }
}

#[test]
fn written_file_is_read_back() {
    let text = "box:\"/a b\" 1 2024-06-01T12:00:00Z first\nsecond line\n\
                ##EXIT## box pid=1 $?=3 t_ms=20\n\
                box 2 2024-06-01T12:00:01Z ls\n\
                ##EXIT## box pid=2 $?=-1 t_ms=0\n";
    let out = parse_fullhistory(text);
    assert_eq!(out.len(), 2);
    assert_eq!(out[0].command, "first\nsecond line");
    assert_eq!((out[0].exit, out[0].duration), (3, 20_000_000));
    assert_eq!(out[0].cwd, "/a b");
    assert_eq!(out[1].command, "ls");
    assert_eq!((out[1].exit, out[1].duration), (-1, 0));
    assert_eq!(out[1].cwd, "");
}

#[test]
fn exit_line_without_a_command_does_nothing() {
    let text = "##EXIT## box pid=9 $?=1 t_ms=1\n\
                box 2 2024-06-01T12:00:01Z ls\n\
                ##EXIT## box pid=9 $?=1 t_ms=1\n\
                goes on\n";
    let out = parse_fullhistory(text);
    assert_eq!(out.len(), 1);
    assert_eq!(out[0].command, "ls\ngoes on");
    assert_eq!((out[0].exit, out[0].duration), (-1, -1));
}

#[test]
fn exit_line_passes_by_other_processes() {
    let text = "box 1 2024-06-01T12:00:00Z one\n\
                box 2 2024-06-01T12:00:01Z two\n\
                ##EXIT## box pid=1 $?=7 t_ms=1\n\
                ##EXIT## box pid=2 $?=8 t_ms=2\n";
    let out = parse_fullhistory(text);
    assert_eq!(out[0].command, "one");
    assert_eq!(out[0].exit, 7);
    assert_eq!(out[1].command, "two");
    assert_eq!(out[1].exit, 8);
}

#[test]
fn search_is_in_order_of_time() {
    let db = MemoryDatabase::new(vec![
        entry("1", "git a", 5),
        entry("2", "git b", 9),
        entry("3", "git c", 2),
    ]);
    let times = |reverse: bool| -> Vec<i128> {
        let options = OptFilters { reverse, ..OptFilters::default() };
        let out =
            db.search(SearchMode::FullText, FilterMode::Global, &context(), "git", &options);
        out.iter().map(|h| h.timestamp.nanos / SECOND).collect()
    };
    assert_eq!(times(false), vec![9, 5, 2]);
    assert_eq!(times(true), vec![2, 5, 9]);
}

#[test]
fn stats_add_up() {
    let mut other = entry("2", "ls", 86_400);
    other.exit = 1;
    let db = MemoryDatabase::new(vec![
        entry("1", "ls", 0),
        other,
        entry("3", "ls", 2 * 86_400),
        entry("4", "pwd", 3 * 86_400),
    ]);
    let stats = db.stats(&entry("2", "ls", 86_400));
    assert_eq!(stats.total, 3);
    assert_eq!(stats.exits.iter().map(|e| e.1).sum::<i64>(), 3);
    assert_eq!(stats.day_of_week.iter().map(|d| d.1).sum::<i64>(), 3);
    assert_eq!(stats.previous.unwrap().id.0, "1");
    assert_eq!(stats.next.unwrap().id.0, "3");
}

#[test]
fn numbers_are_read_back() {
    for n in [0u64, 7, 10, 4_294_967_295] {
        assert_eq!(parse_u32(&chars_of(&decimal_text(n))), Some(n as u32));
    }
    assert_eq!(parse_u32(&chars_of("4294967296")), None);
    assert_eq!(parse_u32(&chars_of("-1")), None);
    assert_eq!(parse_u32(&chars_of("")), None);
    assert_eq!(parse_i64(&chars_of("-9223372036854775808")), Some(i64::MIN));
    assert_eq!(parse_i64(&chars_of("9223372036854775808")), None);
    assert_eq!(parse_i64(&chars_of("+5")), Some(5));
    assert_eq!(parse_i64(&chars_of("-")), None);
    assert_eq!(parse_i64(&chars_of("1 ")), None);
}

#[test]
fn orders_are_stable() {
    assert_eq!(stable_order(&vec![3, 1, 3, i128::MIN, 1]), vec![3, 1, 4, 0, 2]);
    assert_eq!(stable_order(&vec![]), Vec::<usize>::new());
}

#[test]
fn tallies_add_up_under_their_keys() {
    assert_eq!(
        tally_numbers(&vec![(2, 1), (-1, 5), (2, 3), (0, i64::MAX), (0, 1)]),
        vec![(-1, 5), (0, i64::MIN), (2, 4)]
    );
    let items = [("b", 1), ("", 2), ("ab", 3), ("b", 4), ("a", 5)];
    let sums = tally_texts(items.iter().map(|i| (i.0.to_string(), i.1)).collect());
    let shown: Vec<(&str, i64)> = sums.iter().map(|s| (s.0.as_str(), s.1)).collect();
    assert_eq!(shown, vec![("", 2), ("a", 5), ("ab", 3), ("b", 5)]);
}

#[test]
fn faults_in_words() {
    assert_eq!(ColorError::Empty.text(""), "Empty string");
    assert_eq!(ColorError::Hex.text("#"), "Could not parse 3 hex values from string");
    assert_eq!(
        ColorError::Terminal.text("@pink"),
        "Could not convert color name @pink to Crossterm color"
    );
    assert_eq!(ColorError::Palette.text("x"), "No such color in palette");
    assert_eq!(
        Timezone::from_str("mars").unwrap_err().message(),
        "\"mars\" is not a valid timezone spec"
    );
}

#[test]
fn times_that_the_calendar_has() {
    let t = |nanos, offset| Timestamp { nanos, offset };
    assert!(t(0, 0).is_dated());
    assert!(t(253_402_300_799_999_999_999, 0).is_dated());
    assert!(!t(253_402_300_799_999_999_999, 1).is_dated());
    assert!(t(253_402_300_800_000_000_000, -1).is_dated());
    assert!(!t(i128::MAX, 0).is_dated());
    assert!(!t(i128::MIN, -1).is_dated());
    assert!(!t(0, 93_600).is_dated());
}

#[test]
fn every_day_has_a_date() {
    let first = date_of(&Timestamp { nanos: FIRST_NANO, offset: 0 });
    assert_eq!((first.year, first.month, first.weekday), (-9999, 1, 1));
    let last = date_of(&Timestamp { nanos: LAST_NANO, offset: 0 });
    assert_eq!((last.year, last.month, last.weekday), (9999, 12, 5));
    let mut before = date_of(&Timestamp { nanos: 0, offset: 0 });
    assert_eq!((before.year, before.month, before.weekday), (1970, 1, 4));
    for day in 1..=1500i128 {
        let date = date_of(&Timestamp { nanos: day * DAY, offset: 0 });
        assert_eq!(date.weekday, (before.weekday + 1) % 7);
        assert!((1..=12).contains(&date.month));
        assert!((date.year, date.month) >= (before.year, before.month));
        before = date;
    }
    assert_eq!((before.year, before.month), (1974, 2));
}

//! History in memory.
use atuin_fullhistory::clock::Timestamp;
use atuin_fullhistory::database::MemoryDatabase;
use atuin_fullhistory::filter::FilterMode;
use atuin_fullhistory::history::{Context, History, HistoryId, OptFilters};
use atuin_fullhistory::query::SearchMode;

/// 2024-06-01T12:00:00Z, a Saturday.
const NOON: i64 = 1_717_243_200;

fn at(seconds: i64) -> Timestamp {
    Timestamp { nanos: seconds as i128 * 1_000_000_000, offset: 0 }
}

fn entry(id: &str, command: &str, seconds: i64) -> History {
    History {
        id: HistoryId(id.to_string()),
        timestamp: at(NOON + seconds),
        duration: 1_000,
        exit: 0,
        command: command.to_string(),
        cwd: "/home".to_string(),
        session: "s".to_string(),
        hostname: "box".to_string(),
        author: String::new(),
        intent: None,
        deleted_at: None,
    }
}

fn deleted(id: &str, command: &str, seconds: i64) -> History {
    let mut h = entry(id, command, seconds);
    h.deleted_at = Some(at(NOON));
    h
}

fn context() -> Context {
    Context {
        session: "s".to_string(),
        cwd: "/home".to_string(),
        hostname: "box".to_string(),
        host_id: String::new(),
        git_root: None,
    }
}

fn ids(entries: &[History]) -> Vec<&str> {
    entries.iter().map(|h| h.id.0.as_str()).collect()
}

#[test]
fn append_goes_after_what_is_there() {
    let mut db = MemoryDatabase::new(vec![entry("1", "a", 0)]);
    db.append(vec![entry("2", "b", -5), entry("3", "c", 5)]);
    assert_eq!(ids(&db.entries), vec!["1", "2", "3"]);
}

#[test]
fn load_gives_the_first_of_an_id() {
    let db = MemoryDatabase::new(vec![entry("1", "a", 0), entry("2", "b", 1), entry("2", "c", 2)]);
    assert_eq!(db.load("2").unwrap().command, "b");
    assert!(db.load("9").is_none());
    assert!(db.load("").is_none());
}

#[test]
fn delete_takes_out_all_of_an_id() {
    let mut db =
        MemoryDatabase::new(vec![entry("1", "a", 0), entry("2", "b", 1), entry("1", "c", 2)]);
    let h = entry("1", "other", 9);
    db.delete(&h);
    assert_eq!(ids(&db.entries), vec!["2"]);
    assert!(db.load("1").is_none());
    db.delete(&h);
    assert_eq!(ids(&db.entries), vec!["2"]);
}

#[test]
fn list_is_latest_first() {
    let db = MemoryDatabase::new(vec![
        entry("1", "a", 0),
        entry("2", "b", 10),
        entry("3", "a", 5),
        entry("4", "c", 10),
        deleted("5", "d", 20),
    ]);
    let all = db.list(&[], &context(), None, false, false);
    assert_eq!(ids(&all), vec!["2", "4", "3", "1"]);
    let with_deleted = db.list(&[], &context(), None, false, true);
    assert_eq!(ids(&with_deleted), vec!["5", "2", "4", "3", "1"]);
    let unique = db.list(&[], &context(), None, true, false);
    assert_eq!(ids(&unique), vec!["2", "4", "3"]);
    let two = db.list(&[], &context(), Some(2), true, false);
    assert_eq!(ids(&two), vec!["2", "4"]);
    assert!(db.list(&[], &context(), Some(0), false, false).is_empty());
}

#[test]
fn list_shows_what_one_of_the_modes_shows() {
    let mut other = entry("2", "b", 1);
    other.hostname = "elsewhere".to_string();
    let mut far = entry("3", "c", 2);
    far.hostname = "elsewhere".to_string();
    far.cwd = "/far".to_string();
    let db = MemoryDatabase::new(vec![entry("1", "a", 0), other, far]);
    let c = context();
    assert_eq!(ids(&db.list(&[FilterMode::Host], &c, None, false, false)), vec!["1"]);
    assert_eq!(
        ids(&db.list(&[FilterMode::Host, FilterMode::Directory], &c, None, false, false)),
        vec!["2", "1"]
    );
}

#[test]
fn search_finds_and_filters() {
    let db = MemoryDatabase::new(vec![
        entry("1", "git push", 0),
        entry("2", "git pull", 1),
        entry("3", "ls", 2),
        deleted("4", "git gone", 3),
    ]);
    let c = context();
    let none = OptFilters::default();
    let found = db.search(SearchMode::FullText, FilterMode::Global, &c, "git", &none);
    assert_eq!(ids(&found), vec!["2", "1"]);
    let all = db.search(SearchMode::FullText, FilterMode::Global, &c, "", &none);
    assert_eq!(ids(&all), vec!["3", "2", "1"]);
    let mut options = OptFilters::default();
    options.reverse = true;
    options.offset = Some(1);
    options.limit = Some(1);
    let one = db.search(SearchMode::FullText, FilterMode::Global, &c, "", &options);
    assert_eq!(ids(&one), vec!["2"]);
    let prefix = db.search(SearchMode::Prefix, FilterMode::Global, &c, "git pu", &none);
    assert_eq!(ids(&prefix), vec!["2", "1"]);
}

#[test]
fn search_takes_dates() {
    let db = MemoryDatabase::new(vec![entry("1", "a", 0), entry("2", "b", 86_400)]);
    let mut options = OptFilters::default();
    options.before = Some("2024-06-02".to_string());
    let found = db.search(SearchMode::Fuzzy, FilterMode::Global, &context(), "", &options);
    assert_eq!(ids(&found), vec!["1"]);
    options.before = None;
    options.after = Some("2024-06-02 00:00:00Z".to_string());
    let found = db.search(SearchMode::Fuzzy, FilterMode::Global, &context(), "", &options);
    assert_eq!(ids(&found), vec!["2"]);
    // A text that is no date bounds nothing.
    options.after = Some("some day".to_string());
    let found = db.search(SearchMode::Fuzzy, FilterMode::Global, &context(), "", &options);
    assert_eq!(ids(&found), vec!["2", "1"]);
}

#[test]
fn counts_of_history() {
    let db = MemoryDatabase::new(vec![entry("1", "a", 0), deleted("2", "b", 1)]);
    assert_eq!(db.history_count(true), 2);
    assert_eq!(db.history_count(false), 1);
    assert_eq!(MemoryDatabase::new(vec![]).history_count(true), 0);
}

#[test]
fn commands_are_taken_together() {
    let mut second = entry("2", "ls", 7);
    second.cwd = "/tmp".to_string();
    second.session = "t".to_string();
    second.hostname = "other".to_string();
    let third = entry("3", "ls", 7);
    let db = MemoryDatabase::new(vec![
        entry("1", "ls", 0),
        entry("9", "pwd", 8),
        second,
        third,
        deleted("4", "ls", 99),
    ]);
    let rows = db.all_with_count();
    assert_eq!(rows.len(), 2);
    assert_eq!((rows[0].0.command.as_str(), rows[0].1), ("pwd", 1));
    let (ls, count) = &rows[1];
    assert_eq!(*count, 3);
    // The last of the latest stands for all.
    assert_eq!(ls.id.0, "3");
    assert_eq!(ls.timestamp.nanos, at(NOON + 7).nanos);
    assert_eq!(ls.cwd, "/home:/tmp:/home");
    assert_eq!(ls.session, "sts");
    assert_eq!(ls.hostname, "box,other,box");
    let total: i64 = rows.iter().map(|r| r.1 as i64).sum();
    assert_eq!(total, db.history_count(false));
}

#[test]
fn rows_of_one_time_keep_the_order_of_their_commands() {
    let db = MemoryDatabase::new(vec![
        entry("1", "b", 0),
        entry("2", "a", 0),
        entry("3", "b", 0),
        entry("4", "c", 1),
    ]);
    let commands: Vec<String> = db.all_with_count().into_iter().map(|r| r.0.command).collect();
    assert_eq!(commands, vec!["c", "b", "a"]);
}

#[test]
fn many_commands_are_told_apart() {
    // Texts with equal numbers to look them up by are still told apart.
    let mut entries = Vec::new();
    for i in 0..500 {
        entries.push(entry(&i.to_string(), &format!("Aa{}", i % 50), i));
        entries.push(entry(&i.to_string(), &format!("BB{}", i % 50), i));
    }
    let db = MemoryDatabase::new(entries);
    let rows = db.all_with_count();
    assert_eq!(rows.len(), 100);
    assert!(rows.iter().all(|r| r.1 == 10));
}

#[test]
fn stats_of_a_command() {
    let mut slow = entry("3", "make", 3);
    slow.duration = 3_001;
    slow.exit = 2;
    let mut unknown = entry("5", "make", 60 * 86_400);
    unknown.duration = -1;
    unknown.exit = -1;
    let mut elsewhere = entry("6", "make", 4);
    elsewhere.session = "t".to_string();
    let db = MemoryDatabase::new(vec![
        entry("4", "after", 9),
        entry("1", "before", 0),
        entry("2", "make", 1),
        slow,
        unknown,
        elsewhere,
        deleted("7", "make", 2),
    ]);
    let stats = db.stats(&entry("3", "make", 3));
    assert_eq!(stats.previous.unwrap().id.0, "2");
    assert_eq!(stats.next.unwrap().id.0, "4");
    assert_eq!(stats.total, 4);
    // (1000 + 3001 + 1000) / 3, the rest dropped.
    assert_eq!(stats.average_duration, 1_667);
    assert_eq!(stats.exits, vec![(-1, 1), (0, 2), (2, 1)]);
    // Saturday, and Wednesday 2024-07-31.
    assert_eq!(stats.day_of_week, vec![("3".to_string(), 1), ("6".to_string(), 3)]);
    assert_eq!(
        stats.duration_over_time,
        vec![("01-06-2024".to_string(), 5_001), ("01-07-2024".to_string(), -1)]
    );
}

#[test]
fn stats_of_a_command_that_is_not_there() {
    let db = MemoryDatabase::new(vec![entry("1", "a", 0)]);
    let stats = db.stats(&entry("x", "nothing", 0));
    assert!(stats.previous.is_none());
    assert!(stats.next.is_none());
    assert_eq!(stats.total, 0);
    assert_eq!(stats.average_duration, 0);
    assert!(stats.exits.is_empty());
    assert!(stats.day_of_week.is_empty());
    assert!(stats.duration_over_time.is_empty());
}

#[test]
fn months_are_in_the_order_of_their_texts() {
    let mut entries = Vec::new();
    // 2023-12-31T23:30:00Z read off a clock an hour ahead, 2023-02, 2024-02.
    let mut ahead = entry("1", "x", 0);
    ahead.timestamp = Timestamp { nanos: 1_704_065_400 * 1_000_000_000, offset: 3600 };
    entries.push(ahead);
    let mut b = entry("2", "x", 0);
    b.timestamp = at(1_676_000_000);
    entries.push(b);
    let mut c = entry("3", "x", 0);
    c.timestamp = at(1_707_000_000);
    entries.push(c);
    let db = MemoryDatabase::new(entries);
    let stats = db.stats(&entry("1", "x", 0));
    let months: Vec<&str> = stats.duration_over_time.iter().map(|m| m.0.as_str()).collect();
    assert_eq!(months, vec!["01-01-2024", "01-02-2023", "01-02-2024"]);
}

#[test]
fn years_before_year_one_have_a_sign() {
    let mut old = entry("1", "x", 0);
    // The first day of the calendar: year -9999.
    old.timestamp = Timestamp { nanos: -377_705_116_800 * 1_000_000_000, offset: 0 };
    let mut early = entry("2", "x", 0);
    // 0000-01-01 less one day: year -1.
    early.timestamp = at(-62_167_219_200 - 86_400);
    let db = MemoryDatabase::new(vec![old, early]);
    let months: Vec<String> =
        db.stats(&entry("1", "x", 0)).duration_over_time.into_iter().map(|m| m.0).collect();
    assert_eq!(months, vec!["01-01--9999", "01-12--001"]);
}

#[test]
fn durations_add_up_in_sixty_four_bits() {
    let mut a = entry("1", "x", 0);
    a.duration = i64::MAX;
    let mut b = entry("2", "x", 0);
    b.duration = 2;
    let db = MemoryDatabase::new(vec![a, b]);
    let stats = db.stats(&entry("1", "x", 0));
    let sum = i64::MAX.wrapping_add(2);
    assert_eq!(stats.duration_over_time[0].1, sum);
    assert_eq!(stats.average_duration, (sum / 2) as u64);
}

#[test]
fn success_of_an_entry() {
    let mut h = entry("1", "x", 0);
    assert!(h.success());
    h.exit = 1;
    assert!(!h.success());
    h.duration = -1;
    assert!(h.success());
}

#[test]
fn context_of_an_entry() {
    let c = Context::from_history(&entry("1", "x", 0), Some("/home".to_string()));
    assert_eq!(c.session, "s");
    assert_eq!(c.cwd, "/home");
    assert_eq!(c.hostname, "box");
    assert_eq!(c.host_id, "");
    assert_eq!(c.git_root.as_deref(), Some("/home"));
}

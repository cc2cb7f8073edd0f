//! Filter modes and filters.
use atuin_fullhistory::clock::{parse_timestamp, Timestamp};
use atuin_fullhistory::dates::{parse_date, parse_date_at, Dialect};
use atuin_fullhistory::filter::{
    apply_opt_filters, filter_between, filter_by_mode, filter_from, FilterMode,
};
use atuin_fullhistory::history::{Context, History, HistoryId, OptFilters};
use atuin_fullhistory::session::{is_in_sessions, session_start, uuid_start};

const SECOND: i128 = 1_000_000_000;

fn entry(seconds: i128) -> History {
    History {
        id: HistoryId(seconds.to_string()),
        timestamp: Timestamp { nanos: seconds * SECOND, offset: 0 },
        duration: 0,
        exit: 0,
        command: "ls".to_string(),
        cwd: "/home/me".to_string(),
        session: "0123456789abcdef0123456789abcdef".to_string(),
        hostname: "box".to_string(),
        author: String::new(),
        intent: None,
        deleted_at: None,
    }
}

fn context() -> Context {
    Context {
        session: "0123456789abcdef0123456789abcdef".to_string(),
        cwd: "/home/me".to_string(),
        hostname: "box".to_string(),
        host_id: String::new(),
        git_root: None,
    }
}

fn ids(entries: &[History]) -> Vec<&str> {
    entries.iter().map(|h| h.id.0.as_str()).collect()
}

#[test]
fn global_shows_all() {
    let mut h = entry(0);
    h.hostname = "other".to_string();
    assert!(filter_by_mode(&h, FilterMode::Global, &context()));
}

#[test]
fn host_is_one_of_a_list() {
    let mut h = entry(0);
    let c = context();
    assert!(filter_by_mode(&h, FilterMode::Host, &c));
    h.hostname = "other,box".to_string();
    assert!(filter_by_mode(&h, FilterMode::Host, &c));
    h.hostname = "boxer,gearbox".to_string();
    assert!(!filter_by_mode(&h, FilterMode::Host, &c));
    h.hostname = String::new();
    assert!(!filter_by_mode(&h, FilterMode::Host, &c));
}

#[test]
fn directory_and_workspace() {
    let mut h = entry(0);
    let mut c = context();
    h.cwd = "/tmp:/home/me".to_string();
    assert!(filter_by_mode(&h, FilterMode::Directory, &c));
    assert!(filter_by_mode(&h, FilterMode::Workspace, &c));
    c.git_root = Some("/tmp".to_string());
    c.cwd = "/tmp/sub".to_string();
    assert!(!filter_by_mode(&h, FilterMode::Directory, &c));
    assert!(filter_by_mode(&h, FilterMode::Workspace, &c));
    c.git_root = Some("/tm".to_string());
    assert!(!filter_by_mode(&h, FilterMode::Workspace, &c));
}

#[test]
fn sessions_are_looked_up_by_thirty_two_bytes() {
    let a = "a".repeat(32);
    let b = "b".repeat(32);
    assert!(is_in_sessions(&format!("{a}{b}"), &b));
    assert!(is_in_sessions(&format!("{a}{b}"), &a));
    assert!(!is_in_sessions(&format!("{a}{b}"), &"c".repeat(32)));
    // Not on a boundary.
    assert!(!is_in_sessions(&format!("x{a}"), &a));
    // The last one may be shorter.
    assert!(is_in_sessions(&format!("{a}123"), "123"));
    assert!(!is_in_sessions("", ""));
    assert!(is_in_sessions("42", "42"));
    // Bytes, not characters, are counted.
    let two = "é".repeat(16);
    assert!(is_in_sessions(&format!("{a}{two}{b}"), &two));
}

#[test]
fn session_mode() {
    let mut h = entry(0);
    assert!(filter_by_mode(&h, FilterMode::Session, &context()));
    h.session = "f".repeat(32);
    assert!(!filter_by_mode(&h, FilterMode::Session, &context()));
}

#[test]
fn start_of_a_session_by_its_id() {
    // A version 7 id: milliseconds in the first twelve digits.
    assert_eq!(
        session_start("018fd39d-b800-7abc-8def-0123456789ab"),
        Some(0x018f_d39d_b800 * 1_000_000)
    );
    assert_eq!(
        session_start("018fd39db8007abc8def0123456789ab"),
        Some(0x018f_d39d_b800 * 1_000_000)
    );
    // A version 1 id: hundreds of nanoseconds since 1582.
    assert_eq!(
        session_start("d9428888-122b-11e1-b85c-61cd3cbb3210"),
        uuid_start(0xd942_8888_122b_11e1_b85c_61cd_3cbb_3210)
    );
    let ticks: i128 = 0x01e1_122b_d942_8888 - 0x01b2_1dd2_1381_4000;
    assert_eq!(uuid_start(0xd942_8888_122b_11e1_b85c_61cd_3cbb_3210), Some(ticks * 100));
    // The same time as a version 6 id.
    assert_eq!(uuid_start(0x1e11_22bd_9428_6888_b85c_61cd_3cbb_3210), Some(ticks * 100));
    // Version 4 tells no time, and a text that is no id tells none.
    assert_eq!(session_start("0123456789ab4def0123456789abcdef"), None);
    assert_eq!(session_start("not an id"), None);
    // A time beyond the calendar.
    assert_eq!(uuid_start(0xffff_ffff_ffff_7abc_8def_0123_4567_89ab), None);
}

#[test]
fn preload_shows_what_came_before_the_session() {
    let mut c = context();
    c.session = "018fd39db8007abc8def0123456789ab".to_string();
    let start = 0x018f_d39d_b800i128 / 1000;
    let before = entry(start - 1);
    let after = entry(start + 1);
    assert!(filter_by_mode(&before, FilterMode::SessionPreload, &c));
    assert!(!filter_by_mode(&after, FilterMode::SessionPreload, &c));
    assert!(!filter_by_mode(&before, FilterMode::Session, &c));
    let mut own = entry(start + 1);
    own.session = c.session.clone();
    assert!(filter_by_mode(&own, FilterMode::SessionPreload, &c));
    // Where the id tells no time, only the session itself is shown.
    let plain = context();
    assert!(filter_by_mode(&before, FilterMode::SessionPreload, &plain));
    let mut foreign = entry(0);
    foreign.session = "f".repeat(32);
    assert!(!filter_by_mode(&foreign, FilterMode::SessionPreload, &plain));
    assert!(filter_from(&foreign, FilterMode::SessionPreload, &plain, Some(1)));
    assert!(!filter_from(&foreign, FilterMode::SessionPreload, &plain, Some(0)));
}

#[test]
fn filters_by_exit_and_directory() {
    let mut a = entry(1);
    a.exit = 1;
    let mut b = entry(2);
    b.cwd = "/tmp/build".to_string();
    let all = vec![a, b, entry(3)];
    let mut f = OptFilters::default();
    f.exit = Some(1);
    assert_eq!(ids(&apply_opt_filters(all.clone(), &f)), vec!["1"]);
    f.exit = None;
    f.exclude_exit = Some(1);
    assert_eq!(ids(&apply_opt_filters(all.clone(), &f)), vec!["2", "3"]);
    f.exclude_exit = None;
    f.cwd = Some("build".to_string());
    assert_eq!(ids(&apply_opt_filters(all.clone(), &f)), vec!["2"]);
    f.cwd = None;
    f.exclude_cwd = Some("/home".to_string());
    assert_eq!(ids(&apply_opt_filters(all, &f)), vec!["2"]);
}

#[test]
fn filters_by_time() {
    let all = vec![entry(1), entry(2), entry(3)];
    let f = OptFilters::default();
    assert_eq!(ids(&filter_between(all.clone(), &f, Some(2 * SECOND), None)), vec!["1", "2"]);
    assert_eq!(ids(&filter_between(all.clone(), &f, None, Some(2 * SECOND))), vec!["2", "3"]);
    assert_eq!(
        ids(&filter_between(all, &f, Some(2 * SECOND), Some(2 * SECOND))),
        vec!["2"]
    );
}

#[test]
fn order_offset_and_limit() {
    let all = vec![entry(1), entry(2), entry(3), entry(4)];
    let mut f = OptFilters::default();
    f.offset = Some(1);
    assert_eq!(ids(&apply_opt_filters(all.clone(), &f)), vec!["2", "3", "4"]);
    f.reverse = true;
    f.limit = Some(2);
    assert_eq!(ids(&apply_opt_filters(all.clone(), &f)), vec!["3", "2"]);
    f.limit = Some(0);
    assert!(apply_opt_filters(all.clone(), &f).is_empty());
    f.limit = Some(-1);
    assert_eq!(ids(&apply_opt_filters(all.clone(), &f)), vec!["3", "2", "1"]);
    f.offset = Some(-1);
    assert!(apply_opt_filters(all.clone(), &f).is_empty());
    f.offset = Some(9);
    assert!(apply_opt_filters(all, &f).is_empty());
}

#[test]
fn filter_modes_have_labels() {
    assert_eq!(FilterMode::Global.as_str(), "GLOBAL");
    assert_eq!(FilterMode::Host.as_str(), "HOST");
    assert_eq!(FilterMode::Session.as_str(), "SESSION");
    assert_eq!(FilterMode::Directory.as_str(), "DIRECTORY");
    assert_eq!(FilterMode::Workspace.as_str(), "WORKSPACE");
    assert_eq!(FilterMode::SessionPreload.as_str(), "SESSION+");
}

#[test]
fn dates_in_english() {
    // 2024-06-01T12:00:00Z.
    let now = 1_717_243_200 * SECOND;
    assert_eq!(parse_date_at("yesterday", now, Dialect::Uk), Some(now - 86_400 * SECOND));
    assert_eq!(parse_date_at("2 hours ago", now, Dialect::Uk), Some(now - 7_200 * SECOND));
    assert_eq!(
        parse_date_at("2024-06-01T10:30:00Z", now, Dialect::Uk),
        Some(now - 5_400 * SECOND)
    );
    assert_eq!(parse_date_at("today 10:30 AM", now, Dialect::Uk), Some(now - 5_400 * SECOND));
    // The fourth of May or the fifth of April.
    let may = parse_date_at("4/5/2024", now, Dialect::Uk).unwrap();
    let april = parse_date_at("4/5/2024", now, Dialect::Us).unwrap();
    assert_eq!(may - april, 29 * 86_400 * SECOND);
    assert_eq!(parse_date_at("never", now, Dialect::Uk), None);
    assert_eq!(parse_date_at("", now, Dialect::Uk), None);
}

#[test]
fn words_in_dates() {
    // 2024-06-01T12:00:00Z, a Saturday.
    let now = 1_717_243_200 * SECOND;
    let at = |text: &str| parse_date_at(text, now, Dialect::Uk);
    let hour = 3_600 * SECOND;
    assert_eq!(at("today 8pm"), Some(now + 8 * hour));
    assert_eq!(at("8PM"), Some(now + 8 * hour));
    assert_eq!(at("TODAY"), Some(now));
    assert_eq!(at("today 12:30 PM"), Some(now + hour / 2));
    assert_eq!(at("1 June 2024 T8:00"), Some(now - 4 * hour));
    assert_eq!(at("June 1 T8:00"), Some(now - 4 * hour));
    assert_eq!(at("today 8pm 9PM"), Some(now + 8 * hour));
    assert_eq!(at("3 Days"), Some(now + 72 * hour));
    // After an open hour only lower case will do.
    assert_eq!(at("today 8PM"), None);
    assert_eq!(at("june : 8PM"), None);
    assert_eq!(at("2017-06-05T8PM"), None);
    assert_eq!(at("today 8aaaaaaaaaaaaaaaa"), None);
    assert_eq!(at("today 8"), None);
    assert_eq!(parse_date("today 8PM", Dialect::Uk), None);
    assert!(parse_date("today", Dialect::Uk).is_some());
}

#[test]
fn times_of_the_iso_format() {
    let t = parse_timestamp("1970-01-01T01:00:01+01:00").unwrap();
    assert_eq!((t.nanos, t.offset), (SECOND, 3600));
    assert_eq!(t.unix_timestamp(), 1);
    assert!(parse_timestamp("1970-01-01").is_none());
    assert!(parse_timestamp("soon").is_none());
    let before = Timestamp { nanos: -1, offset: 0 };
    assert_eq!(before.unix_timestamp(), -1);
    assert!(Timestamp { nanos: 5, offset: 0 } == Timestamp { nanos: 5, offset: 60 });
}

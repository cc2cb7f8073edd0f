//! Lines of a history file, and files.
use atuin_fullhistory::input::{
    command_fields, parse_command_line, parse_exit_line, parse_fullhistory,
};
use atuin_fullhistory::text::chars_of;

/// 2024-06-01T12:00:00Z in nanoseconds.
const NOON: i128 = 1_717_243_200_000_000_000;
const SECOND: i128 = 1_000_000_000;

#[test]
fn command_line_with_directory() {
    let line = "box.example-1:\"/home/me/my dir\" 4242 2024-06-01T14:00:00+0200 ls -la  ";
    let (pid, h) = parse_command_line(line).unwrap();
    assert_eq!(pid, 4242);
    assert_eq!(h.hostname, "box.example-1");
    assert_eq!(h.cwd, "/home/me/my dir");
    assert_eq!(h.command, "ls -la");
    assert_eq!(h.session, "4242");
    assert_eq!(h.exit, -1);
    assert_eq!(h.duration, -1);
    assert_eq!(h.author, "");
    assert_eq!(h.intent, None);
    assert!(h.deleted_at.is_none());
    assert_eq!(h.timestamp.nanos, NOON);
    assert_eq!(h.timestamp.offset, 7200);
}

#[test]
fn command_line_without_directory() {
    let (pid, h) = parse_command_line("box 7 2024-06-01T12:00:00Z echo a b").unwrap();
    assert_eq!(pid, 7);
    assert_eq!(h.cwd, "");
    assert_eq!(h.command, "echo a b");
    assert_eq!(h.timestamp.nanos, NOON);
    assert_eq!(h.timestamp.offset, 0);
}

#[test]
fn command_line_ids_are_new() {
    let line = "box 7 2024-06-01T12:00:00Z true";
    let (_, a) = parse_command_line(line).unwrap();
    let (_, b) = parse_command_line(line).unwrap();
    assert_ne!(a.id.0, b.id.0);
    assert_eq!(a.id.0.len(), 32);
    assert!(a.id.0.chars().all(|c| c.is_ascii_digit() || ('a'..='f').contains(&c)));
    assert_eq!(a.id.0.as_bytes()[12], b'4');
}

#[test]
fn command_line_fields_alone() {
    let chars = chars_of("box 7 2024-06-01T12:00:00Z true");
    let fields = command_fields(&chars).unwrap();
    assert_eq!(fields.pid, 7);
    let h = fields.into_history("abc".to_string());
    assert_eq!(h.id.0, "abc");
    assert_eq!(h.command, "true");
}

#[test]
fn command_line_refused() {
    // No host, an unknown character in its place, no end of the directory.
    assert!(parse_command_line("").is_none());
    assert!(parse_command_line(" 7 2024-06-01T12:00:00Z true").is_none());
    assert!(parse_command_line("box").is_none());
    assert!(parse_command_line("box:\"/tmp 7 2024-06-01T12:00:00Z true").is_none());
    // No number, or one that does not fit.
    assert!(parse_command_line("box x 2024-06-01T12:00:00Z true").is_none());
    assert!(parse_command_line("box -7 2024-06-01T12:00:00Z true").is_none());
    assert!(parse_command_line("box 4294967296 2024-06-01T12:00:00Z true").is_none());
    // No time, or no command.
    assert!(parse_command_line("box 7 yesterday true").is_none());
    assert!(parse_command_line("box 7 2024-06-01T12:00:00Z").is_none());
    assert!(parse_command_line("box 7 2024-06-01T12:00:00Z   ").is_none());
    // Two spaces before the time leave an empty word.
    assert!(parse_command_line("box 7  2024-06-01T12:00:00Z true").is_none());
}

#[test]
fn command_line_takes_a_plus_sign_and_the_largest_number() {
    assert_eq!(parse_command_line("box +7 2024-06-01T12:00:00Z true").unwrap().0, 7);
    assert_eq!(
        parse_command_line("box 4294967295 2024-06-01T12:00:00Z true").unwrap().0,
        u32::MAX
    );
}

#[test]
fn exit_line_is_read() {
    assert_eq!(
        parse_exit_line("##EXIT## box pid=42 $?=130 t_ms=1500"),
        Some((42, 130, 1_500_000_000))
    );
    assert_eq!(parse_exit_line("##EXIT## box pid=1 $?=-1 t_ms= 0 "), Some((1, -1, 0)));
    assert_eq!(parse_exit_line("##EXIT##  pid=1 $?=0 t_ms=-2"), Some((1, 0, -2_000_000)));
}

#[test]
fn exit_line_refused() {
    assert_eq!(parse_exit_line("##EXIT##box pid=1 $?=0 t_ms=1"), None);
    assert_eq!(parse_exit_line("##EXIT## box pid=1 $?=0"), None);
    assert_eq!(parse_exit_line("##EXIT## box pid= $?=0 t_ms=1"), None);
    assert_eq!(parse_exit_line("##EXIT## box pid=1 $?=x t_ms=1"), None);
    assert_eq!(parse_exit_line("##EXIT## box pid=1 $?=0 t_ms=1 2"), None);
    assert_eq!(parse_exit_line("##EXIT## box $?=0 pid=1 t_ms=1"), None);
}

#[test]
fn exit_line_duration_wraps() {
    let ms = i64::MAX / 1_000_000 + 1;
    let line = format!("##EXIT## box pid=1 $?=0 t_ms={ms}");
    assert_eq!(parse_exit_line(&line), Some((1, 0, ms.wrapping_mul(1_000_000))));
}

#[test]
fn pair_of_lines_is_one_entry() {
    let text = "box:\"/tmp\" 9 2024-06-01T12:00:00Z make all\n##EXIT## box pid=9 $?=2 t_ms=10\n";
    let entries = parse_fullhistory(text);
    assert_eq!(entries.len(), 1);
    assert_eq!(entries[0].command, "make all");
    assert_eq!(entries[0].exit, 2);
    assert_eq!(entries[0].duration, 10_000_000);
}

#[test]
fn exit_line_closes_the_command_of_its_process() {
    let text = "a 1 2024-06-01T12:00:00Z first\n\
                b 2 2024-06-01T12:00:01Z second\n\
                ##EXIT## a pid=1 $?=1 t_ms=1\n\
                ##EXIT## c pid=3 $?=3 t_ms=3\n";
    let entries = parse_fullhistory(text);
    assert_eq!(entries.len(), 2);
    assert_eq!((entries[0].command.as_str(), entries[0].exit), ("first", 1));
    assert_eq!((entries[1].command.as_str(), entries[1].exit), ("second", -1));
    assert_eq!(entries[1].duration, -1);
}

#[test]
fn next_command_of_a_process_flushes_the_one_before() {
    let text = "a 1 2024-06-01T12:00:00Z first\n\
                a 1 2024-06-01T12:00:01Z second\n\
                ##EXIT## a pid=1 $?=5 t_ms=1\n";
    let entries = parse_fullhistory(text);
    assert_eq!(entries.len(), 2);
    assert_eq!((entries[0].command.as_str(), entries[0].exit), ("first", -1));
    assert_eq!((entries[1].command.as_str(), entries[1].exit), ("second", 5));
}

#[test]
fn other_lines_continue_the_last_command() {
    let text = "stray\r\n\
                a 1 2024-06-01T12:00:00Z for i in 1\r\n\
                do\r\n\
                \r\n\
                b 2 2024-06-01T12:00:01Z other\n\
                ##EXIT## a pid=1 $?=0 t_ms=1\n\
                more\n\
                ##EXIT## b pid=2 $?=0 t_ms=1\n\
                stray\n";
    let entries = parse_fullhistory(text);
    assert_eq!(entries.len(), 2);
    assert_eq!(entries[0].command, "for i in 1\ndo\n");
    assert_eq!(entries[1].command, "other\nmore");
}

#[test]
fn nothing_continues_a_command_that_ended() {
    let text = "a 1 2024-06-01T12:00:00Z first\n##EXIT## a pid=1 $?=0 t_ms=1\nstray\n";
    let entries = parse_fullhistory(text);
    assert_eq!(entries[0].command, "first");
}

#[test]
fn entries_are_in_order_of_time() {
    let text = "a 1 2024-06-01T12:00:03Z c\n\
                a 2 2024-06-01T12:00:01Z a\n\
                a 3 2024-06-01T14:00:02+02:00 b\n\
                a 4 2024-06-01T12:00:01Z a2\n\
                ##EXIT## a pid=4 $?=0 t_ms=1\n";
    let entries = parse_fullhistory(text);
    let commands: Vec<&str> = entries.iter().map(|h| h.command.as_str()).collect();
    // Of two commands started at one time the one that ended comes first.
    assert_eq!(commands, vec!["a2", "a", "b", "c"]);
    assert_eq!(entries[2].timestamp.nanos, NOON + 2 * SECOND);
}

#[test]
fn empty_text_has_no_entries() {
    assert!(parse_fullhistory("").is_empty());
    assert!(parse_fullhistory("\n\n").is_empty());
}

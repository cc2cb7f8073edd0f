//! Reading a file: its tail, and its head in blocks.
use std::path::PathBuf;

use atuin_fullhistory::bytes::text_of_file;
use atuin_fullhistory::history::History;
use atuin_fullhistory::reader::{FullHistoryReader, TailRead, HEAD_BLOCK, NFS_ALIGN, TAIL_BYTES};

fn line(pid: usize) -> String {
    format!(
        "box {} 2024-06-01T12:{:02}:{:02}Z command number {}\n",
        pid,
        pid / 60 % 60,
        pid % 60,
        pid
    )
}

#[test]
fn reader_holds_its_path() {
    let reader = FullHistoryReader::new(PathBuf::from("/tmp/history"));
    assert_eq!(reader.path, PathBuf::from("/tmp/history"));
}

#[test]
fn tail_of_a_small_file_is_all_of_it() {
    assert_eq!(FullHistoryReader::tail_start(0), None);
    assert_eq!(FullHistoryReader::tail_start(131_072), None);
}

#[test]
fn tail_of_a_large_file_starts_on_a_block() {
    assert_eq!(FullHistoryReader::tail_start(131_073), Some(0));
    assert_eq!(FullHistoryReader::tail_start(131_072 + 4096), Some(4096));
    assert_eq!(FullHistoryReader::tail_start(1_000_000), Some(868_352));
    for size in [131_073u64, 200_000, 1 << 40, u64::MAX] {
        let start = FullHistoryReader::tail_start(size).unwrap();
        assert_eq!(start % NFS_ALIGN, 0);
        assert!(size - start >= TAIL_BYTES && size - start < TAIL_BYTES + NFS_ALIGN);
    }
}

#[test]
fn unreadable_tail_gives_nothing() {
    let (entries, end) = FullHistoryReader::read_tail(TailRead::Unreadable);
    assert!(entries.is_empty());
    assert_eq!(end, None);
}

#[test]
fn whole_file_comes_latest_first() {
    let text = format!("{}{}", line(1), line(2));
    let (entries, end) = FullHistoryReader::read_tail(TailRead::Whole(text));
    let commands: Vec<&str> = entries.iter().map(|h| h.command.as_str()).collect();
    assert_eq!(commands, vec!["command number 2", "command number 1"]);
    assert_eq!(end, None);
}

#[test]
fn tail_skips_the_broken_line() {
    let text = format!("ken line\n{}{}", line(1), line(2));
    let read = TailRead::From { start: 4096, bytes: text.into_bytes() };
    let (entries, end) = FullHistoryReader::read_tail(read);
    assert_eq!(entries.len(), 2);
    assert_eq!(entries[0].command, "command number 2");
    assert_eq!(end, Some(4096 + 9));
}

#[test]
fn tail_without_a_line_feed_is_taken_whole() {
    let read = TailRead::From { start: 8192, bytes: line(3).trim_end().as_bytes().to_vec() };
    let (entries, end) = FullHistoryReader::read_tail(read);
    assert_eq!(entries.len(), 1);
    assert_eq!(end, Some(8192));
}

#[test]
fn bytes_that_are_not_text_are_replaced() {
    let mut bytes = b"x\n".to_vec();
    bytes.extend_from_slice(b"box 1 2024-06-01T12:00:00Z a\xffb\n");
    let (entries, _) = FullHistoryReader::read_tail(TailRead::From { start: 0, bytes });
    assert_eq!(entries[0].command, "a\u{fffd}b");
}

#[test]
fn empty_head_has_no_block() {
    let head = FullHistoryReader::read_head(0);
    assert_eq!(head.next_block(), None);
    assert!(head.finish().is_empty());
}

#[test]
fn blocks_go_backwards() {
    let mut head = FullHistoryReader::read_head(HEAD_BLOCK + 10);
    assert_eq!(head.next_block(), Some((10, HEAD_BLOCK)));
    head.accept(vec![b'\n'; HEAD_BLOCK as usize]);
    assert_eq!(head.next_block(), Some((0, 10)));
}

#[test]
fn head_reads_every_line_once() {
    let mut file = String::new();
    let mut pid = 0usize;
    while file.len() < 2 * HEAD_BLOCK as usize + 1000 {
        pid += 1;
        file.push_str(&line(pid));
    }
    let bytes = file.as_bytes();
    let mut head = FullHistoryReader::read_head(bytes.len() as u64);
    let mut reads = 0;
    while let Some((start, len)) = head.next_block() {
        head.accept(bytes[start as usize..(start + len) as usize].to_vec());
        reads += 1;
    }
    assert_eq!(reads, 3);
    let blocks = head.finish();
    let mut sessions: Vec<usize> = Vec::new();
    for block in &blocks {
        for entry in block {
            assert_eq!(entry.command, format!("command number {}", entry.session));
            sessions.push(entry.session.parse().unwrap());
        }
    }
    sessions.sort_unstable();
    let all: Vec<usize> = (1..=pid).collect();
    assert_eq!(sessions, all);
    // The block nearest the end of the file comes first.
    assert!(blocks[0].iter().any(|h| h.session == pid.to_string()));
}

#[test]
fn line_longer_than_a_block_is_put_together() {
    let command = "x".repeat(HEAD_BLOCK as usize + 5);
    let file = format!("box 1 2024-06-01T12:00:00Z {command}\n");
    let bytes = file.as_bytes();
    let mut head = FullHistoryReader::read_head(bytes.len() as u64);
    while let Some((start, len)) = head.next_block() {
        head.accept(bytes[start as usize..(start + len) as usize].to_vec());
    }
    let blocks = head.finish();
    assert_eq!(blocks.len(), 1);
    assert_eq!(blocks[0][0].command, command);
}

#[test]
fn a_read_that_breaks_off_keeps_what_was_read() {
    let text = format!("{}{}", line(1), line(2));
    let bytes = text.as_bytes();
    let mut head = FullHistoryReader::read_head(HEAD_BLOCK + 50);
    let mut block = vec![b'\n'; HEAD_BLOCK as usize - bytes.len()];
    block.extend_from_slice(bytes);
    head.accept(block);
    let blocks = head.finish();
    assert_eq!(blocks.len(), 1);
    assert_eq!(blocks[0].len(), 2);
}

/// The blocks of entries of all that stands before `end` in `bytes`.
fn blocks_before(bytes: &[u8], end: u64) -> Vec<Vec<History>> {
    let mut head = FullHistoryReader::read_head(end);
    while let Some((start, len)) = head.next_block() {
        head.accept(bytes[start as usize..(start + len) as usize].to_vec());
    }
    head.finish()
}

#[test]
fn first_command_of_the_head_keeps_its_exit_line() {
    let bytes = b"h 1 2024-01-01T00:00:00+0000 ls\n##EXIT## h pid=1 $?=0 t_ms=5\n";
    let result = blocks_before(bytes, bytes.len() as u64);
    assert_eq!(result.len(), 1);
    assert_eq!(result[0].len(), 1);
    assert_eq!(result[0][0].command, "ls");
    assert_eq!(result[0][0].exit, 0);
    assert_eq!(result[0][0].duration, 5_000_000);
}

#[test]
fn first_command_of_a_head_of_two_blocks_keeps_its_exit_line() {
    let mut file = String::from("h 1 2024-01-01T00:00:00+0000 ls\n##EXIT## h pid=1 $?=7 t_ms=5\n");
    let mut pid = 1usize;
    while file.len() < HEAD_BLOCK as usize + 1000 {
        pid += 1;
        file.push_str(&line(pid));
    }
    let blocks = blocks_before(file.as_bytes(), file.len() as u64);
    assert_eq!(blocks.len(), 2);
    assert_eq!(blocks[1][0].command, "ls");
    assert_eq!(blocks[1][0].exit, 7);
    assert_eq!(blocks[1][0].duration, 5_000_000);
}

#[test]
fn nothing_is_held_back_at_the_start() {
    let text = format!("{}{}", line(1), line(2));
    let mut head = FullHistoryReader::read_head(text.len() as u64);
    head.accept(text.into_bytes());
    assert!(head.carry.is_empty());
    assert_eq!(head.blocks.len(), 1);
    assert_eq!(head.blocks[0].len(), 2);
}

#[test]
fn first_line_is_held_back_further_on() {
    let text = format!("{}{}", line(1), line(2));
    let mut block = text.into_bytes();
    let mut rest = vec![b'\n'; HEAD_BLOCK as usize - block.len()];
    block.append(&mut rest);
    let mut head = FullHistoryReader::read_head(HEAD_BLOCK + 1);
    head.accept(block);
    assert_eq!(head.carry, line(1).into_bytes());
    assert_eq!(head.blocks[0].len(), 1);
}

#[test]
fn tail_and_head_together_have_every_command_once() {
    let mut file = String::new();
    let mut pid = 0usize;
    while file.len() < HEAD_BLOCK as usize + 3 * TAIL_BYTES as usize {
        pid += 1;
        file.push_str(&line(pid));
        file.push_str(&format!("##EXIT## box pid={pid} $?=0 t_ms=1\n"));
    }
    let bytes = file.as_bytes();
    let start = FullHistoryReader::tail_start(bytes.len() as u64).unwrap();
    let read = TailRead::From { start, bytes: bytes[start as usize..].to_vec() };
    let (tail, end) = FullHistoryReader::read_tail(read);
    let blocks = blocks_before(bytes, end.unwrap());
    let mut found: Vec<(i128, String, usize, String)> = Vec::new();
    for entry in blocks.iter().flatten().chain(tail.iter()) {
        found.push((
            entry.timestamp.nanos,
            entry.hostname.clone(),
            entry.session.parse().unwrap(),
            entry.cwd.clone(),
        ));
    }
    let (whole, _) = FullHistoryReader::read_tail(TailRead::Whole(file));
    let mut expected: Vec<(i128, String, usize, String)> = Vec::new();
    for entry in &whole {
        expected.push((
            entry.timestamp.nanos,
            entry.hostname.clone(),
            entry.session.parse().unwrap(),
            entry.cwd.clone(),
        ));
    }
    found.sort();
    expected.sort();
    assert_eq!(found.len(), pid);
    assert_eq!(found, expected);
}

#[test]
fn bytes_are_read_as_one_text() {
    let samples: [&[u8]; 8] = [
        b"",
        b"\n",
        b"plain\nlines",
        b"a\xe2\nb\n",
        b"\xe2\x82\n\x82\xac\n",
        b"\xf0\x9f\x98\n\xff\xfe",
        b"\n\xc3\n\n\xa9",
        "caf\u{e9} \u{1f600}\n\u{20ac}\n".as_bytes(),
    ];
    for bytes in samples {
        assert_eq!(text_of_file(bytes), String::from_utf8_lossy(bytes));
        // Cut after a line feed, it is the two texts.
        for (i, b) in bytes.iter().enumerate() {
            if *b == b'\n' {
                let parts = text_of_file(&bytes[..=i]) + &text_of_file(&bytes[i + 1..]);
                assert_eq!(parts, text_of_file(bytes));
            }
        }
    }
}

#[test]
fn files_that_are_not_text_lose_no_command() {
    let mut file: Vec<u8> = Vec::new();
    let mut pid = 0usize;
    while file.len() < HEAD_BLOCK as usize + 2 * TAIL_BYTES as usize {
        pid += 1;
        file.extend_from_slice(line(pid).trim_end().as_bytes());
        file.extend_from_slice(b" \xff\xe2\x82\n");
    }
    let start = FullHistoryReader::tail_start(file.len() as u64).unwrap();
    let read = TailRead::From { start, bytes: file[start as usize..].to_vec() };
    let (tail, end) = FullHistoryReader::read_tail(read);
    let blocks = blocks_before(&file, end.unwrap());
    let mut sessions: Vec<usize> = Vec::new();
    for entry in blocks.iter().flatten().chain(tail.iter()) {
        sessions.push(entry.session.parse().unwrap());
    }
    sessions.sort_unstable();
    let all: Vec<usize> = (1..=pid).collect();
    assert_eq!(sessions, all);
}

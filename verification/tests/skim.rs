//! Fuzzy search, and sorting by scores.
use atuin_fullhistory::clock::Timestamp;
use atuin_fullhistory::database::MemoryDatabase;
use atuin_fullhistory::filter::FilterMode;
use atuin_fullhistory::history::{Context, History, HistoryId};
use atuin_fullhistory::paths::System;
use atuin_fullhistory::skim::{candidate, highlights, Search, SearchState, MAX_RESULTS};
use atuin_fullhistory::sort::{age_in_seconds, match_kind, sort, MatchKind};
use fuzzy_matcher::skim::SkimMatcherV2;
use fuzzy_matcher::FuzzyMatcher;

const SECOND: i128 = 1_000_000_000;

fn entry(id: &str, command: &str, seconds: i128) -> History {
    History {
        id: HistoryId(id.to_string()),
        timestamp: Timestamp { nanos: seconds * SECOND, offset: 0 },
        duration: 0,
        exit: 0,
        command: command.to_string(),
        cwd: "/home/me".to_string(),
        session: "s".to_string(),
        hostname: "box".to_string(),
        author: String::new(),
        intent: None,
        deleted_at: None,
    }
}

fn state(input: &str, filter_mode: FilterMode) -> SearchState {
    SearchState {
        input: input.to_string(),
        filter_mode,
        context: Context {
            session: "s".to_string(),
            cwd: "/home/you".to_string(),
            hostname: "box".to_string(),
            host_id: String::new(),
            git_root: None,
        },
    }
}

fn looking_through(rows: Vec<(History, i32)>) -> Search {
    let mut search = Search::new();
    search.all_history = rows;
    search
}

fn ids(entries: &[History]) -> Vec<&str> {
    entries.iter().map(|h| h.id.0.as_str()).collect()
}

#[test]
fn highlight_shows_what_matches() {
    let search = Search::new();
    assert!(search.all_history.is_empty());
    assert_eq!(search.get_highlight_indices("git push", "gp"), vec![0, 4]);
    assert_eq!(search.get_highlight_indices("git push", "GP"), Vec::<usize>::new());
    assert_eq!(search.get_highlight_indices("git push", "zz"), Vec::<usize>::new());
    assert_eq!(search.get_highlight_indices("git push", ""), Vec::<usize>::new());
}

#[test]
fn search_loads_all_commands() {
    let db = MemoryDatabase::new(vec![entry("1", "a", 1), entry("2", "b", 2), entry("3", "a", 3)]);
    let mut search = Search::new();
    search.load(&db);
    assert_eq!(search.all_history.len(), 2);
    assert_eq!((search.all_history[0].0.id.0.as_str(), search.all_history[0].1), ("3", 2));
}

#[test]
fn candidates_are_shown_and_match() {
    let mut other = entry("3", "git log", 3);
    other.hostname = "elsewhere".to_string();
    let search = looking_through(vec![
        (entry("1", "git push", 1), 5),
        (entry("2", "ls", 2), 1),
        (other, 1),
        (entry("4", "my git", 4), 2),
    ]);
    let found = search.candidates(&state("git", FilterMode::Host), 10 * SECOND, 0, 4);
    let indices: Vec<usize> = found.iter().map(|c| c.index).collect();
    assert_eq!(indices, vec![0, 3]);
    assert_eq!(found[0].begin, 0);
    assert_eq!(found[1].begin, 3);
    assert_eq!(found[0].count, 5);
    assert_eq!(found[0].age, 9 * SECOND);
    // Up from `me` and down to `you`.
    assert_eq!(found[0].distance, 2);
    assert!(found[0].score > 0);
    let part = search.candidates(&state("git", FilterMode::Global), 10 * SECOND, 1, 3);
    let indices: Vec<usize> = part.iter().map(|c| c.index).collect();
    assert_eq!(indices, vec![2]);
}

#[test]
fn empty_input_brings_up_all() {
    let search = looking_through(vec![(entry("1", "a", 1), 1), (entry("2", "b", 2), 1)]);
    let found = search.candidates(&state("", FilterMode::Global), 5 * SECOND, 0, 2);
    assert_eq!(found.len(), 2);
    assert_eq!((found[0].score, found[0].begin), (0, 0));
}

#[test]
fn candidate_from_what_was_found() {
    let row = (entry("1", "git", 4), 3);
    let c = candidate(&System::this(), &row, 7, -12, &vec![2, 5], "/home/me", 4 * SECOND);
    assert_eq!(c.index, 7);
    assert_eq!(c.score, -12);
    assert_eq!(c.begin, 2);
    assert_eq!(c.count, 3);
    assert_eq!(c.age, 0);
    assert_eq!(c.distance, 0);
}

#[test]
fn ranks_go_by_key_and_keep_the_best_of_a_command() {
    let search = looking_through(vec![
        (entry("1", "a", 1), 1),
        (entry("2", "b", 1), 1),
        (entry("3", "a", 1), 1),
        (entry("4", "c", 1), 1),
        (entry("5", "b", 1), 1),
    ]);
    let found = search.candidates(&state("", FilterMode::Global), 5 * SECOND, 0, 5);
    let out = search.rank(&found, &vec![5, 3, 4, 3, 3]);
    assert_eq!(ids(&out), vec!["2", "4", "3"]);
}

#[test]
fn ranks_stop_at_the_limit() {
    let mut rows = Vec::new();
    let mut keys = Vec::new();
    for i in 0..300i64 {
        rows.push((entry(&i.to_string(), &format!("command {i}"), 1), 1));
        keys.push(-i);
    }
    let search = looking_through(rows);
    let found = search.candidates(&state("", FilterMode::Global), 5 * SECOND, 0, 300);
    let out = search.rank(&found, &keys);
    assert_eq!(out.len(), MAX_RESULTS);
    assert_eq!(out[0].id.0, "299");
    assert_eq!(out[199].id.0, "100");
}

#[test]
fn kinds_of_matches() {
    assert_eq!(match_kind("git", "git push"), MatchKind::Prefix);
    assert_eq!(match_kind("push", "git push"), MatchKind::Within);
    assert_eq!(match_kind("pull", "git push"), MatchKind::Absent);
    assert_eq!(match_kind("", "x"), MatchKind::Prefix);
    assert_eq!(match_kind("Git", "git"), MatchKind::Absent);
}

#[test]
fn ages_are_at_least_a_second() {
    let t = |nanos| Timestamp { nanos, offset: 0 };
    assert_eq!(age_in_seconds(&t(10 * SECOND), &t(3 * SECOND)), 7);
    assert_eq!(age_in_seconds(&t(10 * SECOND), &t(10 * SECOND)), 1);
    assert_eq!(age_in_seconds(&t(0), &t(10 * SECOND)), 1);
    assert_eq!(age_in_seconds(&t(SECOND), &t(-1)), 2);
}

#[test]
fn sorting_puts_the_largest_score_first() {
    let input = vec![entry("1", "a", 1), entry("2", "b", 1), entry("3", "c", 1), entry("4", "d", 1)];
    let out = sort(input, &vec![2, 9, 2, i64::MIN]);
    assert_eq!(ids(&out), vec!["2", "1", "3", "4"]);
}

#[test]
fn highlights_of_what_was_found() {
    assert_eq!(highlights(Some((7, vec![1, 4]))), vec![1, 4]);
    assert_eq!(highlights(None), Vec::<usize>::new());
}

#[test]
fn candidates_of_what_was_found() {
    let search = looking_through(vec![
        (entry("1", "a", 1), 1),
        (entry("2", "b", 2), 4),
        (entry("3", "c", 3), 1),
        (entry("4", "d", 4), 6),
    ]);
    let found = vec![Some((9, vec![3, 5])), None, Some((-2, vec![]))];
    let out = search.candidates_given("/home/me", 10 * SECOND, 1, &found);
    assert_eq!(out.len(), 2);
    assert_eq!((out[0].index, out[0].score, out[0].begin, out[0].count), (1, 9, 3, 4));
    assert_eq!((out[1].index, out[1].score, out[1].begin, out[1].count), (3, -2, 0, 6));
    assert_eq!((out[0].age, out[1].age), (8 * SECOND, 6 * SECOND));
}

#[test]
fn one_matcher_is_used_throughout() {
    // The bonus for the start of a word that the first match leaves behind counts for the second.
    let (first, pattern) = (" lxxxxxxxxx", "l");
    let rows = || vec![(entry("1", "xlll", 1), 1)];
    let fresh = looking_through(rows());
    let used = looking_through(rows());
    assert_eq!(used.get_highlight_indices(first, pattern), vec![1]);
    let state = state("ll", FilterMode::Global);
    let before = fresh.candidates(&state, 10 * SECOND, 0, 1);
    let after = used.candidates(&state, 10 * SECOND, 0, 1);

    let matcher = SkimMatcherV2::default();
    let (alone, _) = matcher.fuzzy_indices("xlll", "ll").unwrap();
    assert_eq!(before[0].score, alone);
    let matcher = SkimMatcherV2::default();
    matcher.fuzzy_indices(first, pattern);
    let (behind, _) = matcher.fuzzy_indices("xlll", "ll").unwrap();
    assert_eq!(after[0].score, behind);
    assert_ne!(alone, behind);
    // Which entries are candidates stays the same.
    assert_eq!(before[0].index, after[0].index);
}

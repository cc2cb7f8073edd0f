//! Queries.
use atuin_fullhistory::query::{
    matches_given, matches_query, QueryToken, QueryTokenizer, SearchMode,
};

fn show(query: &str) -> Vec<String> {
    QueryTokenizer::new(query)
        .tokens()
        .iter()
        .map(|t| match t {
            QueryToken::Match(s, i) => format!("match {s} {i}"),
            QueryToken::MatchStart(s, i) => format!("start {s} {i}"),
            QueryToken::MatchEnd(s, i) => format!("end {s} {i}"),
            QueryToken::MatchFull(s, i) => format!("full {s} {i}"),
            QueryToken::Or => "or".to_string(),
            QueryToken::Regex(s) => format!("regex {s}"),
        })
        .collect()
}

fn matches(query: &str, command: &str, mode: SearchMode) -> bool {
    let tokens = QueryTokenizer::new(query).tokens();
    matches_query(command, &tokens, mode)
}

#[test]
fn words_make_tokens() {
    assert_eq!(show(""), Vec::<String>::new());
    assert_eq!(show("git push"), vec!["match git false", "match push false"]);
    assert_eq!(
        show("^git !^x push$ !y$ 'ls !'cd !zz |"),
        vec![
            "start git false",
            "start x true",
            "end push false",
            "end y true",
            "full ls false",
            "full cd true",
            "match zz true",
            "or"
        ]
    );
}

#[test]
fn marks_alone_make_empty_terms() {
    assert_eq!(show("!"), vec!["match  true"]);
    assert_eq!(show("^"), vec!["start  false"]);
    assert_eq!(show("$"), vec!["end  false"]);
    assert_eq!(show("^$"), vec!["start $ false"]);
    assert_eq!(show("!|"), vec!["match | true"]);
    assert_eq!(show("a  b"), vec!["match a false", "match  false", "match b false"]);
}

#[test]
fn regular_expressions_make_tokens() {
    assert_eq!(show("r/a b/ c"), vec!["regex a b", "match c false"]);
    assert_eq!(show("r/a b/"), vec!["regex a b"]);
    assert_eq!(show("r/a b"), vec!["regex a b"]);
    assert_eq!(show("r/"), vec!["regex "]);
    assert_eq!(show("r//"), vec!["regex "]);
    assert_eq!(show("x r/é+/ ü"), vec!["match x false", "regex é+", "match ü false"]);
}

#[test]
fn tokens_come_one_by_one() {
    let mut tokenizer = QueryTokenizer::new("a b");
    assert!(matches!(tokenizer.next(), Some(QueryToken::Match("a", false))));
    assert!(matches!(tokenizer.next(), Some(QueryToken::Match("b", false))));
    assert!(tokenizer.next().is_none());
    assert!(tokenizer.next().is_none());
}

#[test]
fn tokens_tell_of_themselves() {
    assert!(QueryToken::Match("aB", false).has_uppercase());
    assert!(QueryToken::MatchEnd("Ü", false).has_uppercase());
    assert!(!QueryToken::MatchFull("ab", false).has_uppercase());
    assert!(!QueryToken::Regex("AB").has_uppercase());
    assert!(QueryToken::MatchStart("a", true).is_inverse());
    assert!(!QueryToken::Or.is_inverse());
}

#[test]
fn full_text_needs_every_token() {
    let m = SearchMode::FullText;
    assert!(matches("git push", "git push origin", m));
    assert!(!matches("git pull", "git push origin", m));
    assert!(matches("^git origin$", "git push origin", m));
    assert!(!matches("^push", "git push origin", m));
    assert!(matches("'ls", "ls", m));
    assert!(!matches("'ls", "ls -l", m));
    assert!(matches("git | nothing", "git nothing", m));
    assert!(!matches("git | nothing", "git", m));
}

#[test]
fn marked_tokens_do_not_count() {
    assert!(matches("!git push", "git push", SearchMode::Fuzzy));
    assert!(!matches("!git pull", "git push", SearchMode::Fuzzy));
}

#[test]
fn case_counts_for_terms_with_upper_case() {
    let m = SearchMode::Skim;
    assert!(matches("make", "MAKE all", m));
    assert!(matches("MAKE", "MAKE all", m));
    assert!(!matches("MAKE", "make all", m));
    // Only ASCII letters of the command are put in lower case.
    assert!(!matches("ü", "Ü", m));
}

#[test]
fn prefix_mode_looks_at_the_first_term() {
    let m = SearchMode::Prefix;
    assert!(matches("git nothing", "git push", m));
    assert!(!matches("push", "git push", m));
    assert!(!matches("Git", "git push", m));
    assert!(matches("^push", "git push", m));
    assert!(matches("!push", "git push", m));
    assert!(matches("r/zzz/", "git push", m));
}

#[test]
fn regular_expressions_match() {
    let m = SearchMode::FullText;
    assert!(matches("r/^g.t\\s+push$/", "git push", m));
    assert!(!matches("r/^push/", "git push", m));
    assert!(!matches("r/G/", "git", m));
    // One that is not valid matches nothing.
    assert!(!matches("r/(/", "(", m));
}

#[test]
fn verdicts_on_regular_expressions_are_taken_as_given() {
    let tokens = QueryTokenizer::new("r/x/ git").tokens();
    assert!(matches_given("git", &tokens, SearchMode::FullText, &vec![true, false]));
    assert!(!matches_given("git", &tokens, SearchMode::FullText, &vec![false, false]));
}

#[test]
fn empty_query_matches_all() {
    for mode in [SearchMode::Prefix, SearchMode::FullText, SearchMode::DaemonFuzzy] {
        assert!(matches("", "anything", mode));
    }
}

#[test]
fn search_modes_have_labels() {
    assert_eq!(SearchMode::Prefix.as_str(), "PREFIX");
    assert_eq!(SearchMode::FullText.as_str(), "FULLTXT");
    assert_eq!(SearchMode::Fuzzy.as_str(), "FUZZY");
    assert_eq!(SearchMode::Skim.as_str(), "SKIM");
    assert_eq!(SearchMode::DaemonFuzzy.as_str(), "DAEMON");
}

#[test]
fn queries_put_together_match_what_each_matches() {
    let queries = ["", "git", "^git", "origin$", "r/pu.h/", "!git", "pull", "GIT"];
    for a in queries {
        for b in queries {
            for command in ["git push origin", "git pull", "ls"] {
                for mode in [SearchMode::FullText, SearchMode::Fuzzy, SearchMode::Skim] {
                    let both = format!("{a} {b}");
                    assert_eq!(
                        matches(&both, command, mode),
                        matches(a, command, mode) && matches(b, command, mode)
                    );
                }
            }
        }
    }
}

use fastfind::query::{has_wildcards, parse, tokenize, QueryError, SearchOptions};

#[test]
fn parses_quoted_paths_and_name_terms() {
    let query = parse(
        "path:\"My Projects\" annual report",
        SearchOptions::default(),
    )
    .unwrap();
    assert_eq!(query.path_terms, ["my projects"]);
    assert_eq!(query.name_terms, ["annual", "report"]);
}

#[test]
fn rejects_empty_and_unterminated_path_terms() {
    assert!(parse("path:", SearchOptions::default()).is_err());
    assert!(parse("path:\"unfinished", SearchOptions::default()).is_err());
}

#[test]
fn parse_errors_name_their_cause() {
    assert_eq!(
        parse("path:", SearchOptions::default()).unwrap_err(),
        QueryError::EmptyPathTerm
    );
    assert_eq!(
        parse("path:\"unfinished", SearchOptions::default()).unwrap_err(),
        QueryError::UnterminatedQuote
    );
    assert_eq!(QueryError::EmptyPathTerm.message(), "path: requires a path fragment");
    assert_eq!(QueryError::UnterminatedQuote.message(), "unterminated quoted search term");
}

#[test]
fn match_path_option_is_carried_over() {
    let query = parse("Report", SearchOptions { match_path: true }).unwrap();
    assert!(query.match_path);
    assert_eq!(query.name_terms, ["report"]);
    assert!(query.path_terms.is_empty());
    let plain = parse("Report", SearchOptions::default()).unwrap();
    assert!(!plain.match_path);
}

#[test]
fn blank_input_parses_to_no_terms() {
    let query = parse("   \t ", SearchOptions::default()).unwrap();
    assert!(query.name_terms.is_empty());
    assert!(query.path_terms.is_empty());
}

#[test]
fn quotes_join_words_and_vanish() {
    let tokens = tokenize("a\"b c\"d  e").unwrap();
    assert_eq!(tokens, ["ab cd", "e"]);
    assert_eq!(tokenize("\"\"").unwrap(), Vec::<String>::new());
    assert_eq!(tokenize("\"x").unwrap_err(), QueryError::UnterminatedQuote);
}

#[test]
fn wildcards_are_star_and_question_mark() {
    assert!(has_wildcards("*.txt"));
    assert!(has_wildcards("repo?t"));
    assert!(!has_wildcards("report"));
    assert!(!has_wildcards(""));
}

#[test]
fn path_prefix_is_case_sensitive_keyword() {
    let query = parse("PATH:Docs", SearchOptions::default()).unwrap();
    assert_eq!(query.name_terms, ["path:docs"]);
    assert!(query.path_terms.is_empty());
}

#[test]
fn unicode_white_space_separates_terms() {
    let query = parse("Annual\u{3000}Report\u{a0}2026", SearchOptions::default()).unwrap();
    assert_eq!(query.name_terms, ["annual", "report", "2026"]);
}

use getquotes::config::default_config;
use getquotes::session::{
    apply_cli_overrides, select_offline_quote, split_authors, CliOverrides, OfflineError,
    QuoteSearch, SearchStep,
};

fn pair(a: &str, q: &str) -> (String, String) {
    (a.to_string(), q.to_string())
}

#[test]
fn splits_author_lists() {
    assert_eq!(split_authors(" Albert Einstein, Isaac Newton ,x"), vec!["Albert Einstein", "Isaac Newton", "x"]);
    assert_eq!(split_authors(""), vec![""]);
    assert_eq!(split_authors("a,"), vec!["a", ""]);
}

#[test]
fn command_line_settings_replace_configured_ones() {
    let mut cfg = default_config();
    apply_cli_overrides(
        &mut cfg,
        CliOverrides {
            authors: Some("A, B".to_string()),
            theme_color: Some("#FF0000".to_string()),
            max_tries: Some(5),
            log_file: None,
            rainbow_mode: Some(false),
        },
    );
    assert_eq!(cfg.authors, vec!["A", "B"]);
    assert_eq!(cfg.theme_color, "#FF0000");
    assert_eq!(cfg.max_tries, 5);
    assert_eq!(cfg.log_file, "getquotes.log");
    assert!(!cfg.rainbow_mode);
    apply_cli_overrides(
        &mut cfg,
        CliOverrides { authors: None, theme_color: None, max_tries: None, log_file: None, rainbow_mode: Some(true) },
    );
    assert!(cfg.rainbow_mode);
    assert_eq!(cfg.authors, vec!["A", "B"]);
}

#[test]
fn offline_quote_selection() {
    let cached = vec![pair("A", "1"), pair("B", "2")];
    assert_eq!(select_offline_quote(&Vec::new(), &Vec::new()), Err(OfflineError::NoCachedQuotes));
    assert_eq!(select_offline_quote(&cached, &vec!["C".to_string()]), Err(OfflineError::NoQuotesForAuthors));
    assert_eq!(select_offline_quote(&cached, &vec!["B".to_string()]), Ok(pair("B", "2")));
    let any = select_offline_quote(&cached, &Vec::new()).unwrap();
    assert!(cached.contains(&any));
    assert!(OfflineError::NoCachedQuotes.message().contains("--init-cache first"));
    assert!(OfflineError::NoQuotesForAuthors.message().contains("check your author list"));
}

#[test]
fn quote_search_walks_attempts_and_sections() {
    let authors = vec!["Only".to_string()];
    let mut s = QuoteSearch::new(2);
    match s.next_attempt(&authors) {
        SearchStep::FetchSections(a) => assert_eq!(a, "Only"),
        other => panic!("{other:?}"),
    }
    let step = s.sections_received(&authors, Some(("Page".to_string(), vec!["1".to_string(), "3".to_string()])));
    match step {
        SearchStep::FetchQuotes(t, sec) => assert_eq!((t.as_str(), sec.as_str()), ("Page", "1")),
        other => panic!("{other:?}"),
    }
    match s.quotes_received(&authors, None) {
        SearchStep::FetchQuotes(t, sec) => assert_eq!((t.as_str(), sec.as_str()), ("Page", "3")),
        other => panic!("{other:?}"),
    }
    match s.quotes_received(&authors, Some(vec![])) {
        SearchStep::FetchSections(a) => assert_eq!(a, "Only"),
        other => panic!("{other:?}"),
    }
    match s.sections_received(&authors, None) {
        SearchStep::GiveUp => {}
        other => panic!("{other:?}"),
    }
}

#[test]
fn quote_search_finds_a_received_quote() {
    let authors = vec!["A".to_string()];
    let mut s = QuoteSearch::new(1);
    s.next_attempt(&authors);
    s.sections_received(&authors, Some(("A".to_string(), vec!["2".to_string()])));
    match s.quotes_received(&authors, Some(vec!["q1".to_string(), "q2".to_string()])) {
        SearchStep::Found(a, q) => {
            assert_eq!(a, "A");
            assert!(q == "q1" || q == "q2");
        }
        other => panic!("{other:?}"),
    }
    let mut none = QuoteSearch::new(0);
    assert!(matches!(none.next_attempt(&authors), SearchStep::GiveUp));
}

#[test]
fn a_quote_from_a_later_section_keeps_its_author_and_page() {
    let authors = vec!["Ada".to_string()];
    let mut s = QuoteSearch::new(3);
    s.next_attempt(&authors);
    let secs = vec!["1".to_string(), "2".to_string(), "3".to_string()];
    s.sections_received(&authors, Some(("Ada Page".to_string(), secs)));
    match s.quotes_received(&authors, Some(vec![])) {
        SearchStep::FetchQuotes(t, sec) => assert_eq!((t.as_str(), sec.as_str()), ("Ada Page", "2")),
        other => panic!("{other:?}"),
    }
    match s.quotes_received(&authors, None) {
        SearchStep::FetchQuotes(t, sec) => assert_eq!((t.as_str(), sec.as_str()), ("Ada Page", "3")),
        other => panic!("{other:?}"),
    }
    match s.quotes_received(&authors, Some(vec!["q".to_string()])) {
        SearchStep::Found(a, q) => assert_eq!((a.as_str(), q.as_str()), ("Ada", "q")),
        other => panic!("{other:?}"),
    }
}

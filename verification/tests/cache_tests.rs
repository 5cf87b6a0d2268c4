use getquotes::cache::{
    cache_rows_to_delete, cache_rows_to_update, filter_quotes_by_authors, get_random_cached_quote,
    normalize_quote, unseen_normalized, CacheTally, check_caching_authors, CacheRunError,
};

fn pair(a: &str, q: &str) -> (String, String) {
    (a.to_string(), q.to_string())
}

#[test]
fn normalizes_compatibility_forms() {
    assert_eq!(normalize_quote("\u{FB01}ne"), "fine");
    assert_eq!(normalize_quote("\u{FF21}BC"), "ABC");
    assert_eq!(normalize_quote("e\u{301}"), "\u{e9}");
    assert_eq!(normalize_quote("plain"), "plain");
}

#[test]
fn filters_quotes_by_author() {
    let quotes = vec![pair("A", "1"), pair("B", "2"), pair("A", "3")];
    let authors = vec!["A".to_string()];
    assert_eq!(filter_quotes_by_authors(&quotes, &authors), vec![pair("A", "1"), pair("A", "3")]);
    assert_eq!(filter_quotes_by_authors(&quotes, &Vec::new()), quotes);
    assert_eq!(filter_quotes_by_authors(&quotes, &vec!["C".to_string()]), vec![]);
}

#[test]
fn random_cached_quote_comes_from_the_authors() {
    let quotes = vec![pair("A", "1"), pair("B", "2"), pair("A", "3")];
    let authors = vec!["B".to_string()];
    for _ in 0..20 {
        assert_eq!(get_random_cached_quote(&quotes, &authors), Some(pair("B", "2")));
    }
    let any = get_random_cached_quote(&quotes, &Vec::new()).unwrap();
    assert!(quotes.contains(&any));
    assert_eq!(get_random_cached_quote(&Vec::new(), &authors), None);
    assert_eq!(get_random_cached_quote(&quotes, &vec!["C".to_string()]), None);
}

#[test]
fn migration_keeps_the_first_row_of_each_normalized_quote() {
    let rows = vec![
        (1i64, "\u{FB01}ne".to_string()),
        (2i64, "fine".to_string()),
        (3i64, "other".to_string()),
        (4i64, "\u{FF4F}ther".to_string()),
    ];
    assert_eq!(cache_rows_to_delete(&rows), vec![2, 4]);
    let survivors = vec![(1i64, "\u{FB01}ne".to_string()), (3i64, "other".to_string())];
    assert_eq!(cache_rows_to_update(&survivors), vec![(1, "fine".to_string())]);
    assert_eq!(cache_rows_to_delete(&Vec::new()), Vec::<i64>::new());
}

#[test]
fn dedupes_quotes_within_a_run() {
    let mut seen = vec!["fine".to_string()];
    let quotes = vec!["\u{FB01}ne".to_string(), "new".to_string(), "new".to_string(), "x".to_string()];
    let fresh = unseen_normalized(&mut seen, &quotes);
    assert_eq!(fresh, vec!["new".to_string(), "x".to_string()]);
    assert_eq!(seen, vec!["fine".to_string(), "new".to_string(), "x".to_string()]);
}

#[test]
fn tallies_insert_outcomes() {
    let mut tally = CacheTally::new();
    tally.record(Some(1));
    tally.record(Some(0));
    tally.record(None);
    tally.record(Some(1));
    assert_eq!(tally, CacheTally { cached: 2, duplicates: 1, failed: 1 });
    let mut total = CacheTally { cached: 5, duplicates: 0, failed: 2 };
    total.add(&tally);
    assert_eq!(total, CacheTally { cached: 7, duplicates: 1, failed: 3 });
}

#[test]
fn a_run_never_stores_a_quote_twice() {
    let mut seen: Vec<String> = Vec::new();
    let first = unseen_normalized(&mut seen, &vec!["a".to_string(), "\u{FF41}".to_string()]);
    let second = unseen_normalized(&mut seen, &vec!["b".to_string(), "a".to_string()]);
    assert_eq!(first, vec!["a".to_string()]);
    assert_eq!(second, vec!["b".to_string()]);
    let mut all = first.clone();
    all.extend(second);
    assert_eq!(seen, all);
}

#[test]
fn migration_keeps_the_lowest_id_whatever_the_read_order() {
    let rows = vec![
        (5i64, "fine".to_string()),
        (3i64, "\u{FB01}ne".to_string()),
        (9i64, "x".to_string()),
        (4i64, "\u{FF58}".to_string()),
        (7i64, "fine".to_string()),
    ];
    assert_eq!(cache_rows_to_delete(&rows), vec![5, 9, 7]);
}

#[test]
fn a_caching_run_needs_authors() {
    let err = check_caching_authors(&Vec::new()).unwrap_err();
    assert_eq!(err, CacheRunError::NoAuthors);
    assert_eq!(err.message(), "No authors configured for caching.");
    assert_eq!(check_caching_authors(&vec!["A".to_string()]), Ok(()));
}

#[test]
fn a_second_migration_changes_nothing() {
    let rows = vec![
        (2i64, "\u{FB01}ne".to_string()),
        (1i64, "fine".to_string()),
        (3i64, "\u{FF4F}ther".to_string()),
    ];
    let deleted = cache_rows_to_delete(&rows);
    let survivors: Vec<(i64, String)> =
        rows.iter().filter(|r| !deleted.contains(&r.0)).cloned().collect();
    let updates = cache_rows_to_update(&survivors);
    let migrated: Vec<(i64, String)> = survivors
        .iter()
        .map(|r| updates.iter().find(|u| u.0 == r.0).cloned().unwrap_or(r.clone()))
        .collect();
    assert_eq!(migrated, vec![(1, "fine".to_string()), (3, "other".to_string())]);
    assert!(cache_rows_to_delete(&migrated).is_empty());
    assert!(cache_rows_to_update(&migrated).is_empty());
}

#[test]
fn normalizing_twice_is_normalizing_once() {
    for q in ["\u{FB01}ne", "\u{FF21}BC", "e\u{301}", "plain", "\u{2460}"] {
        let once = normalize_quote(q);
        assert_eq!(normalize_quote(&once), once);
    }
}

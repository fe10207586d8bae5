use brk_core::{series_precedes, sort_series, CatalogBuilder, SeriesCount, SeriesRow};

fn row(name: &str, index: &str, db: &str, lazy: bool) -> SeriesRow {
    SeriesRow { name: name.to_string(), index: index.to_string(), db: db.to_string(), lazy }
}

fn count(distinct: usize, total: usize, lazy: usize, stored: usize) -> SeriesCount {
    SeriesCount { distinct, total, lazy, stored }
}

#[test]
fn series_are_listed_shortest_first_then_bytewise() {
    let names: Vec<String> = ["price_close", "ohlc", "price", "fee", "a_b", "price_open"]
        .iter()
        .map(|s| s.to_string())
        .collect();
    let sorted = sort_series(names);
    assert_eq!(sorted, vec!["a_b", "fee", "ohlc", "price", "price_open", "price_close"]);
}

#[test]
fn series_order_compares_length_before_bytes() {
    assert!(series_precedes("zz", "aaa"));
    assert!(!series_precedes("aaa", "zz"));
    assert!(series_precedes("ab", "ac"));
    assert!(!series_precedes("ab", "ab"));
    assert!(series_precedes("Z", "a"));
}

#[test]
fn catalog_counts_vectors_per_database_and_overall() {
    let mut b = CatalogBuilder::new();
    b.insert(row("supply", "height", "indexed", false));
    b.insert(row("supply", "day", "indexed", true));
    b.insert(row("fees", "height", "computed", false));
    b.insert(row("supply", "week", "computed", true));

    assert_eq!(b.counts(), count(2, 4, 2, 2));
    assert_eq!(b.counts_for_db(&"indexed".to_string()), Some(count(1, 2, 1, 1)));
    assert_eq!(b.counts_for_db(&"computed".to_string()), Some(count(2, 2, 1, 1)));
    assert_eq!(b.counts_for_db(&"other".to_string()), None);

    assert!(b.has_series(&"supply".to_string(), &"day".to_string()));
    assert!(!b.has_series(&"fees".to_string(), &"day".to_string()));
}

#[test]
fn empty_catalog_counts_nothing() {
    let b = CatalogBuilder::new();
    assert_eq!(b.counts(), count(0, 0, 0, 0));
    assert_eq!(b.counts_for_db(&"indexed".to_string()), None);
}

#[test]
fn catalog_lists_each_series_once_in_listing_order() {
    let mut b = CatalogBuilder::new();
    b.insert(row("supply", "height", "indexed", false));
    b.insert(row("fee", "height", "computed", false));
    b.insert(row("supply", "day", "computed", true));
    b.insert(row("ab", "day", "computed", true));
    assert_eq!(b.series_names(), vec!["ab", "fee", "supply"]);
    assert_eq!(b.indexes_of(&"supply".to_string()), vec!["height", "day"]);
    assert!(b.indexes_of(&"missing".to_string()).is_empty());
}

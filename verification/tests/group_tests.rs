use dolus::group::{CrawlRow, group_by_word, present_values};
use dolus::ts::Timestamp;

fn row(secs: i64, url: &str, counts: &[(&str, Option<u64>)]) -> CrawlRow {
    CrawlRow {
        created: Timestamp { secs, micros: 0 },
        url: url.to_string(),
        counts: counts.iter().map(|(w, c)| (w.to_string(), *c)).collect(),
    }
}

#[test]
fn groups_matching_rows_by_url() {
    let rows = vec![
        row(30, "A", &[("foo", Some(3)), ("bar", Some(1))]),
        row(20, "B", &[("foo", Some(5))]),
        row(10, "A", &[("foo", Some(4))]),
        row(5, "C", &[("bar", Some(9))]),
    ];
    let grouped = group_by_word(&rows, &"foo".to_string());
    assert_eq!(grouped.len(), 2);
    assert_eq!(grouped[0].0, "A");
    let a: Vec<(i64, u64)> = grouped[0].1.iter().map(|p| (p.0.secs, p.1)).collect();
    // row order within a URL is kept, even when unsorted by time
    assert_eq!(a, vec![(30, 3), (10, 4)]);
    assert_eq!(grouped[1].0, "B");
    let b: Vec<(i64, u64)> = grouped[1].1.iter().map(|p| (p.0.secs, p.1)).collect();
    assert_eq!(b, vec![(20, 5)]);
}

#[test]
fn rows_without_numeric_count_are_skipped() {
    let rows = vec![
        row(1, "A", &[("foo", None)]),
        row(2, "A", &[("bar", Some(2))]),
        row(3, "A", &[("foo", Some(6))]),
    ];
    let grouped = group_by_word(&rows, &"foo".to_string());
    assert_eq!(grouped.len(), 1);
    let a: Vec<(i64, u64)> = grouped[0].1.iter().map(|p| (p.0.secs, p.1)).collect();
    assert_eq!(a, vec![(3, 6)]);
}

#[test]
fn unknown_word_groups_nothing() {
    let rows = vec![row(1, "A", &[("foo", Some(1))])];
    assert!(group_by_word(&rows, &"baz".to_string()).is_empty());
}

#[test]
fn present_values_drops_nulls() {
    let keys = vec![
        Some("alpha".to_string()),
        None,
        Some("beta".to_string()),
        None,
    ];
    assert_eq!(present_values(keys), vec!["alpha", "beta"]);
    assert!(present_values(Vec::new()).is_empty());
}

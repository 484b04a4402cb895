use dolus::DolusError;
use dolus::histogram::{Histogram, HistogramEntry, build_histogram};

fn input(rows: &[(&str, &[(&str, Option<i64>)])]) -> Vec<(String, Vec<(String, Option<i64>)>)> {
    rows.iter()
        .map(|(url, counts)| {
            (
                url.to_string(),
                counts.iter().map(|(w, c)| (w.to_string(), *c)).collect(),
            )
        })
        .collect()
}

#[test]
fn histogram_totals_and_active_words() {
    // A reports foo=2, bar=0; B reports foo=5
    let latest = input(&[
        ("A", &[("foo", Some(2)), ("bar", Some(0))]),
        ("B", &[("foo", Some(5))]),
    ]);
    let h = build_histogram(&latest);

    assert_eq!(h.data.len(), 2);
    assert_eq!(h.data[0].0, "foo");
    assert_eq!(h.data[0].1.total, 7);
    assert_eq!(
        h.data[0].1.counts,
        vec![("A".to_string(), Some(2)), ("B".to_string(), Some(5))]
    );
    assert_eq!(h.data[1].0, "bar");
    assert_eq!(h.data[1].1.total, 0);

    // a word with total 0 is excluded from the active words
    assert_eq!(h.words(), vec!["foo"]);
}

#[test]
fn active_words_order_total_then_alphabetical() {
    let latest = input(&[
        ("A", &[("small", Some(2)), ("big", Some(9))]),
        ("B", &[("little", Some(2)), ("big", Some(1))]),
    ]);
    let h = build_histogram(&latest);
    // big: 10; small and little tie at 2 and fall back to string order
    assert_eq!(h.words(), vec!["big", "little", "small"]);
}

#[test]
fn absent_counts_do_not_contribute() {
    let latest = input(&[("A", &[("w", None)]), ("B", &[("w", Some(3))])]);
    let h = build_histogram(&latest);
    assert_eq!(h.data[0].1.total, 3);
    assert_eq!(
        h.data[0].1.counts,
        vec![("A".to_string(), None), ("B".to_string(), Some(3))]
    );
}

#[test]
fn plan_filters_bars_and_categories() {
    let latest = input(&[
        ("A", &[("w", Some(4))]),
        ("B", &[("w", None)]),
        ("C", &[("w", Some(0))]),
    ]);
    let h = build_histogram(&latest);
    let plan = h.plan(&"w".to_string()).expect("word exists");
    assert_eq!(plan.word, "w");
    assert_eq!(plan.total, 4);
    // bars keep every present pair; categories only positive ones
    assert_eq!(plan.bars, vec![("A".to_string(), 4), ("C".to_string(), 0)]);
    assert_eq!(plan.urls, vec!["A"]);
    assert_eq!(plan.y_max, 4);
}

#[test]
fn plan_unknown_word_is_lookup_error() {
    let latest = input(&[("A", &[("w", Some(1))])]);
    let h = build_histogram(&latest);
    assert_eq!(h.plan(&"nope".to_string()).unwrap_err(), DolusError::Lookup);
}

#[test]
fn words_of_empty_histogram() {
    let h = Histogram { data: Vec::new() };
    assert!(h.words().is_empty());
}

#[test]
fn words_respects_stored_totals() {
    let h = Histogram {
        data: vec![
            (
                "negative".to_string(),
                HistogramEntry { counts: vec![("A".to_string(), Some(-1))], total: -1 },
            ),
            (
                "positive".to_string(),
                HistogramEntry { counts: vec![("A".to_string(), Some(1))], total: 1 },
            ),
        ],
    };
    assert_eq!(h.words(), vec!["positive"]);
}

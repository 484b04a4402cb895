use dolus::DolusError;
use dolus::color::ColorAssignment;
use dolus::counts::{SnapshotRecord, build_counts};

fn snap(created: &str, url: &str, counts: &[(&str, u64)]) -> SnapshotRecord {
    SnapshotRecord {
        created: created.to_string(),
        url: url.to_string(),
        counts: counts.iter().map(|(w, c)| (w.to_string(), *c)).collect(),
    }
}

#[test]
fn build_counts_fans_out_per_word() {
    let records = vec![
        snap("2021-05-01T10:00:00.000000000Z", "A", &[("foo", 3), ("bar", 1)]),
        snap("2021-05-01T10:05:00.000000000Z", "A", &[("foo", 7)]),
        snap("2021-05-01T10:00:00.000000000Z", "B", &[("foo", 5), ("baz", 2)]),
    ];
    let dc = build_counts(&records).expect("all timestamps parse");

    // words in first-seen order
    assert_eq!(dc.get_words(), vec!["foo", "bar", "baz"]);

    // one label per record, sorted
    assert_eq!(dc.labels.len(), 3);
    assert!(dc.labels[0].secs <= dc.labels[1].secs);
    assert!(dc.labels[1].secs <= dc.labels[2].secs);

    // per-word maxima
    let foo = &dc.count_by_word[0].1;
    assert_eq!(foo.max_value, 7);
    assert_eq!(foo.by_url.len(), 2);
    assert_eq!(foo.by_url[0].0, "A");
    assert_eq!(foo.by_url[0].1.len(), 2);
    assert_eq!(foo.by_url[1].0, "B");
    let bar = &dc.count_by_word[1].1;
    assert_eq!(bar.max_value, 1);
    assert_eq!(bar.by_url.len(), 1);
}

#[test]
fn build_counts_rejects_first_bad_record() {
    let records = vec![
        snap("2021-05-01T10:00:00.000000000Z", "A", &[("foo", 3)]),
        snap("broken", "B", &[("foo", 5)]),
    ];
    assert_eq!(build_counts(&records).unwrap_err(), DolusError::Parse { index: 1 });
}

#[test]
fn render_plan_reports_ranges_and_labels() {
    let records = vec![
        snap("2021-05-01T10:00:00.000000000Z", "A", &[("foo", 30)]),
        snap("2021-05-01T10:05:00.000000000Z", "B", &[("foo", 7)]),
    ];
    let dc = build_counts(&records).unwrap();
    let mut colors = ColorAssignment::new();
    let plan = dc.render_plan(&"foo".to_string(), &mut colors).expect("known word");
    assert_eq!(plan.caption, "foo");
    assert_eq!(plan.x_min_secs, dc.labels[0].secs);
    assert_eq!(plan.x_max_secs, dc.labels[1].secs);
    assert_eq!(plan.y_max, 30);
    // 30 / 3 = 10 labels; a small range still gets at least 3
    assert_eq!(plan.y_label_count, 10);
    assert_eq!(plan.legend.len(), 2);
    assert_eq!(plan.legend[0].0, "A");
    assert_eq!(plan.legend[1].0, "B");
}

#[test]
fn render_plan_small_range_keeps_three_labels() {
    let records = vec![
        snap("2021-05-01T10:00:00.000000000Z", "A", &[("foo", 7)]),
        snap("2021-05-01T10:05:00.000000000Z", "B", &[("foo", 2)]),
    ];
    let dc = build_counts(&records).unwrap();
    let mut colors = ColorAssignment::new();
    let plan = dc.render_plan(&"foo".to_string(), &mut colors).unwrap();
    assert_eq!(plan.y_label_count, 3);
}

#[test]
fn render_plan_error_order() {
    // fewer than two labels beats an unknown word
    let short = vec![snap("2021-05-01T10:00:00.000000000Z", "A", &[("foo", 1)])];
    let dc = build_counts(&short).unwrap();
    let mut colors = ColorAssignment::new();
    assert_eq!(
        dc.render_plan(&"nope".to_string(), &mut colors).unwrap_err(),
        DolusError::InsufficientData
    );

    let records = vec![
        snap("2021-05-01T10:00:00.000000000Z", "A", &[("foo", 1)]),
        snap("2021-05-01T10:05:00.000000000Z", "A", &[("foo", 2)]),
    ];
    let dc = build_counts(&records).unwrap();
    assert_eq!(
        dc.render_plan(&"nope".to_string(), &mut colors).unwrap_err(),
        DolusError::Lookup
    );
}

#[test]
fn legend_colors_are_stable_across_draws() {
    let records = vec![
        snap("2021-05-01T10:00:00.000000000Z", "A", &[("foo", 1), ("bar", 4)]),
        snap("2021-05-01T10:05:00.000000000Z", "B", &[("foo", 2)]),
    ];
    let dc = build_counts(&records).unwrap();
    let mut colors = ColorAssignment::new();
    let first = dc.render_plan(&"foo".to_string(), &mut colors).unwrap();
    let second = dc.render_plan(&"foo".to_string(), &mut colors).unwrap();
    assert_eq!(first.legend, second.legend);
    // drawing another word reuses A's cached color
    let bar = dc.render_plan(&"bar".to_string(), &mut colors).unwrap();
    assert_eq!(bar.legend[0], first.legend[0]);
}

use dolus::DolusError;
use dolus::color::ColorAssignment;
use dolus::series::{TimeSeriesSet, WordRecord, build_series};
use dolus::ts::Timestamp;

fn rec(created: &str, url: &str, count: u64) -> WordRecord {
    WordRecord { created: created.to_string(), url: url.to_string(), count }
}

fn secs_of(s: &str) -> i64 {
    Timestamp::parse(s).expect("timestamp should parse").secs
}

fn build_example() -> TimeSeriesSet {
    // three observations: A at 10:00 and 10:05, B at 10:00
    let records = vec![
        rec("2021-05-01T10:00:00.000000000Z", "A", 3),
        rec("2021-05-01T10:05:00.000000000Z", "A", 7),
        rec("2021-05-01T10:00:00.000000000Z", "B", 5),
    ];
    build_series("dolus".to_string(), &records).expect("all timestamps parse")
}

#[test]
fn parse_known_epoch() {
    let t = Timestamp::parse("1970-01-01T00:00:10.000000000Z").expect("parses");
    assert_eq!(t.secs, 10);
    assert_eq!(t.micros, 0);
    let t = Timestamp::parse("1970-01-01T00:00:10.500000000Z").expect("parses");
    assert_eq!(t.secs, 10);
    assert_eq!(t.micros, 500_000);
}

#[test]
fn parse_rejects_bad_format() {
    assert!(Timestamp::parse("2021-05-01 10:00:00").is_none());
    assert!(Timestamp::parse("not a date").is_none());
    assert!(Timestamp::parse("").is_none());
}

#[test]
fn minute_string_formats_utc() {
    let t = Timestamp { secs: 0, micros: 0 };
    assert_eq!(t.minute_string(), "1970-01-01 00:00");
    let t = Timestamp { secs: 3661, micros: 0 };
    assert_eq!(t.minute_string(), "1970-01-01 01:01");
}

#[test]
fn build_series_groups_and_sorts() {
    let set = build_example();
    assert_eq!(set.word(), "dolus");
    assert_eq!(set.count.max_value, 7);
    assert_eq!(set.number_of_items(), 3);

    let t1000 = secs_of("2021-05-01T10:00:00.000000000Z");
    let t1005 = secs_of("2021-05-01T10:05:00.000000000Z");

    // one axis entry per record, sorted ascending, duplicates kept
    let axis: Vec<i64> = set.axis.iter().map(|t| t.secs).collect();
    assert_eq!(axis, vec![t1000, t1000, t1005]);

    // per-URL series stay in ingestion order
    assert_eq!(set.count.by_url.len(), 2);
    assert_eq!(set.count.by_url[0].0, "A");
    let a: Vec<(i64, u64)> = set.count.by_url[0].1.iter().map(|p| (p.0.secs, p.1)).collect();
    assert_eq!(a, vec![(t1000, 3), (t1005, 7)]);
    assert_eq!(set.count.by_url[1].0, "B");
    let b: Vec<(i64, u64)> = set.count.by_url[1].1.iter().map(|p| (p.0.secs, p.1)).collect();
    assert_eq!(b, vec![(t1000, 5)]);
}

#[test]
fn build_series_rejects_first_bad_record() {
    let records = vec![
        rec("2021-05-01T10:00:00.000000000Z", "A", 3),
        rec("yesterday", "A", 7),
        rec("also wrong", "B", 5),
    ];
    let err = build_series("dolus".to_string(), &records).unwrap_err();
    assert_eq!(err, DolusError::Parse { index: 1 });
}

#[test]
fn closest_at_edges_and_middle() {
    let set = build_example();
    let t1000 = secs_of("2021-05-01T10:00:00.000000000Z");
    let t1005 = secs_of("2021-05-01T10:05:00.000000000Z");

    // cursor 0: resolves to the minimum axis entry
    let left = set.get_closest(0, 1).expect("enough data");
    assert_eq!(left.len(), 2);
    assert_eq!(left[0].0, "A");
    assert_eq!((left[0].1.secs, left[0].2), (t1000, 3));
    assert_eq!(left[1].0, "B");
    assert_eq!((left[1].1.secs, left[1].2), (t1000, 5));

    // cursor 1: resolves to the maximum axis entry
    let right = set.get_closest(1, 1).expect("enough data");
    assert_eq!((right[0].1.secs, right[0].2), (t1005, 7));
    assert_eq!((right[1].1.secs, right[1].2), (t1000, 5));

    // cursor 1/2: the target of 10:02:30 resolves to the first entry at or
    // after it, 10:05; A's nearest is 10:05, B only has 10:00
    let mid = set.get_closest(1, 2).expect("enough data");
    assert_eq!((mid[0].1.secs, mid[0].2), (t1005, 7));
    assert_eq!((mid[1].1.secs, mid[1].2), (t1000, 5));
}

#[test]
fn closest_beyond_right_edge_clamps() {
    let set = build_example();
    let t1005 = secs_of("2021-05-01T10:05:00.000000000Z");
    // a cursor past 1 clamps to the last axis entry instead of wrapping
    let far = set.get_closest(3, 2).expect("enough data");
    assert_eq!((far[0].1.secs, far[0].2), (t1005, 7));
}

#[test]
fn closest_needs_two_axis_entries() {
    let one = build_series(
        "dolus".to_string(),
        &vec![rec("2021-05-01T10:00:00.000000000Z", "A", 3)],
    )
    .unwrap();
    assert_eq!(one.get_closest(1, 2).unwrap_err(), DolusError::InsufficientData);

    let none = build_series("dolus".to_string(), &vec![]).unwrap();
    assert_eq!(none.get_closest(0, 1).unwrap_err(), DolusError::InsufficientData);
    assert_eq!(
        none.get_closest_formatted(0, 1).unwrap_err(),
        DolusError::InsufficientData
    );
}

#[test]
fn closest_formatted_renders_minutes() {
    let set = build_example();
    let got = set.get_closest_formatted(1, 1).expect("enough data");
    assert_eq!(got[0].0, "A");
    assert_eq!(got[0].1, "2021-05-01 10:05");
    assert_eq!(got[0].2, 7);
    assert_eq!(got[1].1, "2021-05-01 10:00");
}

#[test]
fn closest_tie_keeps_first_observation() {
    // two observations of A equally far from the resolved entry: the
    // earlier one in ingestion order wins
    let records = vec![
        rec("2021-05-01T10:00:00.000000000Z", "A", 1),
        rec("2021-05-01T10:02:00.000000000Z", "B", 9),
        rec("2021-05-01T10:04:00.000000000Z", "A", 2),
    ];
    let set = build_series("w".to_string(), &records).unwrap();
    let t1002 = secs_of("2021-05-01T10:02:00.000000000Z");
    let t1000 = secs_of("2021-05-01T10:00:00.000000000Z");
    let mid = set.get_closest(1, 2).expect("enough data");
    assert_eq!((mid[1].1.secs, mid[1].2), (t1002, 9));
    // A's 10:00 and 10:04 are both 120 s from 10:02: first one kept
    assert_eq!((mid[0].1.secs, mid[0].2), (t1000, 1));
}

#[test]
fn set_render_plan_reports_ranges() {
    let set = build_example();
    let mut colors = ColorAssignment::new();
    let plan = set.render_plan(&mut colors).expect("enough data");
    assert_eq!(plan.caption, "dolus");
    assert_eq!(plan.x_min_secs, set.axis[0].secs);
    assert_eq!(plan.x_max_secs, set.axis[2].secs);
    assert_eq!(plan.y_max, 7);
    assert_eq!(plan.y_label_count, 3);
    assert_eq!(plan.legend.len(), 2);
    assert_eq!(plan.legend[0].0, "A");
    assert_eq!(plan.legend[1].0, "B");
    assert_ne!(plan.legend[0].1, plan.legend[1].1);

    let one = build_series(
        "dolus".to_string(),
        &vec![rec("2021-05-01T10:00:00.000000000Z", "A", 3)],
    )
    .unwrap();
    assert_eq!(
        one.render_plan(&mut colors).unwrap_err(),
        DolusError::InsufficientData
    );
}

use dolus::color::{Color, ColorAssignment, STROKE_WIDTH};

#[test]
fn color_values_from_ordinal_index() {
    let mut colors = ColorAssignment::new();
    // index 0 collapses to the brightness floor on every channel
    let c0 = colors.color_for(&"a".to_string(), 0);
    assert_eq!(c0, Color { r: 20, g: 20, b: 20 });
    // index 1: (225 & 225, 94 & 225 -> 64, 69 & 225 -> 65)
    let c1 = colors.color_for(&"b".to_string(), 1);
    assert_eq!(c1, Color { r: 225, g: 64, b: 65 });
    assert_ne!(c0, c1);
}

#[test]
fn same_index_same_color() {
    let mut colors = ColorAssignment::new();
    let first = colors.color_for(&"a".to_string(), 2);
    let again = colors.color_for(&"a".to_string(), 2);
    assert_eq!(first, again);
}

#[test]
fn cached_color_survives_index_change() {
    let mut colors = ColorAssignment::new();
    let first = colors.color_for(&"a".to_string(), 0);
    // a later render pass may enumerate the URL under another index; the
    // cached color still wins
    let later = colors.color_for(&"a".to_string(), 7);
    assert_eq!(first, later);

    let mut fresh = ColorAssignment::new();
    let direct = fresh.color_for(&"a".to_string(), 7);
    assert_ne!(direct, later);
}

#[test]
fn stroke_width_for_lines() {
    assert_eq!(STROKE_WIDTH, 3);
}

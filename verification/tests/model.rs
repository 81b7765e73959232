//! Tests of the data model: intervals, points, tiers and their mutators.

use textgridde::decimal::Decimal;
use textgridde::interval::{Interval, Tier as IntervalTier};
use textgridde::point::{Point, Tier as PointTier};

fn dec(units: u64, scale: u32) -> Decimal {
    Decimal::from_parts(false, units, scale)
}

#[test]
fn get_duration() {
    let interval = Interval::new(dec(0, 0), dec(23, 1), "test".to_string());
    assert_eq!(interval.get_duration(), Some(dec(23, 1)));
}

#[test]
fn get_midpoint() {
    let interval = Interval::new(dec(0, 0), dec(23, 1), "test".to_string());
    assert_eq!(interval.get_midpoint(), Some(dec(115, 2)));
}

#[test]
fn duration_and_midpoint_of_negative_bounds() {
    let interval = Interval::new(
        Decimal::from_parts(true, 15, 1),
        Decimal::from_parts(false, 5, 1),
        "test".to_string(),
    );
    assert_eq!(interval.get_duration(), Some(dec(2, 0)));
    assert_eq!(interval.get_midpoint(), Some(Decimal::from_parts(true, 5, 1)));
}

#[test]
fn interval_set_xmin() {
    let mut interval = Interval::new(dec(0, 0), dec(23, 1), "test".to_string());
    interval.set_xmin(dec(1, 0));
    assert_eq!(interval.xmin(), &dec(1, 0));
}

#[test]
fn interval_set_xmax() {
    let mut interval = Interval::new(dec(0, 0), dec(23, 1), "test".to_string());
    interval.set_xmax(dec(1, 0));
    assert_eq!(interval.xmax(), &dec(1, 0));
}

#[test]
fn interval_to_string() {
    let interval = Interval::new(dec(0, 0), dec(23, 1), "test".to_string());
    assert_eq!(
        interval.to_text(),
        "Interval\n    xmin = 0\n    xmax = 2.3\n    text = \"test\"\n"
    );
}

#[test]
fn interval_tier_set_xmin() {
    let mut tier = IntervalTier::new("test".to_string(), dec(0, 0), dec(23, 1), Vec::new());
    let _ = tier.set_xmin(dec(1, 0), true);
    assert_eq!(tier.xmin(), &dec(1, 0));
}

#[test]
fn interval_tier_set_xmax() {
    let mut tier = IntervalTier::new("test".to_string(), dec(0, 0), dec(23, 1), Vec::new());
    let _ = tier.set_xmax(dec(1, 0), true);
    assert_eq!(tier.xmax(), &dec(1, 0));
}

#[test]
fn interval_get_size() {
    let tier = IntervalTier::new("test".to_string(), dec(0, 0), dec(23, 1), Vec::new());
    assert_eq!(tier.get_size(), 0);
}

#[test]
fn push_interval() {
    let mut tier = IntervalTier::new("test".to_string(), dec(0, 0), dec(23, 1), Vec::new());
    let _ = tier.push_interval(Interval::new(dec(0, 0), dec(1, 0), "test".to_string()), true);
    assert_eq!(tier.intervals().len(), 1);
}

#[test]
fn push_intervals() {
    let mut tier = IntervalTier::new("test".to_string(), dec(0, 0), dec(23, 1), Vec::new());
    let _ = tier.push_intervals(
        vec![
            Interval::new(dec(0, 0), dec(1, 0), "test".to_string()),
            Interval::new(dec(1, 0), dec(2, 0), "test".to_string()),
        ],
        true,
    );
    assert_eq!(tier.intervals().len(), 2);
}

#[test]
fn set_intervals() {
    let mut tier = IntervalTier::new("test".to_string(), dec(0, 0), dec(23, 1), Vec::new());
    let _ = tier.set_intervals(
        vec![
            Interval::new(dec(0, 0), dec(1, 0), "test".to_string()),
            Interval::new(dec(1, 0), dec(2, 0), "test".to_string()),
        ],
        true,
    );
    assert_eq!(tier.intervals().len(), 2);
}

#[test]
fn interval_reorder() {
    let mut tier = IntervalTier::new("test".to_string(), dec(0, 0), dec(23, 1), Vec::new());
    let _ = tier.push_intervals(
        vec![
            Interval::new(dec(1, 0), dec(2, 0), "test".to_string()),
            Interval::new(dec(0, 0), dec(1, 0), "test".to_string()),
        ],
        true,
    );
    tier.reorder();
    assert_eq!(tier.intervals()[0].xmin(), &dec(0, 0));
    assert_eq!(tier.intervals()[1].xmin(), &dec(1, 0));
}

#[test]
fn interval_tier_to_string() {
    let tier = IntervalTier::new("test".to_string(), dec(0, 0), dec(23, 1), Vec::new());
    assert_eq!(
        tier.to_text(),
        "IntervalTier test:\n                xmin:  0\n                xmax:  2.3\n                interval count: 0"
    );
}

#[test]
fn test_point() {
    let point = Point::new(dec(1, 0), "test".to_string());
    assert_eq!(point.number(), &dec(1, 0));
    assert_eq!(point.mark(), "test");
    assert_eq!(point.to_text(), "Point:\t1\ttest\n");
}

#[test]
fn point_set_xmin() {
    let mut tier = PointTier::new("test".to_string(), dec(0, 0), dec(10, 0), vec![]);
    let _ = tier.set_xmin(dec(5, 0), true);
    assert_eq!(tier.xmin(), &dec(5, 0));
}

#[test]
fn point_set_xmax() {
    let mut tier = PointTier::new("test".to_string(), dec(0, 0), dec(10, 0), vec![]);
    let _ = tier.set_xmax(dec(5, 0), true);
    assert_eq!(tier.xmax(), &dec(5, 0));
}

#[test]
fn point_get_size() {
    let tier = PointTier::new("test".to_string(), dec(0, 0), dec(10, 0), vec![]);
    assert_eq!(tier.get_size(), 0);
}

#[test]
fn push_point() {
    let mut tier = PointTier::new("test".to_string(), dec(0, 0), dec(10, 0), vec![]);
    let _ = tier.push_point(Point::new(dec(5, 0), "test".to_string()), true);
    assert_eq!(tier.get_size(), 1);
}

#[test]
fn push_points() {
    let mut tier = PointTier::new("test".to_string(), dec(0, 0), dec(10, 0), vec![]);
    let _ = tier.push_points(vec![Point::new(dec(5, 0), "test".to_string())], true);
    assert_eq!(tier.get_size(), 1);
}

#[test]
fn check_overlaps() {
    let mut tier = PointTier::new("test".to_string(), dec(0, 0), dec(10, 0), vec![]);
    let _ = tier.push_points(
        vec![
            Point::new(dec(5, 0), "test".to_string()),
            Point::new(dec(5, 0), "test".to_string()),
        ],
        true,
    );
    assert_eq!(tier.check_overlaps(), Some(vec![(0, 1), (1, 0)]));
}

#[test]
fn point_reorder() {
    let mut tier = PointTier::new(
        "test".to_string(),
        dec(0, 0),
        dec(10, 0),
        vec![
            Point::new(dec(5, 0), "test".to_string()),
            Point::new(dec(3, 0), "test".to_string()),
        ],
    );
    tier.reorder();
    assert_eq!(tier.points()[0].number(), &dec(3, 0));
    assert_eq!(tier.points()[1].number(), &dec(5, 0));
}

#[test]
fn point_tier_all_distinct_has_no_overlap() {
    let mut tier = PointTier::new("test".to_string(), dec(0, 0), dec(10, 0), vec![]);
    let _ = tier.push_points(
        vec![
            Point::new(dec(1, 0), "a".to_string()),
            Point::new(dec(2, 0), "b".to_string()),
            Point::new(dec(3, 0), "c".to_string()),
        ],
        true,
    );
    assert!(tier.check_overlaps().is_none());
}

#[test]
fn decimal_values_compare_across_scales() {
    // 2.30 and 2.3 denote the same value and normalize to the same form
    assert_eq!(Decimal::from_parts(false, 230, 2), dec(23, 1));
    assert!(dec(23, 1).lt(&dec(24, 1)));
    assert!(dec(5, 1).lt(&dec(1, 0)));
    assert!(Decimal::from_parts(true, 1, 0).lt(&dec(0, 0)));
    assert!(dec(1, 0).le(&dec(10, 1)));
    assert!(dec(10, 1).le(&dec(1, 0)));
}

#[test]
fn decimal_text_round_trip() {
    for (u, sc, text) in [
        (0u64, 0u32, "0"),
        (23, 1, "2.3"),
        (5, 1, "0.5"),
        (1005, 3, "1.005"),
        (10, 0, "10"),
    ] {
        let d = dec(u, sc);
        assert_eq!(d.to_text(), text);
        assert_eq!(Decimal::from_text(text), Some(d));
    }
    assert_eq!(Decimal::from_text("2.30"), Some(dec(23, 1)));
    assert_eq!(Decimal::from_text("007"), Some(dec(7, 0)));
    assert_eq!(Decimal::from_text(""), None);
    assert_eq!(Decimal::from_text("."), None);
    assert_eq!(Decimal::from_text("1.2.3"), None);
    assert_eq!(Decimal::from_text("12a"), None);
}

//! Tests of the document: bounds clamping, tier management, the two
//! renderers, and full round trips through text.

use textgridde::decimal::Decimal;
use textgridde::interval::{Interval, Tier as IntervalTier};
use textgridde::parse_textgrid;
use textgridde::point::{Point, Tier as PointTier};
use textgridde::textgrid::{TextGrid, Tier};

fn dec(units: u64, scale: u32) -> Decimal {
    Decimal::from_parts(false, units, scale)
}

fn neg(units: u64, scale: u32) -> Decimal {
    Decimal::from_parts(true, units, scale)
}

#[test]
fn textgrid_normal() {
    let mut textgrid = TextGrid::new(dec(0, 0), dec(10, 0), Vec::new(), "test".to_string());
    let _ = textgrid.set_xmin(dec(1, 0), false);
    assert_eq!(*textgrid.xmin(), dec(1, 0));
}

#[test]
fn negative_with_warn() {
    let mut textgrid = TextGrid::new(dec(0, 0), dec(10, 0), Vec::new(), "test".to_string());
    let _ = textgrid.set_xmin(neg(1, 0), false);
    assert_eq!(*textgrid.xmin(), dec(0, 0));
}

#[test]
fn more_than_xmax() {
    let mut textgrid = TextGrid::new(dec(5, 0), dec(10, 0), Vec::new(), "test".to_string());
    let _ = textgrid.set_xmin(dec(11, 0), false);
    assert_eq!(*textgrid.xmin(), dec(10, 0));
}

#[test]
fn set_xmax_normal() {
    let mut textgrid = TextGrid::new(dec(0, 0), dec(10, 0), Vec::new(), "test".to_string());
    let _ = textgrid.set_xmax(dec(11, 0), false);
    assert_eq!(*textgrid.xmax(), dec(11, 0));
}

#[test]
fn negative() {
    let mut textgrid = TextGrid::new(dec(0, 0), dec(10, 0), Vec::new(), "test".to_string());
    let _ = textgrid.set_xmax(neg(1, 0), false);
    assert_eq!(*textgrid.xmax(), dec(0, 0));
}

#[test]
fn less_than_xmin() {
    let mut textgrid = TextGrid::new(dec(5, 0), dec(10, 0), Vec::new(), "test".to_string());
    let _ = textgrid.set_xmax(dec(1, 0), false);
    assert_eq!(*textgrid.xmax(), dec(5, 0));
}

#[test]
fn push_tier() {
    let mut textgrid = TextGrid::new(dec(0, 0), dec(10, 0), Vec::new(), "test".to_string());
    let interval_tier = IntervalTier::new("test".to_string(), dec(0, 0), dec(10, 0), vec![]);
    let point_tier = PointTier::new("test".to_string(), dec(0, 0), dec(10, 0), vec![]);
    let _ = textgrid.push_tier(Tier::IntervalTier(interval_tier), false);
    let _ = textgrid.push_tier(Tier::PointTier(point_tier), false);
    assert_eq!(textgrid.get_size(), 2);
}

#[test]
fn push_tier_renames_duplicates() {
    let mut textgrid = TextGrid::new(dec(0, 0), dec(10, 0), Vec::new(), "test".to_string());
    for _ in 0..3 {
        let t = IntervalTier::new("voice".to_string(), dec(0, 0), dec(10, 0), vec![]);
        let _ = textgrid.push_tier(Tier::IntervalTier(t), false);
    }
    assert_eq!(textgrid.tiers()[0].name(), "voice");
    assert_eq!(textgrid.tiers()[1].name(), "voice1");
    assert_eq!(textgrid.tiers()[2].name(), "voice2");
}

#[test]
fn get_interval_tier() {
    let interval_tier = IntervalTier::new("test".to_string(), dec(0, 0), dec(10, 0), vec![]);
    let tier = Tier::IntervalTier(interval_tier);
    assert!(tier.get_interval_tier().is_some());
}

#[test]
fn get_point_tier() {
    let point_tier = PointTier::new("test".to_string(), dec(0, 0), dec(10, 0), vec![]);
    let tier = Tier::PointTier(point_tier);
    assert!(tier.get_point_tier().is_some());
}

#[test]
fn default() {
    let tier = Tier::default();
    assert!(matches!(tier, Tier::IntervalTier(_)));
}

#[test]
fn textgrid_to_string() {
    let interval_tier = IntervalTier::new("test".to_string(), dec(0, 0), dec(10, 0), vec![]);
    let point_tier = PointTier::new("test".to_string(), dec(0, 0), dec(10, 0), vec![]);
    assert_eq!(
        interval_tier.to_text(),
        "IntervalTier test:\n                xmin:  0\n                xmax:  10\n                interval count: 0"
    );
    assert_eq!(
        point_tier.to_text(),
        "PointTier test:\n                xmin:  0\n                xmax:  10\n                point count: 0"
    );
}

#[test]
fn get_tier_and_delete_tier() {
    let mut textgrid = TextGrid::new(dec(0, 0), dec(10, 0), Vec::new(), "test".to_string());
    let _ = textgrid.push_tier(
        Tier::IntervalTier(IntervalTier::new("a".to_string(), dec(0, 0), dec(10, 0), vec![])),
        false,
    );
    let _ = textgrid.push_tier(
        Tier::PointTier(PointTier::new("b".to_string(), dec(0, 0), dec(10, 0), vec![])),
        false,
    );
    assert!(textgrid.get_tier("a").is_some());
    assert!(textgrid.get_tier("missing").is_none());
    let none = textgrid.delete_tier("a", false);
    assert!(none.is_empty());
    assert_eq!(textgrid.get_size(), 1);
    assert!(textgrid.get_tier("a").is_none());
    let warned = textgrid.delete_tier("a", true);
    assert_eq!(warned.len(), 1);
}

fn example_document() -> TextGrid {
    let mut textgrid = TextGrid::new(dec(0, 0), dec(23, 1), Vec::new(), "test".to_string());
    let _ = textgrid.push_tier(
        Tier::IntervalTier(IntervalTier::new(
            "John".to_string(),
            dec(0, 0),
            dec(23, 1),
            vec![Interval::new(dec(0, 0), dec(23, 1), "daisy bell".to_string())],
        )),
        false,
    );
    let _ = textgrid.push_tier(
        Tier::IntervalTier(IntervalTier::new(
            "Kelly".to_string(),
            dec(0, 0),
            dec(23, 1),
            vec![Interval::new(dec(0, 0), dec(23, 1), String::new())],
        )),
        false,
    );
    let _ = textgrid.push_tier(
        Tier::PointTier(PointTier::new(
            "Bell".to_string(),
            dec(0, 0),
            dec(23, 1),
            vec![Point::new(dec(1, 0), "give me your answer do".to_string())],
        )),
        false,
    );
    textgrid
}

#[test]
fn format_as_long() {
    let textgrid = example_document();
    let expected: Vec<&str> = vec![
        "File type = \"ooTextFile\"",
        "Object class = \"TextGrid\"",
        "",
        "xmin = 0",
        "xmax = 2.3",
        "tiers? <exists>",
        "size = 3",
        "item []:",
        "\titem [1]:",
        "\t\tclass = \"IntervalTier\"",
        "\t\tname = \"John\"",
        "\t\txmin = 0",
        "\t\txmax = 2.3",
        "\t\tintervals: size = 1",
        "\t\tintervals [1]:",
        "\t\t\txmin = 0",
        "\t\t\txmax = 2.3",
        "\t\t\ttext = \"daisy bell\"",
        "\titem [2]:",
        "\t\tclass = \"IntervalTier\"",
        "\t\tname = \"Kelly\"",
        "\t\txmin = 0",
        "\t\txmax = 2.3",
        "\t\tintervals: size = 1",
        "\t\tintervals [1]:",
        "\t\t\txmin = 0",
        "\t\t\txmax = 2.3",
        "\t\t\ttext = \"\"",
        "\titem [3]:",
        "\t\tclass = \"TextTier\"",
        "\t\tname = \"Bell\"",
        "\t\txmin = 0",
        "\t\txmax = 2.3",
        "\t\tpoints: size = 1",
        "\t\tpoints [1]:",
        "\t\t\tnumber = 1",
        "\t\t\tmark = \"give me your answer do\"",
    ];
    assert_eq!(textgrid.format_as_long(), expected);
}

#[test]
fn format_as_short() {
    let textgrid = example_document();
    let expected: Vec<&str> = vec![
        "\"ooTextFile\"",
        "\"TextGrid\"",
        "",
        "0",
        "2.3",
        "<exists>",
        "3",
        "\"IntervalTier\"",
        "\"John\"",
        "0",
        "2.3",
        "1",
        "0",
        "2.3",
        "\"daisy bell\"",
        "\"IntervalTier\"",
        "\"Kelly\"",
        "0",
        "2.3",
        "1",
        "0",
        "2.3",
        "\"\"",
        "\"TextTier\"",
        "\"Bell\"",
        "0",
        "2.3",
        "1",
        "1",
        "\"give me your answer do\"",
    ];
    assert_eq!(textgrid.format_as_short(), expected);
}

fn assert_documents_equal(a: &TextGrid, b: &TextGrid) {
    assert_eq!(a.xmin(), b.xmin());
    assert_eq!(a.xmax(), b.xmax());
    assert_eq!(a.get_size(), b.get_size());
    for (ta, tb) in a.tiers().iter().zip(b.tiers().iter()) {
        match (ta, tb) {
            (Tier::IntervalTier(x), Tier::IntervalTier(y)) => {
                assert_eq!(x.name(), y.name());
                assert_eq!(x.xmin(), y.xmin());
                assert_eq!(x.xmax(), y.xmax());
                assert_eq!(x.get_size(), y.get_size());
                for (ia, ib) in x.intervals().iter().zip(y.intervals().iter()) {
                    assert_eq!(ia.xmin(), ib.xmin());
                    assert_eq!(ia.xmax(), ib.xmax());
                    assert_eq!(ia.text(), ib.text());
                }
            }
            (Tier::PointTier(x), Tier::PointTier(y)) => {
                assert_eq!(x.name(), y.name());
                assert_eq!(x.xmin(), y.xmin());
                assert_eq!(x.xmax(), y.xmax());
                assert_eq!(x.get_size(), y.get_size());
                for (pa, pb) in x.points().iter().zip(y.points().iter()) {
                    assert_eq!(pa.number(), pb.number());
                    assert_eq!(pa.mark(), pb.mark());
                }
            }
            _ => panic!("tier kinds differ"),
        }
    }
}

#[test]
fn round_trip_verbose() {
    // a document built in memory survives render-then-parse in the verbose
    // layout
    let built = example_document();
    let lines = built.format_as_long();
    let (reparsed, _) = parse_textgrid(&lines, "test".to_string(), false).unwrap();
    assert_documents_equal(&built, &reparsed);
    // decoding then re-rendering reproduces the text byte for byte, and
    // the tier at index 1 reports its name
    assert_eq!(reparsed.format_as_long(), lines);
    match &reparsed.tiers()[1] {
        Tier::IntervalTier(t) => assert_eq!(t.name(), "Kelly"),
        Tier::PointTier(_) => panic!("Expected IntervalTier, got PointTier"),
    }
}

#[test]
fn round_trip_compact() {
    // the same document survives render-then-parse in the compact layout
    let built = example_document();
    let lines = built.format_as_short();
    let (reparsed, _) = parse_textgrid(&lines, "test".to_string(), false).unwrap();
    assert_documents_equal(&built, &reparsed);
    assert_eq!(reparsed.format_as_short(), lines);
}

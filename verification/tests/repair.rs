//! Tests of the integrity algorithms: overlap detection, boundary repair
//! and gap filling.

use textgridde::decimal::Decimal;
use textgridde::interval::{Interval, Tier as IntervalTier};
use textgridde::textgrid::{TextGrid, Tier};

fn dec(units: u64, scale: u32) -> Decimal {
    Decimal::from_parts(false, units, scale)
}

#[test]
fn no_overlap() {
    let mut textgrid = TextGrid::new(dec(0, 0), dec(23, 1), Vec::new(), "test".to_string());
    let _ = textgrid.push_tier(
        Tier::IntervalTier(IntervalTier::new(
            "John".to_string(),
            dec(0, 0),
            dec(23, 1),
            vec![
                Interval::new(dec(0, 0), dec(15, 1), "daisy bell".to_string()),
                Interval::new(dec(15, 1), dec(23, 1), "daisy bell".to_string()),
            ],
        )),
        false,
    );
    let overlaps = textgrid.check_overlaps();
    assert!(overlaps.is_none());
}

#[test]
fn overlap() {
    let mut textgrid = TextGrid::new(dec(0, 0), dec(23, 1), Vec::new(), "test".to_string());
    let _ = textgrid.push_tier(
        Tier::IntervalTier(IntervalTier::new(
            "John".to_string(),
            dec(0, 0),
            dec(23, 1),
            vec![
                Interval::new(dec(0, 0), dec(15, 1), "daisy bell".to_string()),
                Interval::new(dec(1, 0), dec(23, 1), "daisy bell".to_string()),
            ],
        )),
        false,
    );
    let overlaps = textgrid.check_overlaps().unwrap();
    assert_eq!(overlaps.len(), 1);
    assert_eq!(overlaps[0].0, "John");
    assert_eq!(overlaps[0].1, (0, 1));
}

#[test]
fn prefer_first() {
    let mut tier = IntervalTier::new("test".to_string(), dec(0, 0), dec(23, 1), Vec::new());
    let _ = tier.push_intervals(
        vec![
            Interval::new(dec(0, 0), dec(12, 1), "daisy".to_string()),
            Interval::new(dec(1, 0), dec(175, 2), "bell".to_string()),
            Interval::new(dec(15, 1), dec(25, 1), "answer".to_string()),
            Interval::new(dec(2, 0), dec(5, 0), "do".to_string()),
        ],
        false,
    );
    tier.fix_boundaries(true);
    assert_eq!(tier.intervals()[0].xmin(), &dec(0, 0));
    assert_eq!(tier.intervals()[0].xmax(), &dec(12, 1));
    assert_eq!(tier.intervals()[1].xmin(), &dec(12, 1));
    assert_eq!(tier.intervals()[1].xmax(), &dec(175, 2));
    assert_eq!(tier.intervals()[2].xmin(), &dec(175, 2));
    assert_eq!(tier.intervals()[2].xmax(), &dec(25, 1));
    assert_eq!(tier.intervals()[3].xmin(), &dec(25, 1));
    assert_eq!(tier.intervals()[3].xmax(), &dec(5, 0));
}

#[test]
fn prefer_last() {
    let mut tier = IntervalTier::new("test".to_string(), dec(0, 0), dec(23, 1), Vec::new());
    let _ = tier.push_intervals(
        vec![
            Interval::new(dec(0, 0), dec(12, 1), "daisy".to_string()),
            Interval::new(dec(1, 0), dec(175, 2), "bell".to_string()),
            Interval::new(dec(15, 1), dec(25, 1), "answer".to_string()),
            Interval::new(dec(2, 0), dec(5, 0), "do".to_string()),
        ],
        false,
    );
    tier.fix_boundaries(false);
    assert_eq!(tier.intervals()[0].xmin(), &dec(0, 0));
    assert_eq!(tier.intervals()[0].xmax(), &dec(1, 0));
    assert_eq!(tier.intervals()[1].xmin(), &dec(1, 0));
    assert_eq!(tier.intervals()[1].xmax(), &dec(15, 1));
    assert_eq!(tier.intervals()[2].xmin(), &dec(15, 1));
    assert_eq!(tier.intervals()[2].xmax(), &dec(2, 0));
    assert_eq!(tier.intervals()[3].xmin(), &dec(2, 0));
    assert_eq!(tier.intervals()[3].xmax(), &dec(5, 0));
}

#[test]
fn fill_gaps() {
    let mut tier = IntervalTier::new("test".to_string(), dec(0, 0), dec(23, 1), Vec::new());
    let _ = tier.push_intervals(
        vec![
            Interval::new(dec(0, 0), dec(12, 1), "daisy".to_string()),
            Interval::new(dec(15, 1), dec(23, 1), "bell".to_string()),
        ],
        false,
    );
    tier.fill_gaps("gap");
    assert_eq!(tier.intervals()[1].text(), "gap");
    assert_eq!(tier.intervals()[1].xmin(), &dec(12, 1));
    assert_eq!(tier.intervals()[1].xmax(), &dec(15, 1));
}

#[test]
fn boundary_repair_twice_matches_once() {
    // idempotence of boundary repair, on a tier whose sorted ends are
    // non-decreasing
    let build = || {
        let mut tier = IntervalTier::new("test".to_string(), dec(0, 0), dec(5, 0), Vec::new());
        let _ = tier.push_intervals(
            vec![
                Interval::new(dec(0, 0), dec(12, 1), "daisy".to_string()),
                Interval::new(dec(1, 0), dec(175, 2), "bell".to_string()),
                Interval::new(dec(15, 1), dec(25, 1), "answer".to_string()),
                Interval::new(dec(2, 0), dec(5, 0), "do".to_string()),
            ],
            false,
        );
        tier
    };
    for prefer_first in [true, false] {
        let mut once = build();
        once.fix_boundaries(prefer_first);
        let mut twice = build();
        twice.fix_boundaries(prefer_first);
        twice.fix_boundaries(prefer_first);
        assert_eq!(once.intervals().len(), twice.intervals().len());
        for i in 0..once.intervals().len() {
            assert_eq!(once.intervals()[i].xmin(), twice.intervals()[i].xmin());
            assert_eq!(once.intervals()[i].xmax(), twice.intervals()[i].xmax());
            assert_eq!(once.intervals()[i].text(), twice.intervals()[i].text());
        }
    }
}

#[test]
fn fill_gaps_tiles_whole_range() {
    // after gap filling, adjacent boundaries meet and the tier's declared
    // range is covered end to end
    let mut tier = IntervalTier::new("test".to_string(), dec(0, 0), dec(10, 0), Vec::new());
    let _ = tier.push_intervals(
        vec![
            Interval::new(dec(1, 0), dec(2, 0), "a".to_string()),
            Interval::new(dec(4, 0), dec(6, 0), "b".to_string()),
        ],
        false,
    );
    tier.fill_gaps("gap");
    let iv = tier.intervals();
    assert_eq!(iv.len(), 5);
    assert_eq!(iv[0].xmin(), &dec(0, 0));
    for i in 0..iv.len() - 1 {
        assert_eq!(iv[i].xmax(), iv[i + 1].xmin());
    }
    assert_eq!(iv[iv.len() - 1].xmax(), &dec(10, 0));
}

#[test]
fn fill_gaps_single_interval_closes_both_ends() {
    let mut tier = IntervalTier::new("test".to_string(), dec(0, 0), dec(3, 0), Vec::new());
    let _ = tier.push_interval(Interval::new(dec(1, 0), dec(2, 0), "mid".to_string()), false);
    tier.fill_gaps("gap");
    let iv = tier.intervals();
    assert_eq!(iv.len(), 3);
    assert_eq!(iv[0].xmin(), &dec(0, 0));
    assert_eq!(iv[0].text(), "gap");
    assert_eq!(iv[2].xmax(), &dec(3, 0));
    assert_eq!(iv[2].text(), "gap");
}

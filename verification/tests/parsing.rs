//! Tests of the tokenizer and the sentinel-driven decoder.

use textgridde::decimal::Decimal;
use textgridde::textgrid::Tier;
use textgridde::{
    parse_interval, parse_point, parse_tiers, parse_textgrid, split_line, ParseError, TokenQueue,
};

const TEXTGRID: &str = "File type = \"ooTextFile\"\nObject class = \"TextGrid\"\n\nxmin = 0\nxmax = 2.3\ntiers? <exists>\nsize = 3\nitem []:\n\titem [1]:\n\t\tclass = \"IntervalTier\"\n\t\tname = \"John\"\n\t\txmin = 0\n\t\txmax = 2.3\n\t\tintervals: size = 1\n\t\tintervals [1]:\n\t\t\txmin = 0\n\t\t\txmax = 2.3\n\t\t\ttext = \"daisy bell\"\n\titem [2]:\n\t\tclass = \"IntervalTier\"\n\t\tname = \"Kelly\"\n\t\txmin = 0\n\t\txmax = 2.3\n\t\tintervals: size = 1\n\t\tintervals [1]:\n\t\t\txmin = 0\n\t\t\txmax = 2.3\n\t\t\ttext = \"\"\n\titem [3]:\n\t\tclass = \"TextTier\"\n\t\tname = \"Bell\"\n\t\txmin = 0\n\t\txmax = 2.3\n\t\tpoints: size = 1\n\t\t\tnumber = 1\n\t\t\tmark = \"give me your answer do\"\"\n";

fn dec(units: u64, scale: u32) -> Decimal {
    Decimal::from_parts(false, units, scale)
}

fn lines_of(text: &str) -> Vec<String> {
    text.split('\n').map(|l| l.to_string()).collect()
}

#[test]
fn parse_textgrid_from_string() {
    let lines = lines_of(TEXTGRID);
    let (parsed, _) = parse_textgrid(&lines, "New TextGrid".to_string(), false).unwrap();

    let tier = match &parsed.tiers()[1] {
        Tier::IntervalTier(tier) => tier,
        Tier::PointTier(_) => panic!("Expected IntervalTier, got PointTier"),
    };
    assert_eq!(tier.name(), "Kelly");
}

#[test]
fn parse_textgrid_from_vector() {
    let textgrid_vector: Vec<String> = TEXTGRID.split('\n').map(|s| s.to_string()).collect();
    let (parsed, _) = parse_textgrid(&textgrid_vector, "New TextGrid".to_string(), false).unwrap();

    let tier = match &parsed.tiers()[1] {
        Tier::IntervalTier(tier) => tier,
        Tier::PointTier(_) => panic!("Expected IntervalTier, got PointTier"),
    };
    assert_eq!(tier.name(), "Kelly");
}

#[test]
fn parse_textgrid_from_invalid_string() {
    let lines = lines_of("invalid");
    let parsed = parse_textgrid(&lines, "New TextGrid".to_string(), false);
    assert!(parsed.is_err());
}

#[test]
fn verify_start_of_textgrid() {
    let mut textgrid_data = TokenQueue::new(vec![
        "ooTextFile".to_string(),
        "TextGrid".to_string(),
    ]);
    let verified = textgridde::verify_start_of_textgrid(&mut textgrid_data);
    assert!(verified.is_ok());
}

#[test]
fn parse_tiers_by_sentinel() {
    let tokens: Vec<String> = [
        "3", "IntervalTier", "John", "0", "2.3", "1", "0", "2.3", "daisy bell", "IntervalTier",
        "Kelly", "0", "2.3", "1", "0", "2.3", "", "TextTier", "Bell", "0", "2.3", "1", "1",
        "give me your answer do\"",
    ]
    .iter()
    .map(|s| s.to_string())
    .collect();
    let mut tier_data = TokenQueue::new(tokens);
    let (parsed_tiers, _) = parse_tiers(&mut tier_data, dec(0, 0), dec(23, 1), false).unwrap();
    assert_eq!(parsed_tiers.len(), 3);
    let tier = match &parsed_tiers[1] {
        Tier::IntervalTier(tier) => tier,
        Tier::PointTier(_) => panic!("Expected IntervalTier, got PointTier"),
    };
    assert_eq!(tier.name(), "Kelly");
}

#[test]
fn parse_interval_from_tokens() {
    let mut interval_data = TokenQueue::new(vec![
        "0".to_string(),
        "2.3".to_string(),
        "daisy bell".to_string(),
    ]);
    let parsed_interval = parse_interval(&mut interval_data).unwrap();
    assert_eq!(parsed_interval.text(), "daisy bell");
}

#[test]
fn parse_point_from_tokens() {
    let mut point_data = TokenQueue::new(vec![
        "1".to_string(),
        "give me your answer do\"".to_string(),
    ]);
    let parsed_point = parse_point(&mut point_data).unwrap();
    assert_eq!(parsed_point.mark(), "give me your answer do\"");
}

#[test]
fn pull_next_number() {
    let mut textgrid_data = TokenQueue::new(vec!["xmin = 0".to_string()]);
    let expected = dec(0, 0);
    assert_eq!(textgridde::pull_next_number(&mut textgrid_data).unwrap(), expected);
}

#[test]
fn token_queue_pops_in_order() {
    let mut q = TokenQueue::new(vec!["a".to_string(), "b".to_string()]);
    assert_eq!(q.len(), 2);
    assert!(!q.is_empty());
    assert_eq!(q.pop_front().as_deref(), Some("a"));
    assert_eq!(q.pop_front().as_deref(), Some("b"));
    assert_eq!(q.pop_front(), None);
    assert!(q.is_empty());
}

#[test]
fn split_line_with_regex() {
    let line = "one two \"three four\" five";
    let expected = vec!["one", "two", "\"three four\"", "five"];
    assert_eq!(split_line(line), expected);
}

#[test]
fn process_lines() {
    let lines = vec![
        "one two \"three four\" five".to_string(),
        "1 2 3.4 5".to_string(),
    ];
    let expected = vec!["three four", "1", "2", "3.4", "5"];
    assert_eq!(textgridde::process_lines(&lines), expected);
}

#[test]
fn wrong_declared_counts_still_decode() {
    // declared sizes that are far too high or zero never stop the decoder:
    // children are read up to the next tier-kind sentinel
    let tokens: Vec<String> = [
        "99", "IntervalTier", "John", "0", "3", "0", "0", "1", "a", "1", "2", "b", "2", "3", "c",
        "TextTier", "Bell", "0", "3", "7", "1", "m",
    ]
    .iter()
    .map(|s| s.to_string())
    .collect();
    let mut q = TokenQueue::new(tokens);
    let (tiers, warnings) = parse_tiers(&mut q, dec(0, 0), dec(3, 0), true).unwrap();
    assert_eq!(tiers.len(), 2);
    match &tiers[0] {
        Tier::IntervalTier(t) => assert_eq!(t.get_size(), 3),
        Tier::PointTier(_) => panic!("expected an interval tier"),
    }
    match &tiers[1] {
        Tier::PointTier(t) => assert_eq!(t.get_size(), 1),
        Tier::IntervalTier(_) => panic!("expected a point tier"),
    }
    // the mismatches are advisory only
    assert!(!warnings.is_empty());
}

#[test]
fn error_variants() {
    // wrong file type
    let lines = lines_of("File type = \"nonsense\"\nObject class = \"TextGrid\"");
    match parse_textgrid(&lines, "n".to_string(), false) {
        Err(ParseError::WrongFileType { found }) => assert_eq!(found, "nonsense"),
        other => panic!("unexpected outcome: {:?}", other.map(|_| ())),
    }

    // wrong object class
    let lines = lines_of("File type = \"ooTextFile\"\nObject class = \"nonsense\"");
    match parse_textgrid(&lines, "n".to_string(), false) {
        Err(ParseError::WrongObjectClass { found }) => assert_eq!(found, "nonsense"),
        other => panic!("unexpected outcome: {:?}", other.map(|_| ())),
    }

    // missing document bound
    let lines = lines_of("File type = \"ooTextFile\"\nObject class = \"TextGrid\"");
    assert!(matches!(
        parse_textgrid(&lines, "n".to_string(), false),
        Err(ParseError::MissingDocumentXmin)
    ));

    // a number too large to hold exactly
    let mut q = TokenQueue::new(vec!["99999999999999999999999999".to_string()]);
    assert!(matches!(
        textgridde::pull_next_number(&mut q),
        Err(ParseError::MalformedNumber { .. })
    ));

    // queue exhausted while a number was expected
    let mut q = TokenQueue::new(vec!["no digits here".to_string()]);
    assert!(matches!(
        textgridde::pull_next_number(&mut q),
        Err(ParseError::MissingNumber)
    ));

    // unrecognized tier type
    let mut q = TokenQueue::new(vec!["1".to_string(), "BogusTier".to_string()]);
    match parse_tiers(&mut q, dec(0, 0), dec(1, 0), false) {
        Err(ParseError::UnknownTierType { found }) => assert_eq!(found, "BogusTier"),
        other => panic!("unexpected outcome: {:?}", other.map(|_| ())),
    }
}

#[test]
fn comment_stripping_and_blank_lines() {
    // a `!` after an odd number of quotes begins a comment; the line is
    // truncated right before it
    let lines = vec![
        "  ".to_string(),
        "xmin = 1 \"a ! comment".to_string(),
        "plain ! kept 7".to_string(),
    ];
    let normalized = textgridde::normalize_lines(&lines);
    assert_eq!(normalized, vec!["xmin = 1 \"a ", "plain ! kept 7"]);
    let tokens = textgridde::process_lines(&normalized);
    assert_eq!(tokens, vec!["1", "7"]);
}

//! Tests of identifier parsing and of submitted item lists.

use poll::parse::parse_item_id;
use poll::route::ranked_item_ids;
use poll::route::BallotUpdateData;

fn parse(s: &str) -> Option<i64> {
    parse_item_id(&s.to_string())
}

#[test]
fn parse_plain_number() {
    assert_eq!(parse("123"), Some(123));
    assert_eq!(parse("0"), Some(0));
    assert_eq!(parse("007"), Some(7));
}

#[test]
fn parse_signed_numbers() {
    assert_eq!(parse("-45"), Some(-45));
    assert_eq!(parse("+7"), Some(7));
    assert_eq!(parse("-0"), Some(0));
}

#[test]
fn parse_rejects_non_numbers() {
    assert_eq!(parse(""), None);
    assert_eq!(parse("-"), None);
    assert_eq!(parse("+"), None);
    assert_eq!(parse("abc"), None);
    assert_eq!(parse("12a"), None);
    assert_eq!(parse(" 12"), None);
    assert_eq!(parse("1 2"), None);
    assert_eq!(parse("--4"), None);
}

#[test]
fn parse_at_the_limits() {
    assert_eq!(parse("9223372036854775807"), Some(i64::MAX));
    assert_eq!(parse("9223372036854775808"), None);
    assert_eq!(parse("-9223372036854775808"), Some(i64::MIN));
    assert_eq!(parse("-9223372036854775809"), None);
    assert_eq!(parse("99999999999999999999999999"), None);
}

fn entries(items: &[&str]) -> Vec<String> {
    items.iter().map(|s| s.to_string()).collect()
}

#[test]
fn ranked_ids_stop_at_delimiter() {
    let items = entries(&["3", "1", "2", "<DELIMITER>", "9"]);
    assert_eq!(ranked_item_ids(&items), vec![3, 1, 2]);
}

#[test]
fn ranked_ids_stop_at_first_non_number() {
    let items = entries(&["3", "x", "2"]);
    assert_eq!(ranked_item_ids(&items), vec![3]);
}

#[test]
fn ranked_ids_of_nothing() {
    assert_eq!(ranked_item_ids(&Vec::new()), Vec::<i64>::new());
    let only_delimiter = entries(&["<DELIMITER>"]);
    assert_eq!(ranked_item_ids(&only_delimiter), Vec::<i64>::new());
}

#[test]
fn ranked_ids_of_update_data() {
    let data = BallotUpdateData {
        items: entries(&["10", "20", "<DELIMITER>"]),
    };
    assert_eq!(data.ranked_item_ids(), vec![10, 20]);
}

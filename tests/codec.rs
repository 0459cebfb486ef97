use chrono::{Datelike, Timelike};
use jrn::{decode_file_name, encode_file_name, TimeStamp};

fn strings(v: &[&str]) -> Vec<String> {
    v.iter().map(|s| s.to_string()).collect()
}

fn stamp() -> TimeStamp {
    TimeStamp::from_ymdhm(2024, 3, 5, 9, 30)
}

#[test]
fn time_can_write_timestamp() {
    let t = chrono::Local::now().naive_local();
    let now = TimeStamp::checked(t.year(), t.month(), t.day(), t.hour(), t.minute()).unwrap();
    let text = now.to_string();
    assert_eq!(text.chars().count(), 15);
    let back = TimeStamp::parse_prefix(&text).unwrap();
    assert_eq!(back, now);
}

#[test]
fn timestamp_text_is_zero_padded() {
    assert_eq!(stamp().to_string(), "2024-03-05_0930");
    assert_eq!(TimeStamp::from_ymdhm(7, 1, 2, 0, 5).to_string(), "0007-01-02_0005");
}

#[test]
fn checked_rejects_missing_days() {
    assert!(TimeStamp::checked(2024, 2, 29, 12, 0).is_some());
    assert!(TimeStamp::checked(2023, 2, 29, 12, 0).is_none());
    assert!(TimeStamp::checked(1900, 2, 29, 12, 0).is_none());
    assert!(TimeStamp::checked(2000, 2, 29, 12, 0).is_some());
    assert!(TimeStamp::checked(2024, 4, 31, 12, 0).is_none());
    assert!(TimeStamp::checked(2024, 13, 1, 12, 0).is_none());
    assert!(TimeStamp::checked(2024, 1, 1, 24, 0).is_none());
    assert!(TimeStamp::checked(2024, 1, 1, 23, 60).is_none());
    assert!(TimeStamp::checked(10000, 1, 1, 0, 0).is_none());
}

#[test]
fn encode_with_tags() {
    let name = encode_file_name(&stamp(), &strings(&["foo", "bar"]), '-', '_');
    assert_eq!(name, "2024-03-05_0930-foo_bar");
}

#[test]
fn encode_without_tags_has_no_suffix() {
    let name = encode_file_name(&stamp(), &Vec::new(), '-', '_');
    assert_eq!(name, "2024-03-05_0930");
}

#[test]
fn encode_single_tag_has_no_trailing_delimiter() {
    let name = encode_file_name(&stamp(), &strings(&["solo"]), '+', ',');
    assert_eq!(name, "2024-03-05_0930+solo");
}

#[test]
fn round_trip_several_tags() {
    let tags = strings(&["work", "idea", "x"]);
    let name = encode_file_name(&stamp(), &tags, '-', '_');
    let (t, back) = decode_file_name(&name, '-', '_').unwrap();
    assert_eq!(t, stamp());
    assert_eq!(back, tags);
}

#[test]
fn round_trip_no_tags() {
    let name = encode_file_name(&stamp(), &Vec::new(), '-', '_');
    let (t, back) = decode_file_name(&name, '-', '_').unwrap();
    assert_eq!(t, stamp());
    assert!(back.is_empty());
}

#[test]
fn round_trip_tag_starting_with_tag_start() {
    let tags = strings(&["-x"]);
    let name = encode_file_name(&stamp(), &tags, '-', '_');
    assert_eq!(name, "2024-03-05_0930--x");
    let (_, back) = decode_file_name(&name, '-', '_').unwrap();
    assert_eq!(back, tags);
}

#[test]
fn decode_keeps_the_extension_in_the_last_tag() {
    let (t, tags) = decode_file_name("2024-03-05_0930-foo.txt", '-', '_').unwrap();
    assert_eq!(t, stamp());
    assert_eq!(tags, vec!("foo.txt"));
}

#[test]
fn decode_drops_empty_pieces() {
    let (_, tags) = decode_file_name("2024-03-05_0930-_a__b_", '-', '_').unwrap();
    assert_eq!(tags, vec!("a", "b"));
}

#[test]
fn decode_without_tag_start() {
    let (_, tags) = decode_file_name("2024-03-05_0930a_b", '-', '_').unwrap();
    assert_eq!(tags, vec!("a", "b"));
}

#[test]
fn decode_rejects_other_names() {
    assert!(decode_file_name("notes.md", '-', '_').is_none());
    assert!(decode_file_name("2024-03-05", '-', '_').is_none());
    assert!(decode_file_name("2024-03-05-0930", '-', '_').is_none());
    assert!(decode_file_name("2024-3-05_09300", '-', '_').is_none());
    assert!(decode_file_name("x2024-03-05_0930", '-', '_').is_none());
    assert!(decode_file_name("2024-13-05_0930", '-', '_').is_none());
    assert!(decode_file_name("2023-02-29_0930", '-', '_').is_none());
    assert!(decode_file_name("2024-03-05_2460", '-', '_').is_none());
    assert!(decode_file_name("2024-03-05_09a0", '-', '_').is_none());
}

use emlparser::header::{extract_sender, is_sender, Header};

fn field(name: &str, value: &str) -> Header {
    Header { name: name.to_string(), value: value.to_string() }
}

fn fields(pairs: &[(&str, &str)]) -> Vec<Header> {
    pairs.iter().map(|(name, value)| field(name, value)).collect()
}

#[test]
fn the_four_sender_names_qualify() {
    assert!(is_sender(&field("From", "a@x.com")));
    assert!(is_sender(&field("Sender", "a@x.com")));
    assert!(is_sender(&field("Return-Path", "a@x.com")));
    assert!(is_sender(&field("Reply-To", "a@x.com")));
}

#[test]
fn near_matches_do_not_qualify() {
    assert!(!is_sender(&field("from", "a@x.com")));
    assert!(!is_sender(&field("X-From", "a@x.com")));
    assert!(!is_sender(&field("", "a@x.com")));
}

#[test]
fn the_match_is_case_sensitive() {
    assert!(!is_sender(&field("FROM", "v")));
    assert!(!is_sender(&field("sender", "v")));
    assert!(!is_sender(&field("Return-path", "v")));
    assert!(!is_sender(&field("Reply-to", "v")));
    assert!(!is_sender(&field("reply-to", "v")));
}

#[test]
fn the_match_does_not_trim_or_take_parts() {
    assert!(!is_sender(&field(" From", "v")));
    assert!(!is_sender(&field("From ", "v")));
    assert!(!is_sender(&field("From:", "v")));
    assert!(!is_sender(&field("Fro", "v")));
    assert!(!is_sender(&field("FromX", "v")));
    assert!(!is_sender(&field("Resent-From", "v")));
    assert!(!is_sender(&field("Return-Path2", "v")));
    assert!(!is_sender(&field("ReplyTo", "v")));
}

#[test]
fn the_value_plays_no_part_in_the_classification() {
    assert!(is_sender(&field("From", "")));
    assert!(!is_sender(&field("Subject", "From")));
}

#[test]
fn extracts_the_value_of_the_only_sender_field() {
    let headers = fields(&[("Subject", "hi"), ("From", "a@x.com")]);
    assert_eq!(extract_sender(&headers), Some("a@x.com".to_string()));
}

#[test]
fn the_earliest_sender_field_wins() {
    let headers = fields(&[("Return-Path", "<a@x.com>"), ("From", "a@x.com")]);
    assert_eq!(extract_sender(&headers), Some("<a@x.com>".to_string()));
}

#[test]
fn the_order_of_the_message_decides_not_the_order_of_the_names() {
    let headers = fields(&[("To", "t"), ("Reply-To", "r"), ("Sender", "s"), ("From", "f")]);
    assert_eq!(extract_sender(&headers), Some("r".to_string()));
}

#[test]
fn the_first_of_two_equal_names_wins() {
    let headers = fields(&[("From", "first"), ("From", "second")]);
    assert_eq!(extract_sender(&headers), Some("first".to_string()));
}

#[test]
fn no_headers_give_no_sender() {
    assert_eq!(extract_sender(&Vec::new()), None);
}

#[test]
fn headers_without_a_sender_field_give_no_sender() {
    let headers = fields(&[("Subject", "hi"), ("To", "b@x.com"), ("from", "a@x.com")]);
    assert_eq!(extract_sender(&headers), None);
}

#[test]
fn the_value_is_returned_as_it_stands() {
    let headers = fields(&[("From", "  Ann <a@x.com> ")]);
    assert_eq!(extract_sender(&headers), Some("  Ann <a@x.com> ".to_string()));
    let empty = fields(&[("Sender", ""), ("From", "a@x.com")]);
    assert_eq!(extract_sender(&empty), Some(String::new()));
}

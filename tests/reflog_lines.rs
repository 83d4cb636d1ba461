use gittools::{parse_reflog_line, ObjectId, ReflogError};

fn ids() -> String {
    format!("{} {}", "0".repeat(40), "b".repeat(40))
}

#[test]
fn scenario_a_created_branch() {
    let line = format!("{} Alice <a@x.com> 1700000000 +0200\tbranch: Created from main", ids());
    let rec = parse_reflog_line(&line).unwrap();
    assert!(rec.old_id.is_zero());
    assert_eq!(rec.old_id.bytes, vec![0u8; 20]);
    assert_eq!(rec.new_id.bytes, vec![0xbbu8; 20]);
    assert_eq!(rec.name, "Alice");
    assert_eq!(rec.email, "a@x.com");
    assert_eq!(rec.timestamp, 1700000000);
    assert_eq!(rec.offset_minutes, 120);
    assert_eq!(rec.message, "branch: Created from main");
}

#[test]
fn negative_offset_in_minutes() {
    let line = format!("{} Bob Smith <b@y.org> 12 -0130\tcommit: x", ids());
    let rec = parse_reflog_line(&line).unwrap();
    assert_eq!(rec.name, "Bob Smith");
    assert_eq!(rec.timestamp, 12);
    assert_eq!(rec.offset_minutes, -90);
}

#[test]
fn mixed_digits_in_ids() {
    let old = "0123456789abcdef0123456789abcdef01234567";
    let line = format!("{} {} N <e> 5 +0000\tm", old, "f".repeat(40));
    let rec = parse_reflog_line(&line).unwrap();
    assert_eq!(rec.old_id.bytes[0], 0x01);
    assert_eq!(rec.old_id.bytes[7], 0xef);
    assert_eq!(rec.old_id.to_hex(), old);
    assert!(!rec.new_id.is_zero());
    assert_eq!(rec.new_id.to_hex(), "f".repeat(40));
}

#[test]
fn empty_message_is_accepted() {
    let line = format!("{} N <e> 5 +0000\t", ids());
    let rec = parse_reflog_line(&line).unwrap();
    assert_eq!(rec.message, "");
}

#[test]
fn message_may_hold_brackets_and_tabs() {
    let line = format!("{} N <e> 5 +0000\tmerge <a> into >b\tc", ids());
    let rec = parse_reflog_line(&line).unwrap();
    assert_eq!(rec.message, "merge <a> into >b\tc");
}

#[test]
fn largest_timestamp() {
    let line = format!("{} N <e> 9223372036854775807 +0000\tm", ids());
    assert_eq!(parse_reflog_line(&line).unwrap().timestamp, i64::MAX);
}

#[test]
fn timestamp_overflow_is_malformed() {
    let line = format!("{} N <e> 9223372036854775808 +0000\tm", ids());
    assert_eq!(parse_reflog_line(&line), Err(ReflogError::MalformedReflogLine));
}

#[test]
fn same_line_parses_the_same() {
    let line = format!("{} Alice <a@x.com> 1700000000 +0200\tm", ids());
    assert_eq!(parse_reflog_line(&line), parse_reflog_line(&line));
}

fn rejected(line: &str) {
    assert_eq!(parse_reflog_line(line), Err(ReflogError::MalformedReflogLine), "{}", line);
}

#[test]
fn missing_fields_are_malformed() {
    let z = "0".repeat(40);
    let b = "b".repeat(40);
    rejected("");
    rejected(&format!("{} N <e> 5 +0000\tm", z));
    rejected(&format!("{} {} <e> 5 +0000\tm", z, b));
    rejected(&format!("{} {} N <> 5 +0000\tm", z, b));
    rejected(&format!("{} {} N e 5 +0000\tm", z, b));
    rejected(&format!("{} {} N <e> +0000\tm", z, b));
    rejected(&format!("{} {} N <e> 5\tm", z, b));
    rejected(&format!("{} {} N <e> 5 +0000 m", z, b));
    rejected(&format!("{} {} N <e> 5 +0000", z, b));
}

#[test]
fn offset_without_sign_is_malformed() {
    rejected(&format!("{} N <e> 5 0200\tm", ids()));
    rejected(&format!("{} N <e> 5 *0200\tm", ids()));
    rejected(&format!("{} N <e> 5 +020\tm", ids()));
    rejected(&format!("{} N <e> 5 +02a0\tm", ids()));
}

#[test]
fn bad_identifiers_are_malformed() {
    rejected(&format!("{} {} N <e> 5 +0000\tm", "A".repeat(40), "b".repeat(40)));
    rejected(&format!("{} {} N <e> 5 +0000\tm", "0".repeat(39), "b".repeat(41)));
    rejected(&format!("{} {} N <e> 5 +0000\tm", "g".repeat(40), "b".repeat(40)));
}

#[test]
fn name_and_email_limits() {
    rejected(&format!("{} N<e> 5 +0000\tm", ids()));
    rejected(&format!("{} N <e>5 +0000\tm", ids()));
    rejected(&format!("{} N <e> 5 +0000\tline\nbreak", ids()));
    let rec = parse_reflog_line(&format!("{} N <a<b> 5 +0000\tm", ids())).unwrap();
    assert_eq!(rec.email, "a<b");
}

#[test]
fn zero_id_helper() {
    let z = ObjectId::zero();
    assert!(z.is_zero());
    assert_eq!(z.to_hex(), "0".repeat(40));
    assert!(z.same_as(&ObjectId { bytes: vec![0u8; 20] }));
    assert!(!z.same_as(&ObjectId { bytes: vec![1u8; 20] }));
}

use payload_table::warn::Warning;
use payload_table::{encode_payload, parse_port, parser, selector_to_ports, split_fields};

fn bv(s: &str) -> Vec<u8> {
    s.as_bytes().to_vec()
}

fn sel(s: &str) -> (Vec<u16>, Vec<Warning>) {
    let mut warns: Vec<Warning> = Vec::new();
    let ports = selector_to_ports(&bv(s), 1, &mut warns);
    (ports, warns)
}

#[test]
fn split_three_fields_preserves_payload_spaces() {
    let parts = split_fields(&bv("tcp 80,443 GET / HTTP"));
    assert_eq!(parts.len(), 3);
    assert_eq!(parts[0], bv("tcp"));
    assert_eq!(parts[1], bv("80,443"));
    assert_eq!(parts[2], bv("GET / HTTP"));
}

#[test]
fn split_two_fields() {
    let parts = split_fields(&bv("tcp 80"));
    assert_eq!(parts.len(), 2);
    assert_eq!(parts[0], bv("tcp"));
    assert_eq!(parts[1], bv("80"));
}

#[test]
fn split_one_field() {
    let parts = split_fields(&bv("tcp"));
    assert_eq!(parts.len(), 1);
    assert_eq!(parts[0], bv("tcp"));
}

#[test]
fn parse_port_values() {
    assert_eq!(parse_port(&bv("80")), Some(80));
    assert_eq!(parse_port(&bv("+80")), Some(80));
    assert_eq!(parse_port(&bv("0")), Some(0));
    assert_eq!(parse_port(&bv("65535")), Some(65535));
    assert_eq!(parse_port(&bv("65536")), None);
    assert_eq!(parse_port(&bv("")), None);
    assert_eq!(parse_port(&bv("8a")), None);
    assert_eq!(parse_port(&bv("-1")), None);
}

#[test]
fn range_expansion() {
    let (ports, warns) = sel("100-102");
    assert_eq!(ports, vec![100, 101, 102]);
    assert!(warns.is_empty());
}

#[test]
fn degenerate_range() {
    let (ports, warns) = sel("5-5");
    assert_eq!(ports, vec![5]);
    assert!(warns.is_empty());
}

#[test]
fn inverted_range_is_empty_without_error() {
    let (ports, warns) = sel("5-3");
    assert_eq!(ports, Vec::<u16>::new());
    assert!(warns.is_empty());
}

#[test]
fn combined_selector_in_order() {
    let (ports, warns) = sel("80,443,8000-8002");
    assert_eq!(ports, vec![80, 443, 8000, 8001, 8002]);
    assert!(warns.is_empty());
}

#[test]
fn duplicate_ports_kept_in_order() {
    let (ports, warns) = sel("80,80,79-81");
    assert_eq!(ports, vec![80, 80, 79, 80, 81]);
    assert!(warns.is_empty());
}

#[test]
fn bad_segment_warns_and_others_continue() {
    let (ports, warns) = sel("99999,80,1-x");
    assert_eq!(ports, vec![80]);
    assert_eq!(
        warns,
        vec![Warning::BadSegment { line: 1 }, Warning::BadSegment { line: 1 }]
    );
}

#[test]
fn decode_get_escapes() {
    let (bytes, warns) = parser(&bv("GET\\x20\\x2f"));
    assert_eq!(bytes, vec![71, 69, 84, 32, 47]);
    assert!(warns.is_empty());
}

#[test]
fn decode_bad_hex_pair_skipped_with_position() {
    let (bytes, warns) = parser(&bv("\\xZZA"));
    assert_eq!(bytes, vec![65]);
    assert_eq!(warns, vec![0]);
}

#[test]
fn decode_truncated_escape_is_literal() {
    let (bytes, warns) = parser(&bv("\\x4"));
    assert_eq!(bytes, vec![92, 120, 52]);
    assert!(warns.is_empty());
}

#[test]
fn decode_uppercase_hex() {
    let (bytes, warns) = parser(&bv("\\x4F\\xaB"));
    assert_eq!(bytes, vec![0x4f, 0xab]);
    assert!(warns.is_empty());
}

#[test]
fn encode_then_decode_reproduces_bytes() {
    let original: Vec<u8> = vec![0, 1, 8, 32, 47, 71, 92, 120, 126, 127, 200, 255];
    let text = encode_payload(&original);
    let (bytes, warns) = parser(&text);
    assert_eq!(bytes, original);
    assert!(warns.is_empty());
}

#[test]
fn encode_notation() {
    assert_eq!(encode_payload(&vec![71, 32, 47]), bv("G /"));
    assert_eq!(encode_payload(&vec![8, 0]), bv("\\x08\\x00"));
    assert_eq!(encode_payload(&vec![92]), bv("\\x5c"));
}

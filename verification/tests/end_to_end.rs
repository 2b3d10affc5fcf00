use payload_table::warn::Warning;
use payload_table::{
    build_table, generate_code, parse_file_data, payloads_v, port_payload_map, ports_v, table_get,
};

fn bv(s: &str) -> Vec<u8> {
    s.as_bytes().to_vec()
}

#[test]
fn normalizer_numbers_trims_and_skips() {
    let data = bv("  # comment\n\n  tcp 80 x  \nfoo\n");
    let fp_map = parse_file_data(&data);
    assert_eq!(fp_map, vec![(3, bv("tcp 80 x")), (4, bv("foo"))]);
}

#[test]
fn icmp_line_empty_ports_and_payload_bytes() {
    let data = bv("icmp \\x08\\x00");
    let fp_map = parse_file_data(&data);
    let (pb, pwarns) = ports_v(&fp_map);
    assert_eq!(pb, vec![(1, Vec::<u16>::new())]);
    assert!(pwarns.is_empty());
    let (payb, ywarns) = payloads_v(&fp_map);
    assert_eq!(payb, vec![(1, vec![8, 0])]);
    assert!(ywarns.is_empty());
}

#[test]
fn malformed_line_contributes_nothing_one_warning() {
    let data = bv("tcp 80");
    let fp_map = parse_file_data(&data);
    let (pb, pwarns) = ports_v(&fp_map);
    assert!(pb.is_empty());
    assert_eq!(pwarns, vec![Warning::Malformed { line: 1 }]);
    let (payb, ywarns) = payloads_v(&fp_map);
    assert!(payb.is_empty());
    assert!(ywarns.is_empty());
}

#[test]
fn bad_hex_escape_warns_with_line_and_position() {
    let data = bv("tcp 80 A\\xZZ");
    let fp_map = parse_file_data(&data);
    let (payb, ywarns) = payloads_v(&fp_map);
    assert_eq!(payb, vec![(1, vec![65])]);
    assert_eq!(ywarns, vec![Warning::BadHex { line: 1, pos: 1 }]);
}

#[test]
fn missing_payload_drops_entry_with_warning() {
    let data = bv("icmp");
    let fp_map = parse_file_data(&data);
    let (pb, pwarns) = ports_v(&fp_map);
    assert_eq!(pb, vec![(1, Vec::<u16>::new())]);
    assert!(pwarns.is_empty());
    let (payb, ywarns) = payloads_v(&fp_map);
    assert!(payb.is_empty());
    assert_eq!(ywarns, vec![Warning::Malformed { line: 1 }]);
    let (table, jwarns) = port_payload_map(pb, payb);
    assert!(table.is_empty());
    assert_eq!(jwarns, vec![Warning::NoPayload { line: 1 }]);
}

#[test]
fn last_write_wins_on_equal_port_sets() {
    let data = bv("tcp 80 \\x01\ntcp 80 \\x02");
    let (table, warns) = build_table(&data);
    assert_eq!(table, vec![(vec![80], vec![2])]);
    assert!(warns.is_empty());
}

#[test]
fn table_orders_keys_ascending_regardless_of_input_order() {
    let data = bv("udp 53 \\x44\nicmp \\x08\ntcp 7,9 \\x00");
    let (table, warns) = build_table(&data);
    assert_eq!(
        table,
        vec![
            (Vec::<u16>::new(), vec![8]),
            (vec![7, 9], vec![0]),
            (vec![53], vec![68]),
        ]
    );
    assert!(warns.is_empty());
}

#[test]
fn shorter_key_precedes_its_extensions() {
    let data = bv("tcp 7,9,10 \\x01\ntcp 7 \\x02\ntcp 7,9 \\x03");
    let (table, _) = build_table(&data);
    let keys: Vec<Vec<u16>> = table.iter().map(|e| e.0.clone()).collect();
    assert_eq!(keys, vec![vec![7], vec![7, 9], vec![7, 9, 10]]);
}

#[test]
fn end_to_end_example() {
    let data = bv("# comment\ntcp 7,9 \\x00\\x01\nicmp \\x08\\x00\nudp 53 \\x44\\x4e\\x53");
    let (table, warns) = build_table(&data);
    assert_eq!(
        table,
        vec![
            (Vec::<u16>::new(), vec![8, 0]),
            (vec![7, 9], vec![0, 1]),
            (vec![53], vec![0x44, 0x4e, 0x53]),
        ]
    );
    assert!(warns.is_empty());
}

#[test]
fn table_get_finds_last_payload() {
    let data = bv("tcp 80 \\x01\nudp 53 \\x02\ntcp 80 \\x03");
    let (table, _) = build_table(&data);
    assert_eq!(table_get(&table, &vec![80]), Some(vec![3]));
    assert_eq!(table_get(&table, &vec![53]), Some(vec![2]));
    assert_eq!(table_get(&table, &vec![81]), None);
}

#[test]
fn generated_code_text_matches_table_order() {
    let data = bv("tcp 7,9 \\x00\\x01\nicmp \\x08\\x00");
    let (table, _) = build_table(&data);
    let text = String::from_utf8(generate_code(&table)).unwrap();
    let expected = "use std::collections::BTreeMap;\nuse once_cell::sync::Lazy;\n\nfn generated_data() -> BTreeMap<Vec<u16>, Vec<u8>> {\n    let mut map = BTreeMap::new();\n    map.insert(vec![], vec![8, 0]);\n    map.insert(vec![7, 9], vec![0, 1]);\n    map\n}\n\npub static PARSED_DATA: Lazy<BTreeMap<Vec<u16>, Vec<u8>>> = Lazy::new(generated_data);\npub fn get_parsed_data() -> &'static BTreeMap<Vec<u16>, Vec<u8>> {\n    &PARSED_DATA\n}\n";
    assert_eq!(text, expected);
}

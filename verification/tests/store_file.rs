use incident_board_sync::decimal::{parse_decimal, render_decimal};
use incident_board_sync::records::{
    find_byte, load, parse_record, remove_from_text, render, render_record, split_first_line, trim,
};
use incident_board_sync::store::{MappingStore, TrackedMapping};

fn mapping(incident_id: u32, card_id: u32) -> TrackedMapping {
    TrackedMapping { incident_id, card_id }
}

fn contents(store: &MappingStore) -> Vec<(u32, u32)> {
    let mut out = Vec::new();
    let mut k = 0;
    while k < store.len() {
        let m = store.entry(k);
        out.push((m.incident_id, m.card_id));
        k += 1;
    }
    out
}

#[test]
fn decimal_reads_plain_numbers() {
    assert_eq!(parse_decimal(b"0"), Some(0));
    assert_eq!(parse_decimal(b"7"), Some(7));
    assert_eq!(parse_decimal(b"1234"), Some(1234));
    assert_eq!(parse_decimal(b"007"), Some(7));
    assert_eq!(parse_decimal(b"4294967295"), Some(u32::MAX));
}

#[test]
fn decimal_rejects_what_is_no_number() {
    assert_eq!(parse_decimal(b""), None);
    assert_eq!(parse_decimal(b"+5"), None);
    assert_eq!(parse_decimal(b"-5"), None);
    assert_eq!(parse_decimal(b" 5"), None);
    assert_eq!(parse_decimal(b"5 "), None);
    assert_eq!(parse_decimal(b"12a"), None);
    assert_eq!(parse_decimal(b"1,2"), None);
}

#[test]
fn decimal_rejects_numbers_beyond_32_bits() {
    assert_eq!(parse_decimal(b"4294967296"), None);
    assert_eq!(parse_decimal(b"99999999999999999999999999"), None);
    assert_eq!(parse_decimal(b"00000000000000000000000042"), Some(42));
}

#[test]
fn decimal_writes_shortest_form() {
    assert_eq!(render_decimal(0), b"0".to_vec());
    assert_eq!(render_decimal(9), b"9".to_vec());
    assert_eq!(render_decimal(10), b"10".to_vec());
    assert_eq!(render_decimal(4294967295), b"4294967295".to_vec());
    assert_eq!(render_decimal(u64::MAX), b"18446744073709551615".to_vec());
}

#[test]
fn decimal_round_trip() {
    for n in [0u32, 1, 9, 10, 99, 100, 65535, 65536, 1_000_000, u32::MAX] {
        assert_eq!(parse_decimal(&render_decimal(n as u64)), Some(n));
    }
}

#[test]
fn find_byte_gives_first_position_or_length() {
    assert_eq!(find_byte(b"a,b,c", b','), 1);
    assert_eq!(find_byte(b",", b','), 0);
    assert_eq!(find_byte(b"abc", b','), 3);
    assert_eq!(find_byte(b"", b','), 0);
}

#[test]
fn trim_strips_blanks_at_both_ends_only() {
    assert_eq!(trim(b"  1,2\r"), b"1,2");
    assert_eq!(trim(b"\t 1 , 2 \n"), b"1 , 2");
    assert_eq!(trim(b"   "), b"");
    assert_eq!(trim(b""), b"");
    assert_eq!(trim(b"x"), b"x");
}

#[test]
fn record_line_is_read() {
    assert_eq!(parse_record(b"12,34"), Some(mapping(12, 34)));
    assert_eq!(parse_record(b"  12,34\r"), Some(mapping(12, 34)));
    assert_eq!(parse_record(b"0,0"), Some(mapping(0, 0)));
    assert_eq!(parse_record(b"4294967295,4294967295"), Some(mapping(u32::MAX, u32::MAX)));
}

#[test]
fn malformed_record_lines_hold_nothing() {
    assert_eq!(parse_record(b""), None);
    assert_eq!(parse_record(b"12"), None);
    assert_eq!(parse_record(b"12,"), None);
    assert_eq!(parse_record(b",34"), None);
    assert_eq!(parse_record(b"12,34,56"), None);
    assert_eq!(parse_record(b"12, 34"), None);
    assert_eq!(parse_record(b"twelve,34"), None);
    assert_eq!(parse_record(b"12;34"), None);
    assert_eq!(parse_record(b"4294967296,1"), None);
    assert_eq!(parse_record(b"1,-1"), None);
}

#[test]
fn first_line_is_split_off() {
    assert_eq!(split_first_line(b"ab\ncd\n"), (&b"ab"[..], &b"cd\n"[..]));
    assert_eq!(split_first_line(b"ab"), (&b"ab"[..], &b""[..]));
    assert_eq!(split_first_line(b"\nab"), (&b""[..], &b"ab"[..]));
    assert_eq!(split_first_line(b""), (&b""[..], &b""[..]));
}

#[test]
fn absent_or_empty_file_loads_as_empty_store() {
    let store = load(b"");
    assert!(store.is_empty());
    assert_eq!(store.len(), 0);
}

#[test]
fn one_malformed_and_one_well_formed_line_load_the_well_formed_record() {
    assert_eq!(contents(&load(b"garbage\n12,34\n")), vec![(12, 34)]);
    assert_eq!(contents(&load(b"12,34\ngarbage\n")), vec![(12, 34)]);
    assert_eq!(contents(&load(b"12\n12,34")), vec![(12, 34)]);
    assert_eq!(contents(&load(b",\n12,34\n")), vec![(12, 34)]);
}

#[test]
fn load_keeps_first_position_and_last_card() {
    let store = load(b"1,10\n2,20\n\n1,11\nnoise\n3,30");
    assert_eq!(contents(&store), vec![(1, 11), (2, 20), (3, 30)]);
    assert_eq!(store.get(1), Some(11));
    assert_eq!(store.get(2), Some(20));
    assert_eq!(store.get(4), None);
}

#[test]
fn load_accepts_carriage_returns() {
    assert_eq!(contents(&load(b"1,10\r\n2,20\r\n")), vec![(1, 10), (2, 20)]);
}

#[test]
fn record_is_rendered_as_one_line() {
    assert_eq!(render_record(mapping(12, 34)), b"12,34\n".to_vec());
    assert_eq!(render_record(mapping(0, u32::MAX)), b"0,4294967295\n".to_vec());
}

#[test]
fn appended_record_is_loaded_as_upsert() {
    let mut content = b"1,10\n2,20\n".to_vec();
    content.extend_from_slice(&render_record(mapping(3, 30)));
    assert_eq!(contents(&load(&content)), vec![(1, 10), (2, 20), (3, 30)]);
    content.extend_from_slice(&render_record(mapping(1, 99)));
    assert_eq!(contents(&load(&content)), vec![(1, 99), (2, 20), (3, 30)]);
}

#[test]
fn store_renders_and_loads_back() {
    let mut store = MappingStore::new();
    store.upsert(5, 50);
    store.upsert(6, 60);
    store.upsert(5, 51);
    let text = render(&store);
    assert_eq!(text, b"5,51\n6,60\n".to_vec());
    assert_eq!(load(&text), store);
}

#[test]
fn rewrite_drops_the_incident_and_keeps_every_other_line() {
    assert_eq!(remove_from_text(b"1,10\n2,20\n3,30\n", 2), b"1,10\n3,30\n".to_vec());
    assert_eq!(remove_from_text(b"1,10\nnoise\n1,11\n2,20", 1), b"noise\n2,20\n".to_vec());
    assert_eq!(remove_from_text(b"12,1\n1,2\n", 1), b"12,1\n".to_vec());
    assert_eq!(remove_from_text(b"1,10\n", 9), b"1,10\n".to_vec());
    assert_eq!(remove_from_text(b"", 1), b"".to_vec());
}

#[test]
fn rewrite_removes_the_incident_from_what_loads() {
    let before = b"1,10\n2,20\nnoise\n3,30\n2,21\n";
    let after = remove_from_text(before, 2);
    let mut expected = load(before);
    expected.remove(2);
    assert_eq!(load(&after), expected);
    assert_eq!(contents(&expected), vec![(1, 10), (3, 30)]);
}

#[test]
fn upsert_adds_new_incidents_at_the_end() {
    let mut store = MappingStore::new();
    store.upsert(3, 30);
    store.upsert(1, 10);
    assert_eq!(contents(&store), vec![(3, 30), (1, 10)]);
    assert_eq!(store.position(1), 1);
    assert_eq!(store.position(7), 2);
    assert!(!store.is_empty());
}

#[test]
fn upsert_replaces_the_card_of_a_tracked_incident() {
    let mut store = MappingStore::new();
    store.upsert(3, 30);
    store.upsert(1, 10);
    store.upsert(3, 31);
    assert_eq!(contents(&store), vec![(3, 31), (1, 10)]);
    assert_eq!(store.get(3), Some(31));
}

#[test]
fn remove_drops_only_the_named_incident() {
    let mut store = MappingStore::new();
    store.upsert(1, 10);
    store.upsert(2, 20);
    store.upsert(3, 30);
    store.remove(2);
    assert_eq!(contents(&store), vec![(1, 10), (3, 30)]);
    store.remove(2);
    assert_eq!(contents(&store), vec![(1, 10), (3, 30)]);
    store.remove(1);
    store.remove(3);
    assert!(store.is_empty());
}

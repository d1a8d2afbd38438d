use diary_core::key::format_file_name;
use diary_core::key::parse_file_name;
use diary_core::key::sort_keys;
use diary_core::listing::make_entry_list;
use diary_core::listing::order_of_magnitude;
use diary_core::listing::KeyOrdering;
use diary_core::listing::ListOption;
use diary_core::DiaryEntryKey;

fn key(s: &str) -> DiaryEntryKey {
    DiaryEntryKey::parse_from_string(s).expect("key should parse")
}

#[test]
fn canonical_roundtrip() {
    for s in [
        "2020-08-30 13:37 +0000",
        "0001-01-01 00:00 +0000",
        "9999-12-31 23:59 +0000",
        "2024-02-29 12:00 +0000",
    ] {
        let k = key(s);
        assert_eq!(k.canonical_string(), s);
        assert_eq!(DiaryEntryKey::parse_from_string(&k.canonical_string()), Some(k));
    }
}

#[test]
fn parse_accepts_colon_offset_and_normalizes_to_utc() {
    let k = key("2020-08-30 13:37 +03:00");
    assert_eq!(k.canonical_string(), "2020-08-30 10:37 +0000");
    let k2 = key("2020-08-30 13:37 +0300");
    assert_eq!(k, k2);
}

#[test]
fn offset_normalization_crosses_days_months_years() {
    assert_eq!(key("2020-01-01 00:30 +0100").canonical_string(), "2019-12-31 23:30 +0000");
    assert_eq!(key("2020-12-31 23:30 -0100").canonical_string(), "2021-01-01 00:30 +0000");
    assert_eq!(key("2020-03-01 00:10 +0030").canonical_string(), "2020-02-29 23:40 +0000");
}

#[test]
fn parse_rejects_malformed_input() {
    for s in [
        "",
        "not a date",
        "2020-13-01 00:00 +0000",
        "2020-02-30 10:00 +0000",
        "2019-02-29 10:00 +0000",
        "2020-01-01 24:00 +0000",
        "2020-01-01 10:61 +0000",
        "2020-01-01 10:00 +0070",
        "2020-01-01 10:00",
        "2020-01-01T10:00 +0000",
        "0000-01-01 00:00 +0100",
    ] {
        assert_eq!(DiaryEntryKey::parse_from_string(s), None, "{}", s);
    }
}

#[test]
fn db_form_roundtrip() {
    let k = key("2020-08-30 13:37 +03:00");
    assert_eq!(k.db_string(), "20200830T1037+0000");
    assert_eq!(DiaryEntryKey::parse_db_string(&k.db_string()), Some(k));
    assert_eq!(DiaryEntryKey::parse_db_string("garbage"), None);
}

#[test]
fn file_name_roundtrip() {
    let k = key("2020-08-30 13:37 +0000");
    assert_eq!(format_file_name(&k), "20200830T1337");
    assert_eq!(parse_file_name("20200830T1337"), Some(k));
    assert_eq!(parse_file_name("20200830T1337+0000"), None);
    assert_eq!(parse_file_name("20201330T1337"), None);
}

#[test]
fn sort_orders_by_instant() {
    let a = key("2019-12-31 23:59 +0000");
    let b = key("2020-01-01 00:00 +0000");
    let c = key("2020-08-30 13:37 +0000");
    let sorted = sort_keys(vec![c, a, b]);
    assert_eq!(sorted, vec![a, b, c]);
    assert_eq!(sort_keys(Vec::new()), Vec::<DiaryEntryKey>::new());
}

#[test]
fn order_of_magnitude_counts_digits() {
    assert_eq!(order_of_magnitude(0), 0);
    assert_eq!(order_of_magnitude(9), 0);
    assert_eq!(order_of_magnitude(10), 1);
    assert_eq!(order_of_magnitude(99), 1);
    assert_eq!(order_of_magnitude(100), 2);
}

#[test]
fn plain_empty_entry_list_works() {
    assert_eq!(
        Vec::<String>::new(),
        make_entry_list(&Vec::new(), ListOption::Plain, KeyOrdering::EarliestFirst),
    );
}

#[test]
fn enumerated_empty_entry_list_works() {
    assert_eq!(
        Vec::<String>::new(),
        make_entry_list(&Vec::new(), ListOption::Enumerate, KeyOrdering::EarliestFirst),
    );
}

#[test]
fn reverse_enumerated_empty_entry_list_works() {
    assert_eq!(
        Vec::<String>::new(),
        make_entry_list(&Vec::new(), ListOption::EnumerateReverse, KeyOrdering::EarliestFirst),
    );
}

#[test]
fn plain_entry_list_works() {
    let dts1 = "2020-07-10 09:11 +0000";
    let dts2 = "2020-07-10 20:51 +0000";
    let k1 = key(dts1);
    let k2 = key(dts2);
    let entry_list = make_entry_list(&vec![k1, k2], ListOption::Plain, KeyOrdering::EarliestFirst);
    assert_eq!(vec![dts1, dts2], entry_list);
}

#[test]
fn enumerated_entry_list_works() {
    let dts1 = "2020-07-10 09:11 +0000";
    let dts2 = "2020-07-10 20:51 +0000";
    let k1 = key(dts1);
    let k2 = key(dts2);
    let entry_list = make_entry_list(
        &vec![k1, k2],
        ListOption::Enumerate,
        KeyOrdering::EarliestFirst,
    );
    assert_eq!(vec![format!("1 {}", dts1), format!("2 {}", dts2)], entry_list);
}

#[test]
fn reverse_enumerated_entry_list_works() {
    let dts1 = "2020-07-10 09:11 +0000";
    let dts2 = "2020-07-10 20:51 +0000";
    let k1 = key(dts1);
    let k2 = key(dts2);
    let entry_list = make_entry_list(
        &vec![k1, k2],
        ListOption::EnumerateReverse,
        KeyOrdering::EarliestFirst,
    );
    assert_eq!(vec![format!("2 {}", dts1), format!("1 {}", dts2)], entry_list);
}

#[test]
fn reverse_enumerated_entry_list_latest_first() {
    let dts1 = "2020-07-10 09:11 +0000";
    let dts2 = "2020-07-10 20:51 +0000";
    let k1 = key(dts1);
    let k2 = key(dts2);
    let entry_list = make_entry_list(
        &vec![k1, k2],
        ListOption::EnumerateReverse,
        KeyOrdering::LatestFirst,
    );
    assert_eq!(vec![format!("1 {}", dts2), format!("2 {}", dts1)], entry_list);
}

use kvstore::error::Error;
use kvstore::table::Table;
use std::collections::{BTreeMap, HashMap};

fn table_of(pairs: &[(&str, &str)]) -> Table {
    let mut table = Table::new();
    for (key, value) in pairs {
        table.put(key.to_string(), value.to_string());
    }
    table
}

fn contents(table: &Table) -> BTreeMap<String, String> {
    (0..table.len())
        .map(|i| {
            let (key, value) = table.entry(i).unwrap();
            (key.to_string(), value.to_string())
        })
        .collect()
}

#[test]
fn key_hash_is_fnv_1a() {
    assert_eq!(Table::key_hash(""), 0xcbf2_9ce4_8422_2325);
    assert_eq!(Table::key_hash("a"), 0xaf63_dc4c_8601_ec8c);
    assert_eq!(Table::key_hash("foobar"), 0x8594_4171_f739_67e8);
}

#[test]
fn new_table_has_no_key() {
    let table = Table::new();
    assert_eq!(table.len(), 0);
    assert_eq!(table.get("a"), None);
    assert_eq!(table.get(""), None);
    assert_eq!(table.entry(0), None);
}

#[test]
fn key_that_was_never_put_is_not_found() {
    let table = table_of(&[("a", "1"), ("b", "2")]);
    assert_eq!(table.get("c"), None);
    assert_eq!(table.get("A"), None);
    assert_eq!(table.get("ab"), None);
}

#[test]
fn put_then_get() {
    let table = table_of(&[("a", "1"), ("b", "2"), ("", "empty")]);
    assert_eq!(table.get("a"), Some("1".to_string()));
    assert_eq!(table.get("b"), Some("2".to_string()));
    assert_eq!(table.get(""), Some("empty".to_string()));
    assert_eq!(table.len(), 3);
}

#[test]
fn last_writer_wins() {
    let mut table = Table::new();
    table.put("k".into(), "v1".into());
    table.put("k".into(), "v2".into());
    assert_eq!(table.get("k"), Some("v2".to_string()));
    assert_eq!(table.len(), 1);
}

#[test]
fn put_on_one_key_is_not_seen_on_another() {
    let mut table = table_of(&[("a", "1"), ("b", "2")]);
    table.put("a".into(), "3".into());
    assert_eq!(table.get("b"), Some("2".to_string()));
    table.put("c".into(), "4".into());
    assert_eq!(table.get("a"), Some("3".to_string()));
    assert_eq!(table.get("b"), Some("2".to_string()));
}

#[test]
fn entries_keep_the_order_of_first_puts() {
    let mut table = table_of(&[("b", "1"), ("a", "2"), ("c", "3")]);
    table.put("a".into(), "4".into());
    assert_eq!(table.entry(0), Some(("b", "1")));
    assert_eq!(table.entry(1), Some(("a", "4")));
    assert_eq!(table.entry(2), Some(("c", "3")));
    assert_eq!(table.entry(3), None);
}

#[test]
fn many_keys_are_all_found() {
    let mut table = Table::new();
    for i in 0..2000 {
        table.put(format!("key-{i}"), format!("value-{i}"));
    }
    for i in (0..2000).step_by(3) {
        table.put(format!("key-{i}"), format!("again-{i}"));
    }
    assert_eq!(table.len(), 2000);
    for i in 0..2000 {
        let expected = if i % 3 == 0 {
            format!("again-{i}")
        } else {
            format!("value-{i}")
        };
        assert_eq!(table.get(&format!("key-{i}")), Some(expected));
    }
    assert_eq!(table.get("key-2000"), None);
}

#[test]
fn snapshot_of_the_empty_table() {
    let table = Table::new();
    assert_eq!(table.snapshot(), Ok(vec![0x80]));
}

#[test]
fn snapshot_lists_the_entries_in_order() {
    let table = table_of(&[("x", "y"), ("a", "12")]);
    assert_eq!(
        table.snapshot(),
        Ok(vec![0x82, 0xa1, b'x', 0xa1, b'y', 0xa1, b'a', 0xa2, b'1', b'2'])
    );
}

#[test]
fn snapshot_round_trip() {
    let mut table = Table::new();
    for i in 0..300 {
        table.put(format!("key-{i}"), "v".repeat(i));
    }
    table.put("clé".into(), "värde → 値 🦀".into());
    let bytes = table.snapshot().unwrap();
    let restored = Table::restore(&bytes).unwrap();
    assert_eq!(restored.len(), 301);
    assert_eq!(contents(&restored), contents(&table));
    assert_eq!(restored.get("key-17"), Some("v".repeat(17)));
    assert_eq!(restored.get("key-299"), Some("v".repeat(299)));
    assert_eq!(restored.get("clé"), Some("värde → 値 🦀".to_string()));
    assert_eq!(restored.snapshot(), Ok(bytes));
}

#[test]
fn snapshot_round_trip_with_long_strings() {
    let mut table = Table::new();
    table.put("k".repeat(70_000), "v".repeat(66_000));
    let bytes = table.snapshot().unwrap();
    assert_eq!(&bytes[..6], &[0x81, 0xdb, 0x00, 0x01, 0x11, 0x70]);
    let restored = Table::restore(&bytes).unwrap();
    assert_eq!(restored.get(&"k".repeat(70_000)), Some("v".repeat(66_000)));
}

#[test]
fn restore_ignores_what_follows_the_snapshot() {
    let table = table_of(&[("x", "y")]);
    let mut bytes = table.snapshot().unwrap();
    bytes.extend_from_slice(b"\xa1z\xa1w left over from a longer snapshot");
    let restored = Table::restore(&bytes).unwrap();
    assert_eq!(restored.len(), 1);
    assert_eq!(restored.get("x"), Some("y".to_string()));
    assert_eq!(restored.get("z"), None);
}

#[test]
fn restore_lets_the_last_value_of_a_key_stand() {
    let restored = Table::restore(b"\x83\xa1k\xa11\xa1j\xa12\xa1k\xa13").unwrap();
    assert_eq!(restored.len(), 2);
    assert_eq!(restored.get("k"), Some("3".to_string()));
    assert_eq!(restored.get("j"), Some("2".to_string()));
}

#[test]
fn restore_refuses_what_is_no_snapshot() {
    assert_eq!(Table::restore(b"").err(), Some(Error::Decode));
    assert_eq!(Table::restore(b"\x00").err(), Some(Error::Decode));
    assert_eq!(Table::restore(b"\xa1x").err(), Some(Error::Decode));
    assert_eq!(Table::restore(b"\x92\xa1x\xa1y").err(), Some(Error::Decode));
    assert_eq!(Table::restore(b"\xde\x00").err(), Some(Error::Decode));
}

#[test]
fn restore_refuses_a_snapshot_that_is_cut_short() {
    let table = table_of(&[("x", "y"), ("abc", "defg")]);
    let bytes = table.snapshot().unwrap();
    assert!(Table::restore(&bytes).is_ok());
    for cut in 0..bytes.len() {
        assert_eq!(Table::restore(&bytes[..cut]).err(), Some(Error::Decode));
    }
}

#[test]
fn restore_refuses_text_that_is_not_utf8() {
    assert_eq!(
        Table::restore(b"\x81\xa1\xff\xa1y").err(),
        Some(Error::Decode)
    );
    assert_eq!(
        Table::restore(b"\x81\xa1x\xa2\xc3\x28").err(),
        Some(Error::Decode)
    );
}

#[test]
fn restore_refuses_values_that_are_no_strings() {
    assert_eq!(Table::restore(b"\x81\xa1x\x01").err(), Some(Error::Decode));
    assert_eq!(Table::restore(b"\x81\xa1x\xc0").err(), Some(Error::Decode));
}

#[test]
fn snapshot_is_what_rmp_serde_writes() {
    let mut map = HashMap::new();
    map.insert("x".to_string(), "y".repeat(40));
    let table = table_of(&[("x", &"y".repeat(40))]);
    assert_eq!(table.snapshot(), Ok(rmp_serde::to_vec(&map).unwrap()));
}

#[test]
fn rmp_serde_reads_a_snapshot() {
    let mut table = Table::new();
    for i in 0..40 {
        table.put(format!("key-{i}"), "v".repeat(i * 10));
    }
    let bytes = table.snapshot().unwrap();
    let read: BTreeMap<String, String> = rmp_serde::from_read(&bytes[..]).unwrap();
    assert_eq!(read, contents(&table));
}

#[test]
fn restore_reads_what_rmp_serde_writes() {
    let mut map = HashMap::new();
    for i in 0..40 {
        map.insert(format!("key-{i}"), "v".repeat(i * 10));
    }
    let bytes = rmp_serde::to_vec(&map).unwrap();
    let restored = Table::restore(&bytes).unwrap();
    assert_eq!(restored.len(), 40);
    for (key, value) in &map {
        assert_eq!(restored.get(key), Some(value.clone()));
    }
}

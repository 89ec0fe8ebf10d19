use diva_db::order::{entries_u16, entries_u32};
use std::collections::BTreeMap;

#[test]
fn order_entries_come_in_ascending_id_order() {
    let mut map = BTreeMap::new();
    map.insert(50u32, "fifty");
    map.insert(0xFFFF_FFFF, "max");
    map.insert(0, "zero");
    map.insert(7, "seven");
    let entries = entries_u32(&map);
    let ids: Vec<u32> = entries.iter().map(|entry| entry.0).collect();
    let values: Vec<&str> = entries.iter().map(|entry| *entry.1).collect();
    assert_eq!(ids, vec![0, 7, 50, 0xFFFF_FFFF]);
    assert_eq!(values, vec!["zero", "seven", "fifty", "max"]);
}

#[test]
fn order_entries_with_16_bit_ids_come_in_ascending_id_order() {
    let mut map = BTreeMap::new();
    map.insert(0xFFFFu16, 3u8);
    map.insert(256, 2);
    map.insert(255, 1);
    let entries = entries_u16(&map);
    let pairs: Vec<(u16, u8)> = entries.iter().map(|entry| (entry.0, *entry.1)).collect();
    assert_eq!(pairs, vec![(255, 1), (256, 2), (0xFFFF, 3)]);
}

#[test]
fn order_empty_map_has_no_entries() {
    let map: BTreeMap<u32, String> = BTreeMap::new();
    assert!(entries_u32(&map).is_empty());
}

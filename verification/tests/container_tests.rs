use binrs::collections::{MapEntry, SortedMap, SortedSet, UnorderedMap, UnorderedSet};
use binrs::context::Context;
use binrs::decoder::{decode_from_bytes, decode_with_ctx};
use binrs::encoder::{encode_to_bytes, encode_with_ctx};
use binrs::endian::Endianness;
use binrs::error::Error;
use binrs::record::Record;

fn big() -> Context {
    Context::new(Endianness::Big)
}

#[test]
fn sorted_set_canonicalizes_insert_order() {
    let mut set = SortedSet::new();
    set.insert(3);
    set.insert(1);
    set.insert(2);
    assert_eq!(set.to_vec(), vec![1, 2, 3]);
}

#[test]
fn sorted_set_round_trip_is_ascending() {
    let mut set = SortedSet::new();
    set.insert(3);
    set.insert(1);
    set.insert(2);
    let bytes = encode_to_bytes(&set).unwrap();
    assert_eq!(bytes, vec![3, 0, 0, 0, 1, 0, 0, 0, 0, 0, 0, 0, 2, 0, 0, 0, 0, 0, 0, 0, 3, 0, 0, 0, 0, 0, 0, 0]);
    let decoded = decode_from_bytes::<SortedSet>(&bytes).unwrap();
    assert_eq!(decoded.to_vec(), vec![1, 2, 3]);
}

#[test]
fn sorted_set_duplicate_insert_is_noop() {
    let mut set = SortedSet::new();
    set.insert(5);
    set.insert(5);
    assert_eq!(set.len(), 1);
    assert!(set.contains(5));
    assert!(!set.contains(4));
}

#[test]
fn sorted_set_big_endian_round_trip() {
    let mut set = SortedSet::new();
    set.insert(10);
    set.insert(7);
    let bytes = encode_with_ctx(&set, big()).unwrap();
    let decoded = decode_with_ctx::<SortedSet>(&bytes, big()).unwrap();
    assert_eq!(decoded.to_vec(), vec![7, 10]);
}

#[test]
fn unordered_set_keeps_first_insertion_order() {
    let mut set = UnorderedSet::new();
    set.insert(3);
    set.insert(1);
    set.insert(3);
    set.insert(2);
    assert_eq!(set.len(), 3);
    assert_eq!(set.get(0), 3);
    assert_eq!(set.get(1), 1);
    assert_eq!(set.get(2), 2);
    let bytes = encode_to_bytes(&set).unwrap();
    let decoded = decode_from_bytes::<UnorderedSet>(&bytes).unwrap();
    assert_eq!(decoded.len(), 3);
    assert!(decoded.contains(1) && decoded.contains(2) && decoded.contains(3));
}

#[test]
fn sorted_map_orders_and_replaces() {
    let mut map: SortedMap<String> = SortedMap::new();
    map.insert(3, String::from("c"));
    map.insert(1, String::from("a"));
    map.insert(2, String::from("b"));
    map.insert(3, String::from("C"));
    assert_eq!(map.len(), 3);
    assert_eq!(map.key_at(0), 1);
    assert_eq!(map.key_at(1), 2);
    assert_eq!(map.key_at(2), 3);
    assert_eq!(map.value_at(2), "C");
    assert!(map.contains_key(2));
    assert!(!map.contains_key(9));
}

#[test]
fn sorted_map_round_trip() {
    let mut map: SortedMap<String> = SortedMap::new();
    map.insert(2, String::from("two"));
    map.insert(1, String::from("one"));
    let bytes = encode_to_bytes(&map).unwrap();
    let decoded = decode_from_bytes::<SortedMap<String>>(&bytes).unwrap();
    assert_eq!(decoded.len(), 2);
    assert_eq!(decoded.key_at(0), 1);
    assert_eq!(decoded.value_at(0), "one");
    assert_eq!(decoded.key_at(1), 2);
    assert_eq!(decoded.value_at(1), "two");
}

#[test]
fn unordered_map_replaces_in_place() {
    let mut map: UnorderedMap<u32> = UnorderedMap::new();
    map.insert(9, 90);
    map.insert(4, 40);
    map.insert(9, 91);
    assert_eq!(map.len(), 2);
    assert_eq!(map.key_at(0), 9);
    assert_eq!(map.value_at(0), &91);
    assert_eq!(map.key_at(1), 4);
    let bytes = encode_to_bytes(&map).unwrap();
    let decoded = decode_from_bytes::<UnorderedMap<u32>>(&bytes).unwrap();
    assert_eq!(decoded.len(), 2);
    assert!(decoded.contains_key(9) && decoded.contains_key(4));
}

#[test]
fn map_entry_wire_is_key_then_value() {
    let entry = MapEntry { key: 1u64, value: true };
    let bytes = encode_to_bytes(&entry).unwrap();
    assert_eq!(bytes, vec![1, 0, 0, 0, 0, 0, 0, 0, 1]);
}

#[test]
fn map_truncated_entry_fails() {
    // Count says one pair, but only the key is present.
    let bytes = [1u8, 0, 0, 0, 9, 0, 0, 0, 0, 0, 0, 0];
    match decode_from_bytes::<SortedMap<u32>>(&bytes) {
        Err(e) => assert_eq!(e, Error::TruncatedInput),
        Ok(_) => panic!("a truncated entry must not decode"),
    }
}

#[test]
fn record_concrete_wire_bytes() {
    let record = Record {
        id: 1001,
        name: String::from("ab"),
        flag: true,
        note: String::new(),
    };
    let bytes = encode_to_bytes(&record).unwrap();
    assert_eq!(
        bytes,
        vec![0xe9, 0x03, 0, 0, 0, 0, 0, 0, 2, 0, 0, 0, b'a', b'b', 1]
    );
    let decoded = decode_from_bytes::<Record>(&bytes).unwrap();
    assert_eq!(decoded.id, 1001);
    assert_eq!(decoded.name, "ab");
    assert_eq!(decoded.flag, true);
    assert_eq!(decoded.note, "");
}

#[test]
fn record_skipped_field_resets_to_default() {
    let record = Record {
        id: 7,
        name: String::from("kept"),
        flag: false,
        note: String::from("lost on the wire"),
    };
    let bytes = encode_to_bytes(&record).unwrap();
    let decoded = decode_from_bytes::<Record>(&bytes).unwrap();
    assert_eq!(decoded.id, 7);
    assert_eq!(decoded.name, "kept");
    assert_eq!(decoded.flag, false);
    assert_eq!(decoded.note, "");
}

#[test]
fn record_big_endian_round_trip() {
    let record = Record {
        id: 0x0102030405060708,
        name: String::from("be"),
        flag: true,
        note: String::new(),
    };
    let bytes = encode_with_ctx(&record, big()).unwrap();
    assert_eq!(bytes[0], 1);
    let decoded = decode_with_ctx::<Record>(&bytes, big()).unwrap();
    assert_eq!(decoded.id, record.id);
    assert_eq!(decoded.name, "be");
}

use ducer::item::{Field, Item};
use ducer::layout::{check_counts, read_u64_le, MIN_LEN, VERSION};
use ducer::map::FstMap;

#[test]
fn reads_least_significant_byte_first() {
    let data = [0xff, 0x01, 0x02, 0x03, 0x04, 0x05, 0x06, 0x07, 0x08, 0xff];
    assert_eq!(read_u64_le(&data, 1), 0x0807_0605_0403_0201);
    assert_eq!(read_u64_le(&[1, 0, 0, 0, 0, 0, 0, 0], 0), 1);
    assert_eq!(read_u64_le(&[0xff; 8], 0), u64::MAX);
}

#[test]
fn a_built_map_starts_with_the_format_version_and_ends_with_its_counts() {
    let items = [
        Item::Fields(vec![Field::Bytes(b"a".to_vec()), Field::Int(1)]),
        Item::Fields(vec![Field::Bytes(b"b".to_vec()), Field::Int(2)]),
        Item::Fields(vec![Field::Bytes(b"c".to_vec()), Field::Int(3)]),
    ];
    let bytes = FstMap::build(&items).unwrap().into_vec();
    assert!(bytes.len() >= MIN_LEN);
    assert_eq!(read_u64_le(&bytes, 0), VERSION);
    // the number of keys stands before the address of the root, which
    // stands before the checksum
    assert_eq!(read_u64_le(&bytes, bytes.len() - 4 - 16), 3);
    assert!(check_counts(&bytes));
    let empty = FstMap::build(&[]).unwrap().into_vec();
    assert_eq!(read_u64_le(&empty, empty.len() - 4 - 16), 0);
    // the shortest map holds the empty key and nothing else
    let least = FstMap::build(&[Item::Fields(vec![Field::Bytes(Vec::new()), Field::Int(0)])])
        .unwrap()
        .into_vec();
    assert_eq!(least.len(), MIN_LEN);
    assert_eq!(read_u64_le(&least, least.len() - 4 - 16), 1);
}

#[test]
fn bytes_without_counts_are_not_held_against_them() {
    assert!(check_counts(&[]));
    assert!(check_counts(&[0xff; 35]));
    // no known format version
    assert!(check_counts(&[0; 40]));
    assert!(check_counts(&[0xff; 40]));
}

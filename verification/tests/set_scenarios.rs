use ducer::automaton::AutomatonGraph;
use ducer::error::Failure;
use ducer::item::Field;
use ducer::set::{FstSet, KeyIterator, SetWriter};

fn set_of(keys: &[&[u8]]) -> FstSet {
    let items: Vec<Field> = keys.iter().map(|k| Field::Bytes(k.to_vec())).collect();
    let buf = FstSet::build(&items).unwrap();
    FstSet::new(buf.into_vec()).unwrap()
}

fn drain(mut it: KeyIterator) -> Vec<Vec<u8>> {
    let mut out = Vec::new();
    while let Some(k) = it.next() {
        out.push(k);
    }
    assert_eq!(it.next(), None);
    out
}

fn keys(keys: &[&[u8]]) -> Vec<Vec<u8>> {
    keys.iter().map(|k| k.to_vec()).collect()
}

fn open(buf: ducer::buffer::Buffer) -> Vec<Vec<u8>> {
    drain(FstSet::new(buf.into_vec()).unwrap().keys())
}

#[test]
fn set_algebra_on_two_sets() {
    let a = set_of(&[b"a", b"b", b"c"]);
    let b = set_of(&[b"b", b"c", b"d"]);
    assert_eq!(open(a.union(&[b.copy()]).unwrap()), keys(&[b"a", b"b", b"c", b"d"]));
    assert_eq!(open(a.difference(&[b.copy()]).unwrap()), keys(&[b"a"]));
    assert_eq!(
        open(a.symmetric_difference(&[b.copy()]).unwrap()),
        keys(&[b"a", b"d"])
    );
    assert_eq!(open(a.intersection(&[b.copy()]).unwrap()), keys(&[b"b", b"c"]));
}

#[test]
fn set_algebra_with_itself() {
    let a = set_of(&[b"a", b"b", b"c"]);
    assert_eq!(open(a.union(&[a.copy()]).unwrap()), drain(a.keys()));
    assert_eq!(open(a.intersection(&[a.copy()]).unwrap()), drain(a.keys()));
    assert_eq!(open(a.difference(&[a.copy()]).unwrap()), keys(&[]));
    assert_eq!(open(a.symmetric_difference(&[a.copy()]).unwrap()), keys(&[]));
}

#[test]
fn symmetric_difference_is_union_less_intersection() {
    let a = set_of(&[b"a", b"b", b"c", b"x"]);
    let b = set_of(&[b"b", b"d", b"x", b"y"]);
    let union = open(a.union(&[b.copy()]).unwrap());
    let inter = open(a.intersection(&[b.copy()]).unwrap());
    let expect: Vec<Vec<u8>> = union.into_iter().filter(|k| !inter.contains(k)).collect();
    assert_eq!(open(a.symmetric_difference(&[b.copy()]).unwrap()), expect);
}

#[test]
fn algebra_over_three_sets() {
    let a = set_of(&[b"a", b"x", b"y"]);
    let b = set_of(&[b"b", b"x", b"y"]);
    let c = set_of(&[b"c", b"x"]);
    assert_eq!(
        open(a.union(&[b.copy(), c.copy()]).unwrap()),
        keys(&[b"a", b"b", b"c", b"x", b"y"])
    );
    assert_eq!(open(a.intersection(&[b.copy(), c.copy()]).unwrap()), keys(&[b"x"]));
    assert_eq!(open(a.difference(&[b.copy(), c.copy()]).unwrap()), keys(&[b"a"]));
    assert_eq!(
        open(a.symmetric_difference(&[b.copy(), c.copy()]).unwrap()),
        keys(&[b"a", b"b", b"c", b"x"])
    );
}

#[test]
fn membership_and_length() {
    let s = set_of(&[b"", b"a", b"ab"]);
    assert_eq!(s.len(), 3);
    assert!(s.contains(b""));
    assert!(s.contains(b"ab"));
    assert!(!s.contains(b"b"));
    assert_eq!(drain(s.keys()), keys(&[b"", b"a", b"ab"]));
    assert_eq!(set_of(&[]).len(), 0);
}

#[test]
fn sets_compare_by_inclusion() {
    let small = set_of(&[b"a", b"b"]);
    let big = set_of(&[b"a", b"b", b"c"]);
    let other = set_of(&[b"b", b"z"]);
    let far = set_of(&[b"x", b"y"]);
    assert!(small.issubset(&big));
    assert!(!big.issubset(&small));
    assert!(big.issuperset(&small));
    assert!(!small.issuperset(&big));
    assert!(small.le(&big) && small.lt(&big));
    assert!(big.ge(&small) && big.gt(&small));
    assert!(small.le(&small.copy()) && small.ge(&small.copy()));
    assert!(!small.lt(&small.copy()) && !small.gt(&small.copy()));
    // neither includes the other, though one is larger
    assert!(!other.le(&big) && !other.lt(&big));
    assert!(!big.ge(&other) && !big.gt(&other));
    assert!(!small.le(&other) && !small.ge(&other));
    assert!(small.isdisjoint(&far));
    assert!(!small.isdisjoint(&other));
    assert!(set_of(&[]).issubset(&small));
    assert!(set_of(&[]).isdisjoint(&small));
}

#[test]
fn sets_of_the_same_keys_are_equal() {
    let a = set_of(&[b"a", b"b"]);
    assert!(a.equals(&set_of(&[b"a", b"b"])));
    assert!(!a.equals(&set_of(&[b"a", b"c"])));
    assert!(!a.equals(&set_of(&[b"a"])));
    assert!(!a.equals(&set_of(&[b"a", b"b", b"c"])));
}

#[test]
fn queries_on_a_set() {
    let s = set_of(&[b"abc", b"abd", b"abz", b"bbb"]);
    assert_eq!(
        drain(s.starts_with(b"ab", None, None, None, None)),
        keys(&[b"abc", b"abd", b"abz"])
    );
    assert_eq!(
        drain(s.subsequence(b"bz", None, None, None, None)),
        keys(&[b"abz"])
    );
    assert_eq!(
        drain(s.range(Some(b"abd"), None, None, Some(b"bbb"))),
        keys(&[b"abd", b"abz"])
    );
    assert_eq!(
        drain(s.range(None, Some(b"abd"), Some(b"bbb"), None)),
        keys(&[b"abz", b"bbb"])
    );
    assert_eq!(
        drain(s.starts_with(b"ab", None, Some(b"abc"), None, None)),
        keys(&[b"abd", b"abz"])
    );
    let a = AutomatonGraph::str(b"abd").complement();
    let mut it = s.search(&a, None, None, Some(b"abz"), None);
    let mut got = Vec::new();
    while let Some(k) = it.next() {
        got.push(k);
    }
    assert_eq!(it.next(), None);
    assert_eq!(got, keys(&[b"abc", b"abz"]));
}

#[test]
fn build_refuses_keys_out_of_order_or_twice() {
    let f = |k: &[u8]| Field::Bytes(k.to_vec());
    assert_eq!(FstSet::build(&[f(b"b"), f(b"a")]).err(), Some(Failure::OutOfOrder));
    assert_eq!(FstSet::build(&[f(b"a"), f(b"a")]).err(), Some(Failure::OutOfOrder));
    assert_eq!(FstSet::build(&[f(b""), f(b"")]).err(), Some(Failure::OutOfOrder));
    assert_eq!(FstSet::build(&[f(b"a"), Field::Int(1)]).err(), Some(Failure::ItemKey));
    assert_eq!(FstSet::build(&[Field::Other]).err(), Some(Failure::ItemKey));
}

#[test]
fn writer_keeps_what_it_took() {
    let mut w = SetWriter::new().unwrap();
    assert_eq!(w.insert(b"a"), Ok(()));
    assert_eq!(w.insert(b"a"), Err(Failure::OutOfOrder));
    assert_eq!(w.insert(b"c"), Ok(()));
    assert_eq!(w.insert(b"b"), Err(Failure::OutOfOrder));
    assert_eq!(w.insert_item(&Field::Bytes(b"d".to_vec())), Ok(()));
    let s = FstSet::new(w.finish().unwrap()).unwrap();
    assert_eq!(drain(s.keys()), keys(&[b"a", b"c", b"d"]));
}

#[test]
fn open_refuses_bytes_that_are_no_set() {
    assert_eq!(FstSet::new(Vec::new()).err(), Some(Failure::InvalidData));
    assert_eq!(FstSet::new(vec![7; 40]).err(), Some(Failure::InvalidData));
}

use ducer::automaton::AutomatonGraph;
use ducer::error::Failure;
use ducer::item::{Field, Item};
use ducer::map::{AutomatonIterator, FstMap, ItemIterator, MapWriter};
use ducer::select::Op;

fn item(key: &[u8], value: u64) -> Item {
    Item::Fields(vec![Field::Bytes(key.to_vec()), Field::Int(value)])
}

fn map_of(entries: &[(&[u8], u64)]) -> FstMap {
    let items: Vec<Item> = entries.iter().map(|(k, v)| item(k, *v)).collect();
    let buf = FstMap::build(&items).unwrap();
    FstMap::new(buf.into_vec()).unwrap()
}

fn drain(mut it: ItemIterator) -> Vec<(Vec<u8>, u64)> {
    let mut out = Vec::new();
    while let Some(e) = it.next() {
        out.push(e);
    }
    assert_eq!(it.next(), None);
    out
}

fn drain_search(mut it: AutomatonIterator) -> Vec<(Vec<u8>, u64)> {
    let mut out = Vec::new();
    while let Some(e) = it.next() {
        out.push(e);
    }
    assert_eq!(it.next(), None);
    out
}

fn pairs(entries: &[(&[u8], u64)]) -> Vec<(Vec<u8>, u64)> {
    entries.iter().map(|(k, v)| (k.to_vec(), *v)).collect()
}

#[test]
fn build_open_and_read_three_entries() {
    let m = map_of(&[(b"a", 1), (b"b", 2), (b"c", 3)]);
    assert_eq!(m.len(), 3);
    assert_eq!(m.get(b"b", None), Some(2));
    assert_eq!(drain(m.items()), pairs(&[(b"a", 1), (b"b", 2), (b"c", 3)]));
    assert_eq!(
        drain(m.range(Some(b"b"), None, None, None)),
        pairs(&[(b"b", 2), (b"c", 3)])
    );
}

#[test]
fn get_falls_back_to_default() {
    let m = map_of(&[(b"a", 1), (b"b", 2)]);
    assert_eq!(m.get(b"z", None), None);
    assert_eq!(m.get(b"z", Some(42)), Some(42));
    assert_eq!(m.get(b"a", Some(42)), Some(1));
}

#[test]
fn subscript_reports_missing_key() {
    let m = map_of(&[(b"a", 1)]);
    assert_eq!(m.subscript(b"a"), Ok(1));
    assert_eq!(m.subscript(b"b"), Err(Failure::KeyNotFound));
}

#[test]
fn contains_agrees_with_get() {
    let m = map_of(&[(b"", 7), (b"a", 1), (b"ab", 2)]);
    for key in [&b""[..], b"a", b"ab", b"b", b"abc"] {
        assert_eq!(m.contains(key), m.get(key, None).is_some());
    }
    assert!(m.contains(b""));
    assert!(!m.contains(b"abc"));
}

#[test]
fn keys_and_values_follow_key_order() {
    let m = map_of(&[(b"a", 30), (b"b", 20), (b"c", 10)]);
    let mut keys = m.keys();
    let mut got = Vec::new();
    while let Some(k) = keys.next() {
        got.push(k);
    }
    assert_eq!(got, vec![b"a".to_vec(), b"b".to_vec(), b"c".to_vec()]);
    let mut values = m.values();
    let mut got = Vec::new();
    while let Some(v) = values.next() {
        got.push(v);
    }
    assert_eq!(got, vec![30, 20, 10]);
    assert_eq!(values.next(), None);
}

#[test]
fn prefix_and_subsequence_queries() {
    let m = map_of(&[(b"abc", 10), (b"abd", 20), (b"abz", 30), (b"bbb", 40)]);
    let a = AutomatonGraph::str(b"ab").starts_with();
    assert_eq!(
        drain_search(m.search(&a, None, None, None, None)),
        pairs(&[(b"abc", 10), (b"abd", 20), (b"abz", 30)])
    );
    assert_eq!(
        drain(m.starts_with(b"ab", None, None, None, None)),
        pairs(&[(b"abc", 10), (b"abd", 20), (b"abz", 30)])
    );
    assert_eq!(
        drain(m.subsequence(b"bz", None, None, None, None)),
        pairs(&[(b"abz", 30)])
    );
}

#[test]
fn complement_leaves_out_one_key() {
    let m = map_of(&[(b"bar", 1), (b"foo", 2), (b"fooo", 3), (b"zap", 4)]);
    let a = AutomatonGraph::str(b"foo").complement();
    assert_eq!(
        drain_search(m.search(&a, None, None, None, None)),
        pairs(&[(b"bar", 1), (b"fooo", 3), (b"zap", 4)])
    );
}

#[test]
fn search_with_combined_automata() {
    let m = map_of(&[(b"bar", 1), (b"baz", 2), (b"foo", 3), (b"foobar", 4)]);
    let foo_or_bar = AutomatonGraph::str(b"foo").union(&AutomatonGraph::str(b"bar")).starts_with();
    assert_eq!(
        drain_search(m.search(&foo_or_bar, None, None, None, None)),
        pairs(&[(b"bar", 1), (b"foo", 3), (b"foobar", 4)])
    );
    let both = AutomatonGraph::str(b"ba")
        .starts_with()
        .intersection(&AutomatonGraph::subsequence(b"z"));
    assert_eq!(
        drain_search(m.search(&both, None, None, None, None)),
        pairs(&[(b"baz", 2)])
    );
    assert_eq!(
        drain_search(m.search(&AutomatonGraph::never(), None, None, None, None)),
        pairs(&[])
    );
    assert_eq!(
        drain_search(m.search(&AutomatonGraph::always(), None, None, None, None)).len(),
        4
    );
}

#[test]
fn range_bounds_intersect() {
    let m = map_of(&[(b"a", 1), (b"b", 2), (b"c", 3), (b"d", 4), (b"e", 5)]);
    assert_eq!(
        drain(m.range(None, None, None, Some(b"c"))),
        pairs(&[(b"a", 1), (b"b", 2)])
    );
    assert_eq!(
        drain(m.range(None, Some(b"b"), Some(b"d"), None)),
        pairs(&[(b"c", 3), (b"d", 4)])
    );
    // the tighter of two lower bounds holds, whichever is given as which
    assert_eq!(
        drain(m.range(Some(b"d"), Some(b"a"), None, None)),
        pairs(&[(b"d", 4), (b"e", 5)])
    );
    assert_eq!(
        drain(m.range(Some(b"a"), Some(b"c"), None, None)),
        pairs(&[(b"d", 4), (b"e", 5)])
    );
    // and the tighter of two upper bounds
    assert_eq!(
        drain(m.range(None, None, Some(b"b"), Some(b"e"))),
        pairs(&[(b"a", 1), (b"b", 2)])
    );
    assert_eq!(
        drain(m.range(None, None, Some(b"e"), Some(b"b"))),
        pairs(&[(b"a", 1)])
    );
    assert_eq!(drain(m.range(Some(b"x"), None, None, None)), pairs(&[]));
    assert_eq!(drain(m.range(None, None, None, None)).len(), 5);
}

#[test]
fn bounds_apply_on_top_of_a_search() {
    let m = map_of(&[(b"aa", 1), (b"ab", 2), (b"ac", 3), (b"b", 4)]);
    assert_eq!(
        drain(m.starts_with(b"a", None, Some(b"aa"), None, Some(b"ac"))),
        pairs(&[(b"ab", 2)])
    );
    let a = AutomatonGraph::str(b"a").starts_with();
    assert_eq!(
        drain_search(m.search(&a, Some(b"ab"), None, None, None)),
        pairs(&[(b"ab", 2), (b"ac", 3)])
    );
}

#[test]
fn empty_key_is_a_key() {
    let m = map_of(&[(b"", 5), (b"\x00", 6), (b"a", 7)]);
    assert_eq!(drain(m.items()), pairs(&[(b"", 5), (b"\x00", 6), (b"a", 7)]));
    assert_eq!(
        drain(m.range(None, Some(b""), None, None)),
        pairs(&[(b"\x00", 6), (b"a", 7)])
    );
    assert_eq!(drain(m.range(None, None, Some(b""), None)), pairs(&[(b"", 5)]));
    assert_eq!(drain(m.range(None, None, None, Some(b""))), pairs(&[]));
}

#[test]
fn build_refuses_keys_out_of_order() {
    assert_eq!(
        FstMap::build(&[item(b"b", 1), item(b"a", 2)]).err(),
        Some(Failure::OutOfOrder)
    );
}

#[test]
fn build_refuses_duplicate_keys() {
    assert_eq!(
        FstMap::build(&[item(b"a", 1), item(b"a", 2)]).err(),
        Some(Failure::OutOfOrder)
    );
}

#[test]
fn build_refuses_items_of_wrong_shape() {
    assert_eq!(FstMap::build(&[Item::Other]).err(), Some(Failure::ItemArity));
    assert_eq!(
        FstMap::build(&[Item::Fields(vec![Field::Bytes(b"a".to_vec())])]).err(),
        Some(Failure::ItemArity)
    );
    assert_eq!(
        FstMap::build(&[Item::Fields(vec![Field::Int(1), Field::Int(2)])]).err(),
        Some(Failure::ItemKey)
    );
    assert_eq!(
        FstMap::build(&[Item::Fields(vec![Field::Bytes(b"a".to_vec()), Field::Other])]).err(),
        Some(Failure::ItemValue)
    );
    // the first item that cannot be taken decides
    assert_eq!(
        FstMap::build(&[item(b"b", 1), item(b"a", 2), Item::Other]).err(),
        Some(Failure::OutOfOrder)
    );
}

#[test]
fn open_refuses_bytes_that_are_no_map() {
    assert_eq!(FstMap::new(vec![1, 2, 3]).err(), Some(Failure::InvalidData));
    assert_eq!(FstMap::new(vec![0; 64]).err(), Some(Failure::InvalidData));
}

#[test]
fn maps_of_the_same_items_are_equal() {
    let a = map_of(&[(b"a", 1), (b"b", 2)]);
    let b = map_of(&[(b"a", 1), (b"b", 2)]);
    let c = map_of(&[(b"a", 1), (b"b", 3)]);
    let d = map_of(&[(b"a", 1), (b"c", 2)]);
    let e = map_of(&[(b"a", 1)]);
    assert!(a.equals(&b));
    assert!(a.equals(&a.copy()));
    assert!(!a.equals(&c));
    assert!(!a.equals(&d));
    assert!(!a.equals(&e));
    assert!(map_of(&[]).equals(&map_of(&[])));
}

#[test]
fn union_resolves_values_by_policy() {
    let m1 = map_of(&[(b"k", 1)]);
    let m2 = map_of(&[(b"k", 9)]);
    let open = |op: Op| {
        let buf = m1.union(&[m2.copy()], op).unwrap();
        drain(FstMap::new(buf.into_vec()).unwrap().items())
    };
    assert_eq!(open(Op::Max), pairs(&[(b"k", 9)]));
    assert_eq!(open(Op::First), pairs(&[(b"k", 1)]));
    assert_eq!(open(Op::Avg), pairs(&[(b"k", 5)]));
    assert_eq!(open(Op::Last), pairs(&[(b"k", 9)]));
    assert_eq!(open(Op::Min), pairs(&[(b"k", 1)]));
    assert_eq!(open(Op::Median), pairs(&[(b"k", 5)]));
    assert_eq!(open(Op::Mid), pairs(&[(b"k", 9)]));
}

#[test]
fn first_and_last_go_by_the_order_of_the_maps() {
    let m1 = map_of(&[(b"k", 9)]);
    let m2 = map_of(&[(b"k", 1)]);
    let m3 = map_of(&[(b"k", 5)]);
    let open = |op: Op| {
        let buf = m1.union(&[m2.copy(), m3.copy()], op).unwrap();
        drain(FstMap::new(buf.into_vec()).unwrap().items())
    };
    assert_eq!(open(Op::First), pairs(&[(b"k", 9)]));
    assert_eq!(open(Op::Mid), pairs(&[(b"k", 1)]));
    assert_eq!(open(Op::Last), pairs(&[(b"k", 5)]));
    assert_eq!(open(Op::Median), pairs(&[(b"k", 5)]));
}

#[test]
fn set_algebra_on_maps() {
    let a = map_of(&[(b"a", 1), (b"b", 2), (b"c", 3)]);
    let b = map_of(&[(b"b", 20), (b"c", 30), (b"d", 40)]);
    let open = |buf: ducer::buffer::Buffer| drain(FstMap::new(buf.into_vec()).unwrap().items());
    assert_eq!(
        open(a.union(&[b.copy()], Op::Last).unwrap()),
        pairs(&[(b"a", 1), (b"b", 20), (b"c", 30), (b"d", 40)])
    );
    assert_eq!(
        open(a.intersection(&[b.copy()], Op::First).unwrap()),
        pairs(&[(b"b", 2), (b"c", 3)])
    );
    assert_eq!(
        open(a.difference(&[b.copy()], Op::Last).unwrap()),
        pairs(&[(b"a", 1)])
    );
    assert_eq!(
        open(a.symmetric_difference(&[b.copy()], Op::Last).unwrap()),
        pairs(&[(b"a", 1), (b"d", 40)])
    );
    // with itself
    assert_eq!(open(a.union(&[a.copy()], Op::Avg).unwrap()), drain(a.items()));
    assert_eq!(open(a.intersection(&[a.copy()], Op::Median).unwrap()), drain(a.items()));
    assert_eq!(open(a.difference(&[a.copy()], Op::Last).unwrap()), pairs(&[]));
    // alone
    assert_eq!(open(a.union(&[], Op::Last).unwrap()), drain(a.items()));
    assert_eq!(open(a.difference(&[], Op::Last).unwrap()), drain(a.items()));
}

#[test]
fn symmetric_difference_keeps_keys_of_an_odd_number_of_maps() {
    let a = map_of(&[(b"a", 1), (b"x", 1)]);
    let b = map_of(&[(b"b", 2), (b"x", 2)]);
    let c = map_of(&[(b"c", 3), (b"x", 3)]);
    let buf = a.symmetric_difference(&[b, c], Op::Max).unwrap();
    assert_eq!(
        drain(FstMap::new(buf.into_vec()).unwrap().items()),
        pairs(&[(b"a", 1), (b"b", 2), (b"c", 3), (b"x", 3)])
    );
}

#[test]
fn search_under_combinations_combines_the_searches() {
    let m = map_of(&[
        (b"", 0),
        (b"a", 1),
        (b"ab", 2),
        (b"abz", 3),
        (b"b", 4),
        (b"bz", 5),
        (b"za", 6),
    ]);
    let a = || AutomatonGraph::str(b"a").starts_with();
    let b = || AutomatonGraph::subsequence(b"z");
    let found_a = drain_search(m.search(&a(), None, None, None, None));
    let found_b = drain_search(m.search(&b(), None, None, None, None));
    let both: Vec<_> = found_a.iter().filter(|e| found_b.contains(e)).cloned().collect();
    let either: Vec<_> = drain(m.items())
        .into_iter()
        .filter(|e| found_a.contains(e) || found_b.contains(e))
        .collect();
    let neither_a: Vec<_> = drain(m.items())
        .into_iter()
        .filter(|e| !found_a.contains(e))
        .collect();
    assert_eq!(
        drain_search(m.search(&a().intersection(&b()), None, None, None, None)),
        both
    );
    assert_eq!(both, pairs(&[(b"abz", 3)]));
    assert_eq!(
        drain_search(m.search(&a().union(&b()), None, None, None, None)),
        either
    );
    assert_eq!(either.len(), 5);
    assert_eq!(
        drain_search(m.search(&a().complement(), None, None, None, None)),
        neither_a
    );
    assert_eq!(neither_a, pairs(&[(b"", 0), (b"b", 4), (b"bz", 5), (b"za", 6)]));
}

#[test]
fn merges_of_one_map_alone() {
    let a = map_of(&[(b"a", 1), (b"b", 2)]);
    let open = |buf: ducer::buffer::Buffer| drain(FstMap::new(buf.into_vec()).unwrap().items());
    assert_eq!(open(a.intersection(&[], Op::Last).unwrap()), drain(a.items()));
    assert_eq!(open(a.symmetric_difference(&[], Op::Last).unwrap()), drain(a.items()));
}

#[test]
fn iterating_a_map_yields_its_keys() {
    let m = map_of(&[(b"x", 1), (b"y", 2)]);
    let mut it = m.iter();
    assert_eq!(it.next(), Some(b"x".to_vec()));
    assert_eq!(it.next(), Some(b"y".to_vec()));
    assert_eq!(it.next(), None);
    assert_eq!(it.next(), None);
}

#[test]
fn writer_takes_entries_one_by_one() {
    let mut w = MapWriter::new().unwrap();
    assert_eq!(w.insert(b"a", 1), Ok(()));
    assert_eq!(w.insert(b"a", 2), Err(Failure::OutOfOrder));
    assert_eq!(w.insert_item(&Item::Other), Err(Failure::ItemArity));
    assert_eq!(w.insert_item(&item(b"b", 3)), Ok(()));
    let m = FstMap::new(w.finish().unwrap()).unwrap();
    assert_eq!(drain(m.items()), pairs(&[(b"a", 1), (b"b", 3)]));
}

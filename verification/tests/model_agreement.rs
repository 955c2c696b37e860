use ducer::automaton::AutomatonGraph;
use ducer::item::{Field, Item};
use ducer::map::FstMap;
use ducer::select::Op;
use ducer::set::FstSet;
use std::collections::BTreeMap;

/// A small deterministic generator of pseudo-random numbers.
struct Gen(u64);

impl Gen {
    fn next(&mut self) -> u64 {
        self.0 = self.0.wrapping_mul(6364136223846793005).wrapping_add(1442695040888963407);
        self.0 >> 33
    }

    fn below(&mut self, n: u64) -> u64 {
        self.next() % n
    }

    fn key(&mut self) -> Vec<u8> {
        let len = self.below(5);
        (0..len).map(|_| b"ab\x00\xff"[self.below(4) as usize]).collect()
    }

    fn bound(&mut self) -> Option<Vec<u8>> {
        if self.below(3) == 0 {
            None
        } else {
            Some(self.key())
        }
    }

    fn entries(&mut self) -> BTreeMap<Vec<u8>, u64> {
        let n = self.below(12);
        (0..n).map(|_| (self.key(), self.below(1000))).collect()
    }
}

/// An automaton as a plain predicate beside the graph that is searched with.
#[derive(Clone)]
enum Shape {
    Never,
    Always,
    Str(Vec<u8>),
    Subsequence(Vec<u8>),
    StartsWith(Box<Shape>),
    Complement(Box<Shape>),
    Intersection(Box<Shape>, Box<Shape>),
    Union(Box<Shape>, Box<Shape>),
}

fn shape(g: &mut Gen, depth: u64) -> Shape {
    let leaf = depth == 0;
    match g.below(if leaf { 4 } else { 8 }) {
        0 => Shape::Never,
        1 => Shape::Always,
        2 => Shape::Str(g.key()),
        3 => Shape::Subsequence(g.key()),
        4 => Shape::StartsWith(Box::new(shape(g, depth - 1))),
        5 => Shape::Complement(Box::new(shape(g, depth - 1))),
        6 => Shape::Intersection(Box::new(shape(g, depth - 1)), Box::new(shape(g, depth - 1))),
        _ => Shape::Union(Box::new(shape(g, depth - 1)), Box::new(shape(g, depth - 1))),
    }
}

fn graph(s: &Shape) -> AutomatonGraph {
    match s {
        Shape::Never => AutomatonGraph::never(),
        Shape::Always => AutomatonGraph::always(),
        Shape::Str(p) => AutomatonGraph::str(p),
        Shape::Subsequence(p) => AutomatonGraph::subsequence(p),
        Shape::StartsWith(c) => graph(c).starts_with(),
        Shape::Complement(c) => graph(c).complement(),
        Shape::Intersection(l, r) => graph(l).intersection(&graph(r)),
        Shape::Union(l, r) => graph(l).union(&graph(r)),
    }
}

fn is_subsequence(p: &[u8], k: &[u8]) -> bool {
    let mut found = 0;
    for b in k {
        if found < p.len() && p[found] == *b {
            found += 1;
        }
    }
    found == p.len()
}

fn accepts(s: &Shape, k: &[u8]) -> bool {
    match s {
        Shape::Never => false,
        Shape::Always => true,
        Shape::Str(p) => p.as_slice() == k,
        Shape::Subsequence(p) => is_subsequence(p, k),
        Shape::StartsWith(c) => (0..=k.len()).any(|n| accepts(c, &k[..n])),
        Shape::Complement(c) => !accepts(c, k),
        Shape::Intersection(l, r) => accepts(l, k) && accepts(r, k),
        Shape::Union(l, r) => accepts(l, k) || accepts(r, k),
    }
}

fn bounded(
    k: &[u8],
    ge: &Option<Vec<u8>>,
    gt: &Option<Vec<u8>>,
    le: &Option<Vec<u8>>,
    lt: &Option<Vec<u8>>,
) -> bool {
    ge.as_ref().map_or(true, |x| x.as_slice() <= k)
        && gt.as_ref().map_or(true, |x| x.as_slice() < k)
        && le.as_ref().map_or(true, |x| k <= x.as_slice())
        && lt.as_ref().map_or(true, |x| k < x.as_slice())
}

fn map_of(entries: &BTreeMap<Vec<u8>, u64>) -> FstMap {
    let items: Vec<Item> = entries
        .iter()
        .map(|(k, v)| Item::Fields(vec![Field::Bytes(k.clone()), Field::Int(*v)]))
        .collect();
    FstMap::new(FstMap::build(&items).unwrap().into_vec()).unwrap()
}

fn set_of(entries: &BTreeMap<Vec<u8>, u64>) -> FstSet {
    let items: Vec<Field> = entries.keys().map(|k| Field::Bytes(k.clone())).collect();
    FstSet::new(FstSet::build(&items).unwrap().into_vec()).unwrap()
}

fn entries_of(m: &FstMap) -> Vec<(Vec<u8>, u64)> {
    let mut it = m.items();
    let mut out = Vec::new();
    while let Some(e) = it.next() {
        out.push(e);
    }
    out
}

fn keys_of(s: &FstSet) -> Vec<Vec<u8>> {
    let mut it = s.keys();
    let mut out = Vec::new();
    while let Some(k) = it.next() {
        out.push(k);
    }
    out
}

#[test]
fn reads_agree_with_a_plain_map() {
    let mut g = Gen(1);
    for _ in 0..200 {
        let entries = g.entries();
        let m = map_of(&entries);
        assert_eq!(m.len(), entries.len());
        let plain: Vec<(Vec<u8>, u64)> = entries.iter().map(|(k, v)| (k.clone(), *v)).collect();
        assert_eq!(entries_of(&m), plain);
        for _ in 0..10 {
            let k = g.key();
            assert_eq!(m.get(&k, None), entries.get(&k).copied());
            assert_eq!(m.contains(&k), entries.contains_key(&k));
        }
    }
}

#[test]
fn bounded_searches_agree_with_a_plain_filter() {
    let mut g = Gen(2);
    for _ in 0..400 {
        let entries = g.entries();
        let m = map_of(&entries);
        let s = set_of(&entries);
        let a = shape(&mut g, 3);
        let (ge, gt, le, lt) = (g.bound(), g.bound(), g.bound(), g.bound());
        let expect: Vec<(Vec<u8>, u64)> = entries
            .iter()
            .filter(|(k, _)| accepts(&a, k) && bounded(k, &ge, &gt, &le, &lt))
            .map(|(k, v)| (k.clone(), *v))
            .collect();
        let (lo, hi) = (ge.as_deref(), gt.as_deref());
        let mut it = m.search(&graph(&a), lo, hi, le.as_deref(), lt.as_deref());
        let mut got = Vec::new();
        while let Some(e) = it.next() {
            got.push(e);
        }
        assert_eq!(got, expect);
        let mut it = s.search(&graph(&a), lo, hi, le.as_deref(), lt.as_deref());
        let mut got = Vec::new();
        while let Some(k) = it.next() {
            got.push(k);
        }
        let expect_keys: Vec<Vec<u8>> = expect.into_iter().map(|(k, _)| k).collect();
        assert_eq!(got, expect_keys);
    }
}

#[test]
fn ranges_prefixes_and_subsequences_agree_with_a_plain_filter() {
    let mut g = Gen(3);
    for _ in 0..400 {
        let entries = g.entries();
        let m = map_of(&entries);
        let p = g.key();
        let (ge, gt, le, lt) = (g.bound(), g.bound(), g.bound(), g.bound());
        let plain = |keep: &dyn Fn(&[u8]) -> bool| -> Vec<(Vec<u8>, u64)> {
            entries
                .iter()
                .filter(|(k, _)| keep(k) && bounded(k, &ge, &gt, &le, &lt))
                .map(|(k, v)| (k.clone(), *v))
                .collect()
        };
        let drain = |mut it: ducer::map::ItemIterator| {
            let mut out = Vec::new();
            while let Some(e) = it.next() {
                out.push(e);
            }
            out
        };
        assert_eq!(
            drain(m.range(ge.as_deref(), gt.as_deref(), le.as_deref(), lt.as_deref())),
            plain(&|_| true)
        );
        assert_eq!(
            drain(m.starts_with(&p, ge.as_deref(), gt.as_deref(), le.as_deref(), lt.as_deref())),
            plain(&|k| k.starts_with(&p))
        );
        assert_eq!(
            drain(m.subsequence(&p, ge.as_deref(), gt.as_deref(), le.as_deref(), lt.as_deref())),
            plain(&|k| is_subsequence(&p, k))
        );
    }
}

fn select(op: Op, values: &[u64]) -> u64 {
    let mut sorted = values.to_vec();
    sorted.sort();
    let n = values.len();
    match op {
        Op::First => values[0],
        Op::Mid => values[n / 2],
        Op::Last => values[n - 1],
        Op::Min => sorted[0],
        Op::Max => sorted[n - 1],
        Op::Avg => values.iter().sum::<u64>() / n as u64,
        Op::Median => {
            if n % 2 == 1 {
                sorted[n / 2]
            } else {
                (sorted[n / 2 - 1] + sorted[n / 2]) / 2
            }
        }
    }
}

#[test]
fn merges_agree_with_a_plain_merge() {
    let ops = [Op::First, Op::Mid, Op::Last, Op::Min, Op::Max, Op::Avg, Op::Median];
    let mut g = Gen(4);
    for round in 0..300 {
        let n = 1 + g.below(4) as usize;
        let inputs: Vec<BTreeMap<Vec<u8>, u64>> = (0..n).map(|_| g.entries()).collect();
        let maps: Vec<FstMap> = inputs.iter().map(map_of).collect();
        let sets: Vec<FstSet> = inputs.iter().map(set_of).collect();
        let op = ops[round % ops.len()];
        let mut all: BTreeMap<Vec<u8>, Vec<u64>> = BTreeMap::new();
        for input in &inputs {
            for (k, v) in input {
                all.entry(k.clone()).or_default().push(*v);
            }
        }
        let plain = |keep: &dyn Fn(&[u8], usize) -> bool| -> Vec<(Vec<u8>, u64)> {
            all.iter()
                .filter(|(k, vs)| keep(k, vs.len()))
                .map(|(k, vs)| (k.clone(), select(op, vs)))
                .collect()
        };
        let open = |buf: ducer::buffer::Buffer| entries_of(&FstMap::new(buf.into_vec()).unwrap());
        let open_set = |buf: ducer::buffer::Buffer| keys_of(&FstSet::new(buf.into_vec()).unwrap());
        let keys =
            |es: &[(Vec<u8>, u64)]| -> Vec<Vec<u8>> { es.iter().map(|e| e.0.clone()).collect() };

        let expect = plain(&|_, c| c >= 1);
        assert_eq!(open(maps[0].union(&maps[1..], op).unwrap()), expect);
        assert_eq!(open_set(sets[0].union(&sets[1..]).unwrap()), keys(&expect));

        let expect = plain(&|_, c| c == n);
        assert_eq!(open(maps[0].intersection(&maps[1..], op).unwrap()), expect);
        assert_eq!(open_set(sets[0].intersection(&sets[1..]).unwrap()), keys(&expect));

        let expect = plain(&|k, c| c == 1 && inputs[0].contains_key(k));
        assert_eq!(open(maps[0].difference(&maps[1..], op).unwrap()), expect);
        assert_eq!(open_set(sets[0].difference(&sets[1..]).unwrap()), keys(&expect));

        let expect = plain(&|_, c| c % 2 == 1);
        assert_eq!(open(maps[0].symmetric_difference(&maps[1..], op).unwrap()), expect);
        assert_eq!(
            open_set(sets[0].symmetric_difference(&sets[1..]).unwrap()),
            keys(&expect)
        );
    }
}

#[test]
fn set_relations_agree_with_plain_sets() {
    let mut g = Gen(5);
    for _ in 0..300 {
        let a = g.entries();
        let mut b = g.entries();
        if g.below(3) == 0 {
            // make inclusion likely now and then
            b.extend(a.clone());
        }
        let (sa, sb) = (set_of(&a), set_of(&b));
        let sub = a.keys().all(|k| b.contains_key(k));
        let sup = b.keys().all(|k| a.contains_key(k));
        assert_eq!(sa.issubset(&sb), sub);
        assert_eq!(sa.issuperset(&sb), sup);
        assert_eq!(sa.le(&sb), sub);
        assert_eq!(sa.ge(&sb), sup);
        assert_eq!(sa.lt(&sb), sub && !sup);
        assert_eq!(sa.gt(&sb), sup && !sub);
        assert_eq!(sa.equals(&sb), sub && sup);
        assert_eq!(sa.isdisjoint(&sb), !a.keys().any(|k| b.contains_key(k)));
        assert_eq!(map_of(&a).equals(&map_of(&b)), a == b);
    }
}

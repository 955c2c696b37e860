//! How one value is chosen for a key that several merged maps hold.

use vstd::prelude::*;
use vstd::relations::{sorted_by, total_ordering};
use vstd::seq_lib::lemma_sorted_unique;

verus! {

/// The policy by which a value is chosen among those that the merged maps
/// hold for one key. Positions refer to the maps in the order they were
/// given.
#[derive(Debug, Clone, Copy, PartialEq, Eq, Structural)]
pub enum Op {
    /// The value of the first map that holds the key.
    First,
    /// The value in the middle, `values[len / 2]`.
    Mid,
    /// The value of the last map that holds the key.
    Last,
    /// The least value.
    Min,
    /// The greatest value.
    Max,
    /// The integer mean, `sum / len`.
    Avg,
    /// With the values sorted and `mid = len / 2`: `values[mid]` for an odd
    /// number of values, else `(values[mid - 1] + values[mid]) / 2`.
    Median,
}

/// A value together with the position of the map it comes from.
#[derive(Debug, Clone, Copy, PartialEq, Eq, Structural)]
pub struct IndexedValue {
    /// The position of the map among those merged, from 0.
    pub index: usize,
    /// The value that this map holds for the key.
    pub value: u64,
}

/// The values of a list of occurrences, in the order of the list.
pub open spec fn values_of(posval: Seq<IndexedValue>) -> Seq<u64> {
    posval.map_values(|iv: IndexedValue| iv.value)
}

/// The least of the values.
pub open spec fn seq_min(s: Seq<u64>) -> u64
    recommends
        s.len() > 0,
    decreases s.len(),
{
    if s.len() <= 1 {
        s[0]
    } else if s.last() < seq_min(s.drop_last()) {
        s.last()
    } else {
        seq_min(s.drop_last())
    }
}

/// The greatest of the values.
pub open spec fn seq_max(s: Seq<u64>) -> u64
    recommends
        s.len() > 0,
    decreases s.len(),
{
    if s.len() <= 1 {
        s[0]
    } else if s.last() > seq_max(s.drop_last()) {
        s.last()
    } else {
        seq_max(s.drop_last())
    }
}

/// The sum of the values.
pub open spec fn seq_sum(s: Seq<u64>) -> nat
    decreases s.len(),
{
    if s.len() == 0 {
        0
    } else {
        seq_sum(s.drop_last()) + s.last() as nat
    }
}

/// The order of the values.
pub open spec fn leq_u64() -> spec_fn(u64, u64) -> bool {
    |a: u64, b: u64| a <= b
}

/// The values in ascending order.
pub open spec fn ascending(s: Seq<u64>) -> Seq<u64> {
    s.sort_by(leq_u64())
}

/// The median of the values: the middle one of the sorted values, or the
/// mean of the two in the middle, rounded down.
pub open spec fn seq_median(s: Seq<u64>) -> u64
    recommends
        s.len() > 0,
{
    let t = ascending(s);
    let mid = s.len() as int / 2;
    if s.len() % 2 == 1 {
        t[mid]
    } else {
        ((t[mid - 1] + t[mid]) / 2) as u64
    }
}

/// The value that the policy chooses among `values`, which are in the order
/// of the maps they come from.
pub open spec fn spec_select(op: Op, values: Seq<u64>) -> u64
    recommends
        values.len() > 0,
{
    match op {
        Op::First => values.first(),
        Op::Mid => values[values.len() as int / 2],
        Op::Last => values.last(),
        Op::Min => seq_min(values),
        Op::Max => seq_max(values),
        Op::Avg => (seq_sum(values) / values.len()) as u64,
        Op::Median => seq_median(values),
    }
}

/// The least value is one of the values and none is below it.
pub proof fn lemma_seq_min(s: Seq<u64>)
    requires
        s.len() > 0,
    ensures
        s.contains(seq_min(s)),
        forall|i: int| 0 <= i < s.len() ==> seq_min(s) <= s[i],
    decreases s.len(),
{
    if s.len() > 1 {
        let t = s.drop_last();
        lemma_seq_min(t);
        let j = choose|j: int| 0 <= j < t.len() && t[j] == seq_min(t);
        assert(s[j] == t[j]);
        assert(s[s.len() - 1] == s.last());
        assert forall|i: int| 0 <= i < s.len() implies seq_min(s) <= s[i] by {
            if i < t.len() {
                assert(s[i] == t[i]);
            }
        }
    } else {
        assert(s[0] == seq_min(s));
    }
}

/// The greatest value is one of the values and none is above it.
pub proof fn lemma_seq_max(s: Seq<u64>)
    requires
        s.len() > 0,
    ensures
        s.contains(seq_max(s)),
        forall|i: int| 0 <= i < s.len() ==> seq_max(s) >= s[i],
    decreases s.len(),
{
    if s.len() > 1 {
        let t = s.drop_last();
        lemma_seq_max(t);
        let j = choose|j: int| 0 <= j < t.len() && t[j] == seq_max(t);
        assert(s[j] == t[j]);
        assert(s[s.len() - 1] == s.last());
        assert forall|i: int| 0 <= i < s.len() implies seq_max(s) >= s[i] by {
            if i < t.len() {
                assert(s[i] == t[i]);
            }
        }
    } else {
        assert(s[0] == seq_max(s));
    }
}

proof fn lemma_seq_sum_bound(s: Seq<u64>)
    ensures
        seq_sum(s) <= s.len() * u64::MAX,
    decreases s.len(),
{
    if s.len() > 0 {
        lemma_seq_sum_bound(s.drop_last());
        assert((s.len() - 1) * u64::MAX + u64::MAX == s.len() * u64::MAX) by (nonlinear_arith);
    }
}

pub proof fn lemma_leq_u64_total()
    ensures
        total_ordering(leq_u64()),
{
    let r = leq_u64();
    assert(vstd::relations::reflexive(r));
    assert(vstd::relations::antisymmetric(r));
    assert(vstd::relations::transitive(r));
    assert(vstd::relations::strongly_connected(r));
}

/// The values in ascending order.
fn sort_values(posval: &[IndexedValue]) -> (r: Vec<u64>)
    ensures
        r@ == ascending(values_of(posval@)),
{
    let ghost values = values_of(posval@);
    let mut sorted: Vec<u64> = Vec::with_capacity(posval.len());
    let mut i: usize = 0;
    assert(sorted@ =~= values.take(0));
    while i < posval.len()
        invariant
            i <= posval@.len(),
            values == values_of(posval@),
            sorted@.len() == i,
            sorted@.to_multiset() == values.take(i as int).to_multiset(),
            sorted_by(sorted@, leq_u64()),
        decreases posval@.len() - i,
    {
        let v = posval[i].value;
        let mut p: usize = 0;
        while p < sorted.len() && sorted[p] <= v
            invariant
                p <= sorted@.len(),
                forall|j: int| 0 <= j < p ==> sorted@[j] <= v,
            decreases sorted@.len() - p,
        {
            p += 1;
        }
        let ghost before = sorted@;
        sorted.insert(p, v);
        proof {
            vstd::seq_lib::to_multiset_insert(before, p as int, v);
            vstd::seq_lib::to_multiset_build(values.take(i as int), v);
            assert(values.take(i + 1) =~= values.take(i as int).push(v));
            assert forall|a: int, b: int| 0 <= a < b < sorted@.len() implies (leq_u64())(
                sorted@[a],
                sorted@[b],
            ) by {
                let x = if a < p { a } else { a - 1 };
                let y = if b < p { b } else { b - 1 };
                if a != p && b != p {
                    assert((leq_u64())(before[x], before[y]));
                } else if a == p {
                    assert((leq_u64())(before[p as int], before[y]));
                }
            }
        }
        i += 1;
    }
    proof {
        assert(values.take(i as int) =~= values);
        lemma_leq_u64_total();
        values.lemma_sort_by_ensures(leq_u64());
        lemma_sorted_unique(sorted@, ascending(values), leq_u64());
    }
    sorted
}

/// Chooses one value among those of `posval`, which holds an entry for each
/// map that has the key, in the order of the maps.
pub fn select_value(sf: Op, posval: &[IndexedValue]) -> (r: u64)
    requires
        posval@.len() > 0,
    ensures
        r == spec_select(sf, values_of(posval@)),
{
    let ghost values = values_of(posval@);
    let n = posval.len();
    match sf {
        Op::First => posval[0].value,
        Op::Mid => posval[n / 2].value,
        Op::Last => posval[n - 1].value,
        Op::Min => {
            let mut m = posval[0].value;
            let mut i: usize = 1;
            assert(values.take(1)[0] == values[0]);
            while i < n
                invariant
                    1 <= i <= n == posval@.len(),
                    values == values_of(posval@),
                    m == seq_min(values.take(i as int)),
                decreases n - i,
            {
                proof {
                    assert(values.take(i + 1).drop_last() =~= values.take(i as int));
                }
                if posval[i].value < m {
                    m = posval[i].value;
                }
                i += 1;
            }
            assert(values.take(n as int) =~= values);
            m
        },
        Op::Max => {
            let mut m = posval[0].value;
            let mut i: usize = 1;
            assert(values.take(1)[0] == values[0]);
            while i < n
                invariant
                    1 <= i <= n == posval@.len(),
                    values == values_of(posval@),
                    m == seq_max(values.take(i as int)),
                decreases n - i,
            {
                proof {
                    assert(values.take(i + 1).drop_last() =~= values.take(i as int));
                }
                if posval[i].value > m {
                    m = posval[i].value;
                }
                i += 1;
            }
            assert(values.take(n as int) =~= values);
            m
        },
        Op::Avg => {
            let mut sum: u128 = 0;
            let mut i: usize = 0;
            while i < n
                invariant
                    i <= n == posval@.len(),
                    values == values_of(posval@),
                    sum == seq_sum(values.take(i as int)),
                decreases n - i,
            {
                proof {
                    assert(values.take(i + 1).drop_last() =~= values.take(i as int));
                    lemma_seq_sum_bound(values.take(i + 1));
                    assert((i + 1) * u64::MAX <= usize::MAX * u64::MAX) by (nonlinear_arith)
                        requires
                            i + 1 <= usize::MAX,
                    ;
                }
                sum = sum + posval[i].value as u128;
                i += 1;
            }
            proof {
                assert(values.take(n as int) =~= values);
                lemma_seq_sum_bound(values);
                assert(sum / (n as u128) <= u64::MAX) by (nonlinear_arith)
                    requires
                        n > 0,
                        sum <= n * u64::MAX,
                ;
            }
            (sum / (n as u128)) as u64
        },
        Op::Median => {
            let sorted = sort_values(posval);
            proof {
                lemma_leq_u64_total();
                values.lemma_sort_by_ensures(leq_u64());
                vstd::seq_lib::to_multiset_len(values);
                vstd::seq_lib::to_multiset_len(sorted@);
            }
            let mid = n / 2;
            if n % 2 == 1 {
                // odd length
                sorted[mid]
            } else {
                // even length
                ((sorted[mid - 1] as u128 + sorted[mid] as u128) / 2) as u64
            }
        },
    }
}

/// The order of occurrences: by the position of the map, then by value.
pub open spec fn leq_indexed() -> spec_fn(IndexedValue, IndexedValue) -> bool {
    |a: IndexedValue, b: IndexedValue|
        a.index < b.index || (a.index == b.index && a.value <= b.value)
}

pub proof fn lemma_leq_indexed_total()
    ensures
        total_ordering(leq_indexed()),
{
    let r = leq_indexed();
    assert(vstd::relations::reflexive(r));
    assert(vstd::relations::antisymmetric(r)) by {
        assert forall|x: IndexedValue, y: IndexedValue| #[trigger]
            r(x, y) && #[trigger] r(y, x) implies x == y by {}
    }
    assert(vstd::relations::transitive(r));
    assert(vstd::relations::strongly_connected(r));
}

/// The occurrences in the order of the maps they come from.
pub fn order_by_index(occ: &Vec<IndexedValue>) -> (r: Vec<IndexedValue>)
    ensures
        r@.to_multiset() == occ@.to_multiset(),
        sorted_by(r@, leq_indexed()),
{
    let mut sorted: Vec<IndexedValue> = Vec::with_capacity(occ.len());
    let mut i: usize = 0;
    assert(sorted@ =~= occ@.take(0));
    while i < occ.len()
        invariant
            i <= occ@.len(),
            sorted@.len() == i,
            sorted@.to_multiset() == occ@.take(i as int).to_multiset(),
            sorted_by(sorted@, leq_indexed()),
        decreases occ@.len() - i,
    {
        let v = occ[i];
        let mut p: usize = 0;
        while p < sorted.len() && (sorted[p].index < v.index || (sorted[p].index == v.index
            && sorted[p].value <= v.value))
            invariant
                p <= sorted@.len(),
                forall|j: int| 0 <= j < p ==> (leq_indexed())(sorted@[j], v),
            decreases sorted@.len() - p,
        {
            p += 1;
        }
        let ghost before = sorted@;
        sorted.insert(p, v);
        proof {
            vstd::seq_lib::to_multiset_insert(before, p as int, v);
            vstd::seq_lib::to_multiset_build(occ@.take(i as int), v);
            assert(occ@.take(i + 1) =~= occ@.take(i as int).push(v));
            lemma_leq_indexed_total();
            assert forall|a: int, b: int| 0 <= a < b < sorted@.len() implies (leq_indexed())(
                sorted@[a],
                sorted@[b],
            ) by {
                let x = if a < p { a } else { a - 1 };
                let y = if b < p { b } else { b - 1 };
                if a != p && b != p {
                    assert((leq_indexed())(before[x], before[y]));
                } else if a == p {
                    assert((leq_indexed())(before[p as int], before[y]));
                    assert(!(leq_indexed())(before[p as int], v));
                    assert((leq_indexed())(v, before[p as int]));
                }
            }
        }
        i += 1;
    }
    assert(occ@.take(i as int) =~= occ@);
    sorted
}

} // verus!

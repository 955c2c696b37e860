//! Set algebra over several containers: which keys an operation keeps, and
//! what the containers hold for a kept key.

use crate::bytes::{
    lemma_before_successor, lemma_lex_irreflexive, lemma_lex_le_transitive, lemma_lex_lt_le,
    lemma_lex_trichotomy, lemma_successor, lex_le, lex_lt, successor,
};
use crate::entries::{ascending, holds, lookup, position, Keyed};
use crate::select::{leq_indexed, spec_select, values_of, IndexedValue, Op};
use vstd::prelude::*;
use vstd::relations::sorted_by;

verus! {

/// An operation of set algebra over the keys of several containers.
#[derive(Debug, Clone, Copy, PartialEq, Eq, Structural)]
pub enum SetOp {
    /// The keys of any container.
    Union,
    /// The keys that all containers share.
    Intersection,
    /// The keys of the first container that no other has.
    Difference,
    /// The keys that an odd number of containers have.
    SymmetricDifference,
}

/// The number of containers that have the key `k`.
pub open spec fn count_holding<T: Keyed>(inputs: Seq<Seq<T>>, k: Seq<u8>) -> nat
    decreases inputs.len(),
{
    if inputs.len() == 0 {
        0
    } else {
        count_holding(inputs.drop_last(), k) + if holds(inputs.last(), k) {
            1nat
        } else {
            0nat
        }
    }
}

/// The operation keeps the key `k`.
pub open spec fn kept<T: Keyed>(op: SetOp, inputs: Seq<Seq<T>>, k: Seq<u8>) -> bool {
    match op {
        SetOp::Union => count_holding(inputs, k) >= 1,
        SetOp::Intersection => count_holding(inputs, k) == inputs.len(),
        SetOp::Difference => inputs.len() > 0 && holds(inputs[0], k) && count_holding(inputs, k)
            == 1,
        SetOp::SymmetricDifference => count_holding(inputs, k) % 2 == 1,
    }
}

/// `k` is the first key at or after `from` that the operation keeps.
pub open spec fn is_next_kept<T: Keyed>(
    op: SetOp,
    inputs: Seq<Seq<T>>,
    from: Seq<u8>,
    k: Seq<u8>,
) -> bool {
    &&& lex_le(from, k)
    &&& kept(op, inputs, k)
    &&& forall|x: Seq<u8>| lex_le(from, x) && #[trigger] kept(op, inputs, x) ==> lex_le(k, x)
}

/// The operation keeps no key at or after `from`.
pub open spec fn none_kept<T: Keyed>(op: SetOp, inputs: Seq<Seq<T>>, from: Seq<u8>) -> bool {
    forall|x: Seq<u8>| lex_le(from, x) ==> !#[trigger] kept(op, inputs, x)
}

/// What the maps hold for the key `k`: for each map that has it, in the
/// order of the maps, the position of the map and its value.
pub open spec fn occurrences(inputs: Seq<Seq<(Seq<u8>, u64)>>, k: Seq<u8>) -> Seq<IndexedValue>
    decreases inputs.len(),
{
    if inputs.len() == 0 {
        Seq::empty()
    } else {
        let before = occurrences(inputs.drop_last(), k);
        match lookup(inputs.last(), k) {
            Some(v) => before.push(IndexedValue { index: (inputs.len() - 1) as usize, value: v }),
            None => before,
        }
    }
}

/// One step of a merge of maps from `from` on gave `r`: nothing, where the
/// operation keeps no key from there on; else the first key it keeps and
/// what the maps hold for it, in any order.
pub open spec fn map_merge_step(
    op: SetOp,
    inputs: Seq<Seq<(Seq<u8>, u64)>>,
    from: Seq<u8>,
    r: Option<(Vec<u8>, Vec<IndexedValue>)>,
) -> bool {
    match r {
        None => none_kept(op, inputs, from),
        Some((k, occ)) => is_next_kept(op, inputs, from, k@) && occ@.to_multiset()
            == occurrences(inputs, k@).to_multiset(),
    }
}

/// One step of a merge of sets from `from` on gave `r`: nothing, where the
/// operation keeps no key from there on; else the first key it keeps.
pub open spec fn set_merge_step(
    op: SetOp,
    inputs: Seq<Seq<Seq<u8>>>,
    from: Seq<u8>,
    r: Option<Vec<u8>>,
) -> bool {
    match r {
        None => none_kept(op, inputs, from),
        Some(k) => is_next_kept(op, inputs, from, k@),
    }
}

/// The number of items of `s` whose keys are at or after `from`.
pub open spec fn count_from<T: Keyed>(s: Seq<T>, from: Seq<u8>) -> nat
    decreases s.len(),
{
    if s.len() == 0 {
        0
    } else {
        count_from(s.drop_last(), from) + if lex_le(from, s.last().key()) {
            1nat
        } else {
            0nat
        }
    }
}

/// The number of items, over all containers, whose keys are at or after
/// `from`: what a merge from `from` on has yet to look at.
pub open spec fn pending<T: Keyed>(inputs: Seq<Seq<T>>, from: Seq<u8>) -> nat
    decreases inputs.len(),
{
    if inputs.len() == 0 {
        0
    } else {
        pending(inputs.drop_last(), from) + count_from(inputs.last(), from)
    }
}

proof fn lemma_count_mono<T: Keyed>(s: Seq<T>, a: Seq<u8>, b: Seq<u8>)
    requires
        lex_le(a, b),
    ensures
        count_from(s, b) <= count_from(s, a),
    decreases s.len(),
{
    if s.len() > 0 {
        lemma_count_mono(s.drop_last(), a, b);
        if lex_le(b, s.last().key()) {
            lemma_lex_le_transitive(a, b, s.last().key());
        }
    }
}

proof fn lemma_count_strict<T: Keyed>(s: Seq<T>, a: Seq<u8>, b: Seq<u8>, i: int)
    requires
        lex_le(a, b),
        0 <= i < s.len(),
        lex_le(a, s[i].key()),
        !lex_le(b, s[i].key()),
    ensures
        count_from(s, b) < count_from(s, a),
    decreases s.len(),
{
    if i == s.len() - 1 {
        lemma_count_mono(s.drop_last(), a, b);
    } else {
        assert(s.drop_last()[i] == s[i]);
        lemma_count_strict(s.drop_last(), a, b, i);
        if lex_le(b, s.last().key()) {
            lemma_lex_le_transitive(a, b, s.last().key());
        }
    }
}

proof fn lemma_pending_mono<T: Keyed>(inputs: Seq<Seq<T>>, a: Seq<u8>, b: Seq<u8>)
    requires
        lex_le(a, b),
    ensures
        pending(inputs, b) <= pending(inputs, a),
    decreases inputs.len(),
{
    if inputs.len() > 0 {
        lemma_pending_mono(inputs.drop_last(), a, b);
        lemma_count_mono(inputs.last(), a, b);
    }
}

proof fn lemma_pending_strict<T: Keyed>(
    inputs: Seq<Seq<T>>,
    a: Seq<u8>,
    b: Seq<u8>,
    j: int,
    i: int,
)
    requires
        lex_le(a, b),
        0 <= j < inputs.len(),
        0 <= i < inputs[j].len(),
        lex_le(a, inputs[j][i].key()),
        !lex_le(b, inputs[j][i].key()),
    ensures
        pending(inputs, b) < pending(inputs, a),
    decreases inputs.len(),
{
    if j == inputs.len() - 1 {
        lemma_pending_mono(inputs.drop_last(), a, b);
        lemma_count_strict(inputs.last(), a, b, i);
    } else {
        assert(inputs.drop_last()[j] == inputs[j]);
        lemma_pending_strict(inputs.drop_last(), a, b, j, i);
        lemma_count_mono(inputs.last(), a, b);
    }
}

/// A key that some container has is counted, and a counted key is in some
/// container.
pub proof fn lemma_count_holding<T: Keyed>(inputs: Seq<Seq<T>>, k: Seq<u8>)
    ensures
        count_holding(inputs, k) <= inputs.len(),
        count_holding(inputs, k) >= 1 <==> exists|j: int|
            0 <= j < inputs.len() && holds(#[trigger] inputs[j], k),
        count_holding(inputs, k) == inputs.len() <==> forall|j: int|
            0 <= j < inputs.len() ==> holds(#[trigger] inputs[j], k),
    decreases inputs.len(),
{
    if inputs.len() > 0 {
        let before = inputs.drop_last();
        lemma_count_holding(before, k);
        if exists|j: int| 0 <= j < before.len() && holds(#[trigger] before[j], k) {
            let j = choose|j: int| 0 <= j < before.len() && holds(#[trigger] before[j], k);
            assert(holds(inputs[j], k));
        }
        if exists|j: int| 0 <= j < inputs.len() && holds(#[trigger] inputs[j], k) {
            let j = choose|j: int| 0 <= j < inputs.len() && holds(#[trigger] inputs[j], k);
            if j < before.len() {
                assert(holds(before[j], k));
            }
        }
        if forall|j: int| 0 <= j < inputs.len() ==> holds(#[trigger] inputs[j], k) {
            assert forall|j: int| 0 <= j < before.len() implies holds(#[trigger] before[j], k) by {
                assert(before[j] == inputs[j]);
            }
            assert(holds(inputs[inputs.len() - 1], k));
        }
        if count_holding(inputs, k) == inputs.len() {
            assert forall|j: int| 0 <= j < inputs.len() implies holds(#[trigger] inputs[j], k) by {
                if j < before.len() {
                    assert(before[j] == inputs[j]);
                }
            }
        }
    }
}

/// Every key that an operation keeps is in one of the containers.
pub proof fn lemma_kept_is_held<T: Keyed>(op: SetOp, inputs: Seq<Seq<T>>, k: Seq<u8>)
    requires
        inputs.len() > 0,
        kept(op, inputs, k),
    ensures
        exists|j: int| 0 <= j < inputs.len() && holds(#[trigger] inputs[j], k),
{
    lemma_count_holding(inputs, k);
}

/// A merge makes progress: behind the key it found, less is left to look
/// at.
pub proof fn lemma_merge_progress<T: Keyed>(
    op: SetOp,
    inputs: Seq<Seq<T>>,
    from: Seq<u8>,
    key: Seq<u8>,
)
    requires
        inputs.len() > 0,
        is_next_kept(op, inputs, from, key),
    ensures
        pending(inputs, successor(key)) < pending(inputs, from),
{
    lemma_kept_is_held(op, inputs, key);
    let j = choose|j: int| 0 <= j < inputs.len() && holds(#[trigger] inputs[j], key);
    let i = position(inputs[j], key);
    lemma_successor(key, key);
    lemma_lex_irreflexive(key);
    lemma_successor(key, successor(key));
    lemma_lex_le_transitive(from, key, successor(key));
    lemma_pending_strict(inputs, from, successor(key), j, i);
}

/// What the maps hold for a key is one occurrence for each map that has
/// it, with the positions of the maps ascending.
pub proof fn lemma_occurrences(inputs: Seq<Seq<(Seq<u8>, u64)>>, k: Seq<u8>)
    requires
        inputs.len() <= usize::MAX,
    ensures
        occurrences(inputs, k).len() == count_holding(inputs, k),
        forall|i: int|
            0 <= i < occurrences(inputs, k).len() ==> (#[trigger] occurrences(inputs, k)[i]).index
                < inputs.len(),
        sorted_by(occurrences(inputs, k), leq_indexed()),
    decreases inputs.len(),
{
    if inputs.len() > 0 {
        lemma_occurrences(inputs.drop_last(), k);
        let before = occurrences(inputs.drop_last(), k);
        let occ = occurrences(inputs, k);
        assert forall|a: int, b: int| 0 <= a < b < occ.len() implies (leq_indexed())(
            occ[a],
            occ[b],
        ) by {
            if b < before.len() {
                assert((leq_indexed())(before[a], before[b]));
            } else {
                assert(before[a].index < inputs.len() - 1);
            }
        }
    }
}

/// `result` holds, in key order, exactly the keys that the operation keeps.
pub open spec fn covers<T: Keyed>(op: SetOp, inputs: Seq<Seq<T>>, result: Seq<T>) -> bool {
    &&& ascending(result)
    &&& forall|k: Seq<u8>|
        #![trigger holds(result, k)]
        #![trigger kept(op, inputs, k)]
        holds(result, k) <==> kept(op, inputs, k)
}

/// Each value of `result` is the one that the policy chooses among what
/// the maps hold for its key.
pub open spec fn values_selected(
    inputs: Seq<Seq<(Seq<u8>, u64)>>,
    sel: Op,
    result: Seq<(Seq<u8>, u64)>,
) -> bool {
    forall|i: int|
        0 <= i < result.len() ==> (#[trigger] result[i]).1 == spec_select(
            sel,
            values_of(occurrences(inputs, result[i].0)),
        )
}

/// `result` is the merge of the maps `inputs` under the operation `op`,
/// with values chosen by the policy `sel`.
pub open spec fn is_merge_of_maps(
    op: SetOp,
    inputs: Seq<Seq<(Seq<u8>, u64)>>,
    sel: Op,
    result: Seq<(Seq<u8>, u64)>,
) -> bool {
    covers(op, inputs, result) && values_selected(inputs, sel, result)
}

/// `result` holds, in key order, exactly the kept keys that come before
/// `from`.
pub open spec fn covers_before<T: Keyed>(
    op: SetOp,
    inputs: Seq<Seq<T>>,
    result: Seq<T>,
    from: Seq<u8>,
) -> bool {
    &&& ascending(result)
    &&& forall|k: Seq<u8>|
        #![trigger holds(result, k)]
        #![trigger kept(op, inputs, k)]
        holds(result, k) <==> kept(op, inputs, k) && lex_lt(k, from)
}

/// Before the empty key there is nothing to hold.
pub proof fn lemma_cover_nothing<T: Keyed>(op: SetOp, inputs: Seq<Seq<T>>)
    ensures
        covers_before(op, inputs, Seq::<T>::empty(), Seq::<u8>::empty()),
{
}

/// A merge that appends the next kept key holds all kept keys up to it.
pub proof fn lemma_cover_extend<T: Keyed>(
    op: SetOp,
    inputs: Seq<Seq<T>>,
    result: Seq<T>,
    from: Seq<u8>,
    x: T,
)
    requires
        covers_before(op, inputs, result, from),
        is_next_kept(op, inputs, from, x.key()),
    ensures
        covers_before(op, inputs, result.push(x), successor(x.key())),
{
    let key = x.key();
    let next = result.push(x);
    assert forall|i: int, j: int| 0 <= i < j < next.len() implies lex_lt(
        #[trigger] next[i].key(),
        #[trigger] next[j].key(),
    ) by {
        if j == result.len() {
            assert(holds(result, result[i].key()));
            lemma_lex_lt_le(result[i].key(), from, key);
        }
    }
    assert forall|k: Seq<u8>|
        #![trigger holds(next, k)]
        #![trigger kept(op, inputs, k)]
        holds(next, k) <==> kept(op, inputs, k) && lex_lt(k, successor(key)) by {
        lemma_before_successor(k, key);
        if holds(next, k) {
            let i = choose|i: int| 0 <= i < next.len() && #[trigger] next[i].key() == k;
            if i < result.len() {
                assert(result[i].key() == k);
                assert(holds(result, k));
                lemma_lex_lt_le(k, from, key);
            }
        }
        if kept(op, inputs, k) && lex_le(k, key) {
            lemma_lex_trichotomy(k, from);
            if lex_lt(k, from) {
                assert(holds(result, k));
                let i = choose|i: int| 0 <= i < result.len() && #[trigger] result[i].key() == k;
                assert(next[i].key() == k);
            } else {
                assert(lex_le(key, k));
                lemma_lex_trichotomy(k, key);
                assert(k == key);
                assert(next[result.len() as int].key() == k);
            }
        }
    }
}

/// A merge that has found no further key holds all kept keys.
pub proof fn lemma_cover_done<T: Keyed>(
    op: SetOp,
    inputs: Seq<Seq<T>>,
    result: Seq<T>,
    from: Seq<u8>,
)
    requires
        covers_before(op, inputs, result, from),
        none_kept(op, inputs, from),
    ensures
        covers(op, inputs, result),
{
    assert forall|k: Seq<u8>|
        #![trigger holds(result, k)]
        #![trigger kept(op, inputs, k)]
        holds(result, k) <==> kept(op, inputs, k) by {
        lemma_lex_trichotomy(k, from);
    }
}

} // verus!

//! An immutable set of byte-string keys, kept as a finite-state transducer
//! and read in key order.

use crate::automaton::{share, ArcNode, AutomatonGraph};
use crate::buffer::Buffer;
use crate::bytes::{bytes_eq, bytes_lt, lex_lt, successor_of, to_vec};
use crate::entries::{
    any_key, ascending, first, holds, lemma_scan_everything, lemma_scan_rest, lemma_select_agree,
    rest, same_key, scan, scan_test, select, Keyed,
};
use crate::error::Failure;
use crate::item::{field_key, parse_key, Field};
use crate::layout::{check_counts, counts_fit};
use crate::language::{
    accept_of, accepted_by, lemma_prefix_language, lemma_prunes_soundly,
    lemma_subsequence_language,
};
use crate::merge::{
    covers, covers_before, lemma_cover_done, lemma_cover_extend, lemma_cover_nothing,
    lemma_merge_progress, pending, SetOp,
};
use crate::range::{add_range, bounds, has_prefix, has_subsequence, opt_bytes, opt_vec, query_test};
use crate::raw_set::{
    all_keys, all_valid_sets, disjoint, set_builder_finish, set_builder_insert, set_builder_keys,
    set_builder_new, set_contains, set_difference_next, set_image, set_intersection_next,
    set_is_disjoint, set_is_subset, set_is_superset, set_keys, set_len, set_open, set_range_next,
    set_search_next, set_symmetric_difference_next, set_union_next, set_valid, subset_of,
};
use std::sync::Arc;
use vstd::prelude::*;

verus! {

/// An immutable set of byte-string keys. The handle holds no state of any
/// query: every scan has its own.
pub struct FstSet {
    inner: Arc<fst::Set<Vec<u8>>>,
}

/// A scan over the keys of a set, in order.
pub struct KeyIterator {
    set: Arc<fst::Set<Vec<u8>>>,
    automaton: Option<ArcNode>,
    from: Vec<u8>,
    until: Option<Vec<u8>>,
    done: bool,
}

/// A scan over the keys of a set that an automaton accepts, in order.
pub struct AutomatonIterator {
    keys: KeyIterator,
}

impl KeyIterator {
    /// The scan is over a valid set.
    pub closed spec fn wf(&self) -> bool {
        set_valid(*self.set) && ascending(set_keys(*self.set))
    }

    /// The keys of the set under the scan.
    spec fn keys(&self) -> Seq<Seq<u8>> {
        set_keys(*self.set)
    }

    /// The keys that the scan has yet to yield, in the order in which it
    /// will yield them.
    pub closed spec fn remaining(&self) -> Seq<Seq<u8>> {
        if self.done {
            Seq::empty()
        } else {
            scan(set_keys(*self.set), accept_of(self.automaton), self.from@, opt_vec(self.until))
        }
    }

    /// The next key, or `None` once and for all when no key is left.
    pub fn next(&mut self) -> (r: Option<Vec<u8>>)
        requires
            old(self).wf(),
        ensures
            final(self).wf(),
            same_key(r, first(old(self).remaining())),
            final(self).remaining() == rest(old(self).remaining()),
    {
        if self.done {
            return None;
        }
        let until: Option<&[u8]> = match &self.until {
            Some(u) => Some(u.as_slice()),
            None => None,
        };
        let r = match &self.automaton {
            Some(a) => {
                proof {
                    lemma_prunes_soundly(a.node());
                }
                set_search_next(&self.set, a, self.from.as_slice(), until)
            },
            None => set_range_next(&self.set, self.from.as_slice(), until),
        };
        match &r {
            None => {
                self.done = true;
            },
            Some(k) => {
                proof {
                    lemma_scan_rest(
                        self.keys(),
                        accept_of(self.automaton),
                        self.from@,
                        opt_vec(self.until),
                    );
                }
                self.from = successor_of(k.as_slice());
            },
        }
        r
    }
}

impl AutomatonIterator {
    /// The scan is over a valid set.
    pub closed spec fn wf(&self) -> bool {
        self.keys.wf()
    }

    /// The keys that the scan has yet to yield, in the order in which it
    /// will yield them.
    pub closed spec fn remaining(&self) -> Seq<Seq<u8>> {
        self.keys.remaining()
    }

    /// The next key, or `None` once and for all when no key is left.
    pub fn next(&mut self) -> (r: Option<Vec<u8>>)
        requires
            old(self).wf(),
        ensures
            final(self).wf(),
            same_key(r, first(old(self).remaining())),
            final(self).remaining() == rest(old(self).remaining()),
    {
        self.keys.next()
    }
}

/// Writes a set key by key, in order, into memory.
pub struct SetWriter {
    inner: fst::SetBuilder<Vec<u8>>,
    last: Option<Vec<u8>>,
}

/// `key` may be inserted after the keys `ks`: it comes strictly after the
/// last key, or there is none.
pub open spec fn key_can_follow(ks: Seq<Seq<u8>>, key: Seq<u8>) -> bool {
    ks.len() == 0 || lex_lt(ks.last(), key)
}

/// The keys after `field` is offered behind the keys `ks`: those and the
/// key of the field, where the field is a byte string that comes strictly
/// after the last key; else the failure, `OutOfOrder` for a key that does
/// not.
pub open spec fn extended_keys(ks: Seq<Seq<u8>>, field: Field) -> Result<Seq<Seq<u8>>, Failure> {
    match field_key(field) {
        Err(e) => Err(e),
        Ok(k) => if key_can_follow(ks, k) {
            Ok(ks.push(k))
        } else {
            Err(Failure::OutOfOrder)
        },
    }
}

/// The keys that a build from `items` writes, or the failure of the first
/// item that it cannot take.
pub open spec fn filled_keys(items: Seq<Field>) -> Result<Seq<Seq<u8>>, Failure>
    decreases items.len(),
{
    if items.len() == 0 {
        Ok(Seq::empty())
    } else {
        match filled_keys(items.drop_last()) {
            Err(e) => Err(e),
            Ok(ks) => extended_keys(ks, items.last()),
        }
    }
}

impl SetWriter {
    /// The keys written so far.
    pub closed spec fn view(&self) -> Seq<Seq<u8>> {
        set_builder_keys(self.inner)
    }

    /// The writer remembers the last key it wrote.
    pub closed spec fn wf(&self) -> bool {
        match self.last {
            Some(l) => self@.len() > 0 && self@.last() == l@,
            None => self@.len() == 0,
        }
    }

    /// A writer that has written nothing yet.
    pub fn new() -> (r: Result<SetWriter, Failure>)
        ensures
            r matches Ok(w) && w@.len() == 0 && w.wf(),
    {
        match set_builder_new() {
            Ok(b) => Ok(SetWriter { inner: b, last: None }),
            Err(_) => Err(Failure::Runtime),
        }
    }

    /// Writes a key. The key must come strictly after the last key written;
    /// else nothing is written and the failure is `OutOfOrder`.
    pub fn insert(&mut self, key: &[u8]) -> (r: Result<(), Failure>)
        requires
            old(self).wf(),
        ensures
            final(self).wf(),
            r == if key_can_follow(old(self)@, key@) {
                Ok::<(), Failure>(())
            } else {
                Err::<(), Failure>(Failure::OutOfOrder)
            },
            final(self)@ == if key_can_follow(old(self)@, key@) {
                old(self)@.push(key@)
            } else {
                old(self)@
            },
    {
        // a key that is written twice is as much out of order as one that
        // comes too early
        let follows = match &self.last {
            Some(l) => bytes_lt(l.as_slice(), key),
            None => true,
        };
        if !follows {
            return Err(Failure::OutOfOrder);
        }
        match set_builder_insert(&mut self.inner, key) {
            Ok(()) => {
                self.last = Some(to_vec(key));
                Ok(())
            },
            Err(_) => Err(Failure::OutOfOrder),
        }
    }

    /// Writes the key that `field` stands for. A field that is no byte
    /// string is refused before anything is written.
    pub fn insert_item(&mut self, field: &Field) -> (r: Result<(), Failure>)
        requires
            old(self).wf(),
        ensures
            final(self).wf(),
            match extended_keys(old(self)@, *field) {
                Ok(ks) => r is Ok && final(self)@ == ks,
                Err(e) => r == Err::<(), Failure>(e) && final(self)@ == old(self)@,
            },
    {
        let key = match parse_key(field) {
            Ok(key) => key,
            Err(e) => {
                return Err(e);
            },
        };
        self.insert(key)
    }

    /// Ends the set and hands out its bytes, on which a set can be opened
    /// that holds the keys written.
    pub fn finish(self) -> (r: Result<Vec<u8>, Failure>)
        ensures
            r matches Ok(bytes) && set_image(bytes@) == Some(self@),
    {
        match set_builder_finish(self.inner) {
            Ok(bytes) => Ok(bytes),
            Err(_) => Err(Failure::Runtime),
        }
    }
}

/// A build that fails on the first `n` items fails alike on all of them.
proof fn lemma_filled_keys_fails(items: Seq<Field>, n: int)
    requires
        0 <= n <= items.len(),
        filled_keys(items.take(n)) is Err,
    ensures
        filled_keys(items) == filled_keys(items.take(n)),
    decreases items.len() - n,
{
    if n < items.len() {
        assert(items.take(n + 1).drop_last() =~= items.take(n));
        lemma_filled_keys_fails(items, n + 1);
    } else {
        assert(items.take(n) =~= items);
    }
}

/// Builds the bytes of a set from `items`, which must be byte strings in
/// strictly ascending order. Stops at the first item that it cannot take.
pub fn fill_from_iterable(items: &[Field]) -> (r: Result<Vec<u8>, Failure>)
    ensures
        match filled_keys(items@) {
            Ok(ks) => r matches Ok(bytes) && set_image(bytes@) == Some(ks),
            Err(e) => r matches Err(x) && x == e,
        },
{
    let mut writer = match SetWriter::new() {
        Ok(w) => w,
        Err(e) => {
            return Err(e);
        },
    };
    let mut i: usize = 0;
    assert(items@.take(0) =~= Seq::<Field>::empty());
    assert(writer@ =~= Seq::empty());
    while i < items.len()
        invariant
            i <= items@.len(),
            writer.wf(),
            filled_keys(items@.take(i as int)) == Ok::<Seq<Seq<u8>>, Failure>(writer@),
        decreases items@.len() - i,
    {
        proof {
            assert(items@.take(i + 1).drop_last() =~= items@.take(i as int));
            assert(items@.take(i + 1).last() == items@[i as int]);
        }
        match writer.insert_item(&items[i]) {
            Ok(()) => {},
            Err(e) => {
                proof {
                    lemma_filled_keys_fails(items@, i + 1);
                }
                return Err(e);
            },
        }
        i += 1;
    }
    assert(items@.take(i as int) =~= items@);
    writer.finish()
}

/// The keys of the sets that a merge reads, the receiver first.
pub open spec fn inputs_of(first: FstSet, others: Seq<FstSet>) -> Seq<Seq<Seq<u8>>> {
    seq![first@] + others.map_values(|s: FstSet| s@)
}

/// Every one of the sets is valid.
pub open spec fn all_wf(sets: Seq<FstSet>) -> bool {
    forall|i: int| 0 <= i < sets.len() ==> (#[trigger] sets[i]).wf()
}

/// The handles of the sets that a merge reads, the receiver first.
fn setvec(first: &FstSet, others: &[FstSet]) -> (sets: Vec<Arc<fst::Set<Vec<u8>>>>)
    requires
        first.wf(),
        all_wf(others@),
    ensures
        sets@.len() > 0,
        all_valid_sets(sets@),
        all_keys(sets@) == inputs_of(*first, others@),
{
    let mut sets: Vec<Arc<fst::Set<Vec<u8>>>> = Vec::with_capacity(others.len());
    sets.push(share(&first.inner));
    let mut i: usize = 0;
    while i < others.len()
        invariant
            i <= others@.len(),
            first.wf(),
            all_wf(others@),
            sets@.len() == i + 1,
            sets@[0] == first.inner,
            forall|j: int| 0 <= j < i ==> #[trigger] sets@[j + 1] == others@[j].inner,
        decreases others@.len() - i,
    {
        sets.push(share(&others[i].inner));
        i += 1;
    }
    proof {
        assert forall|j: int| 0 <= j < sets@.len() implies set_valid(*#[trigger] sets@[j]) by {
            if j > 0 {
                assert(sets@[(j - 1) + 1] == others@[j - 1].inner);
                assert(others@[j - 1].wf());
            }
        }
        let a = all_keys(sets@);
        let b = inputs_of(*first, others@);
        assert(a.len() == b.len());
        assert forall|j: int| 0 <= j < a.len() implies a[j] == b[j] by {
            if j > 0 {
                assert(sets@[(j - 1) + 1] == others@[j - 1].inner);
            }
        }
        assert(a =~= b);
    }
    sets
}

/// Merges the sets under the operation `op` and writes the set of the keys
/// it keeps.
fn fill_from_stream(op: SetOp, sets: &Vec<Arc<fst::Set<Vec<u8>>>>) -> (r: Result<Vec<u8>, Failure>)
    requires
        sets@.len() > 0,
        all_valid_sets(sets@),
    ensures
        r matches Ok(bytes) && set_image(bytes@) matches Some(ks) && covers(
            op,
            all_keys(sets@),
            ks,
        ),
{
    let ghost inputs = all_keys(sets@);
    let mut writer = match SetWriter::new() {
        Ok(w) => w,
        Err(e) => {
            return Err(e);
        },
    };
    let mut from: Vec<u8> = Vec::new();
    proof {
        lemma_cover_nothing(op, inputs);
        assert(writer@ =~= Seq::empty());
    }
    loop
        invariant
            sets@.len() > 0,
            all_valid_sets(sets@),
            inputs == all_keys(sets@),
            writer.wf(),
            covers_before(op, inputs, writer@, from@),
        ensures
            covers(op, inputs, writer@),
        decreases pending(inputs, from@),
    {
        let step = match op {
            SetOp::Union => set_union_next(sets, from.as_slice()),
            SetOp::Intersection => set_intersection_next(sets, from.as_slice()),
            SetOp::Difference => set_difference_next(sets, from.as_slice()),
            SetOp::SymmetricDifference => set_symmetric_difference_next(sets, from.as_slice()),
        };
        match step {
            None => {
                proof {
                    lemma_cover_done(op, inputs, writer@, from@);
                }
                break ;
            },
            Some(key) => {
                proof {
                    lemma_merge_progress(op, inputs, from@, key@);
                    if writer@.len() > 0 {
                        let last = writer@[writer@.len() - 1];
                        assert(last.key() == writer@.last());
                        assert(holds(writer@, writer@.last()));
                        crate::bytes::lemma_lex_lt_le(writer@.last(), from@, key@);
                    }
                    lemma_cover_extend(op, inputs, writer@, from@, key@);
                }
                match writer.insert(key.as_slice()) {
                    Ok(()) => {},
                    Err(e) => {
                        return Err(e);
                    },
                }
                from = successor_of(key.as_slice());
            },
        }
    }
    writer.finish()
}

/// Merges the sets into a buffer that holds the bytes of the merged set.
fn build_from_stream(op: SetOp, sets: &Vec<Arc<fst::Set<Vec<u8>>>>) -> (r: Result<Buffer, Failure>)
    requires
        sets@.len() > 0,
        all_valid_sets(sets@),
    ensures
        r matches Ok(buf) && set_image(buf@) matches Some(ks) && covers(op, all_keys(sets@), ks),
{
    match fill_from_stream(op, sets) {
        Ok(bytes) => Ok(Buffer::new(bytes)),
        Err(e) => Err(e),
    }
}

/// Every key of `a` is a key of `b`, and `b` has a key that `a` lacks.
pub open spec fn proper_subset_of(a: Seq<Seq<u8>>, b: Seq<Seq<u8>>) -> bool {
    subset_of(a, b) && !subset_of(b, a)
}

/// The keys of an ascending sequence as a set: as many as the sequence is
/// long.
proof fn lemma_key_set(a: Seq<Seq<u8>>)
    requires
        ascending(a),
    ensures
        a.to_set().finite(),
        a.to_set().len() == a.len(),
        forall|k: Seq<u8>| #[trigger] holds(a, k) <==> a.to_set().contains(k),
{
    assert forall|i: int, j: int| 0 <= i < a.len() && 0 <= j < a.len() && i != j implies a[i]
        != a[j] by {
        if i < j {
            assert(lex_lt(a[i].key(), a[j].key()));
        } else {
            assert(lex_lt(a[j].key(), a[i].key()));
        }
        crate::bytes::lemma_lex_irreflexive(a[i]);
    }
    a.unique_seq_to_set();
    vstd::seq_lib::seq_to_set_is_finite(a);
    assert forall|k: Seq<u8>| #[trigger] holds(a, k) <==> a.to_set().contains(k) by {
        if holds(a, k) {
            let i = choose|i: int| 0 <= i < a.len() && #[trigger] a[i].key() == k;
            assert(a[i] == k);
            assert(a.contains(k));
        }
        if a.to_set().contains(k) {
            assert(a.contains(k));
            let i = choose|i: int| 0 <= i < a.len() && a[i] == k;
            assert(a[i].key() == k);
        }
    }
}

/// How the sizes of two sets go with their inclusion: a subset is no
/// larger, and a subset of the same size is the same set of keys.
pub proof fn lemma_subset_sizes(a: Seq<Seq<u8>>, b: Seq<Seq<u8>>)
    requires
        ascending(a),
        ascending(b),
        subset_of(a, b),
    ensures
        a.len() <= b.len(),
        a.len() == b.len() ==> subset_of(b, a),
{
    lemma_key_set(a);
    lemma_key_set(b);
    let sa = a.to_set();
    let sb = b.to_set();
    assert forall|k: Seq<u8>| sa.contains(k) implies sb.contains(k) by {
        assert(holds(a, k));
    }
    assert(sa.subset_of(sb));
    vstd::set_lib::lemma_len_subset(sa, sb);
    if a.len() == b.len() {
        vstd::set_lib::lemma_subset_equality(sa, sb);
        assert(sa =~= sb);
        assert forall|k: Seq<u8>| #[trigger] holds(b, k) implies holds(a, k) by {
            assert(sb.contains(k));
        }
    }
}

impl FstSet {
    /// The bytes behind the set are a set as a build writes it. Every set
    /// opened on the result of a build is valid.
    pub closed spec fn wf(&self) -> bool {
        set_valid(*self.inner) && ascending(set_keys(*self.inner))
    }

    /// The keys of the set, in order.
    pub closed spec fn view(&self) -> Seq<Seq<u8>> {
        set_keys(*self.inner)
    }

    /// The keys of a valid set ascend.
    pub proof fn lemma_ascending(&self)
        requires
            self.wf(),
        ensures
            ascending(self@),
    {
    }

    /// Opens a set on `data`. On the bytes of a build this succeeds, and
    /// the set is valid and holds the keys built, unless a count in the
    /// bytes does not fit a size of this machine. Bytes that are refused
    /// are refused with `InvalidData`.
    pub fn new(data: Vec<u8>) -> (r: Result<FstSet, Failure>)
        ensures
            counts_fit(data@) ==> (set_image(data@) matches Some(ks) ==> r matches Ok(s) && s.wf()
                && s@ == ks),
            !counts_fit(data@) ==> r is Err,
            r matches Ok(s) ==> (s.wf() <==> set_image(data@) is Some),
            r matches Err(e) ==> e == Failure::InvalidData,
    {
        if !check_counts(data.as_slice()) {
            return Err(Failure::InvalidData);
        }
        match set_open(data) {
            Ok(s) => Ok(FstSet { inner: Arc::new(s) }),
            Err(_) => Err(Failure::InvalidData),
        }
    }

    /// Another handle on the same set.
    pub fn copy(&self) -> (r: FstSet)
        ensures
            r@ == self@,
            r.wf() == self.wf(),
    {
        FstSet { inner: share(&self.inner) }
    }

    /// Builds a set from `items`, which must be byte strings in strictly
    /// ascending order, and returns its bytes. Fails with the failure of
    /// the first item that cannot be taken.
    pub fn build(items: &[Field]) -> (r: Result<Buffer, Failure>)
        ensures
            match filled_keys(items@) {
                Ok(ks) => r matches Ok(buf) && set_image(buf@) == Some(ks),
                Err(e) => r matches Err(x) && x == e,
            },
    {
        match fill_from_iterable(items) {
            Ok(w) => Ok(Buffer::new(w)),
            Err(e) => Err(e),
        }
    }

    /// Whether the set has `key`.
    pub fn contains(&self, key: &[u8]) -> (r: bool)
        requires
            self.wf(),
        ensures
            r == holds(self@, key@),
    {
        set_contains(&self.inner, key)
    }

    /// The number of keys.
    pub fn len(&self) -> (r: usize)
        requires
            self.wf(),
        ensures
            r == self@.len(),
    {
        set_len(&self.inner)
    }

    /// Whether the two sets hold the same keys.
    pub fn equals(&self, other: &FstSet) -> (r: bool)
        requires
            self.wf(),
            other.wf(),
        ensures
            r == (self@ == other@),
    {
        if self.len() != other.len() {
            return false;
        }
        let mut s = self.keys();
        let mut o = other.keys();
        loop
            invariant
                s.wf(),
                o.wf(),
                (self@ == other@) <==> (s.remaining() == o.remaining()),
            decreases s.remaining().len(),
        {
            let ghost rs = s.remaining();
            let ghost ro = o.remaining();
            match (s.next(), o.next()) {
                (Some(ks), Some(ko)) => {
                    proof {
                        assert(rs =~= seq![rs[0]] + rs.skip(1));
                        assert(ro =~= seq![ro[0]] + ro.skip(1));
                    }
                    if !bytes_eq(ks.as_slice(), ko.as_slice()) {
                        return false;
                    }
                    proof {
                        assert(rs[0] == ro[0]);
                    }
                },
                (None, None) => {
                    proof {
                        assert(rs =~= ro);
                    }
                    return true;
                },
                _ => {
                    return false;
                },
            }
        }
    }

    /// Whether this set is a superset of `other`.
    pub fn ge(&self, other: &FstSet) -> (r: bool)
        requires
            self.wf(),
            other.wf(),
        ensures
            r == subset_of(other@, self@),
    {
        proof {
            if subset_of(other@, self@) {
                lemma_subset_sizes(other@, self@);
            }
        }
        self.len() >= other.len() && set_is_superset(&self.inner, &other.inner)
    }

    /// Whether this set is a proper superset of `other`.
    pub fn gt(&self, other: &FstSet) -> (r: bool)
        requires
            self.wf(),
            other.wf(),
        ensures
            r == proper_subset_of(other@, self@),
    {
        proof {
            if subset_of(other@, self@) {
                lemma_subset_sizes(other@, self@);
            }
            if subset_of(self@, other@) {
                lemma_subset_sizes(self@, other@);
            }
        }
        self.len() > other.len() && set_is_superset(&self.inner, &other.inner)
    }

    /// Whether this set is a subset of `other`.
    pub fn le(&self, other: &FstSet) -> (r: bool)
        requires
            self.wf(),
            other.wf(),
        ensures
            r == subset_of(self@, other@),
    {
        proof {
            if subset_of(self@, other@) {
                lemma_subset_sizes(self@, other@);
            }
        }
        self.len() <= other.len() && set_is_subset(&self.inner, &other.inner)
    }

    /// Whether this set is a proper subset of `other`.
    pub fn lt(&self, other: &FstSet) -> (r: bool)
        requires
            self.wf(),
            other.wf(),
        ensures
            r == proper_subset_of(self@, other@),
    {
        proof {
            if subset_of(self@, other@) {
                lemma_subset_sizes(self@, other@);
            }
            if subset_of(other@, self@) {
                lemma_subset_sizes(other@, self@);
            }
        }
        self.len() < other.len() && set_is_subset(&self.inner, &other.inner)
    }

    /// Whether the two sets share no key.
    pub fn isdisjoint(&self, other: &FstSet) -> (r: bool)
        requires
            self.wf(),
            other.wf(),
        ensures
            r == disjoint(self@, other@),
    {
        set_is_disjoint(&self.inner, &other.inner)
    }

    /// Whether every key of this set is in `other`.
    pub fn issubset(&self, other: &FstSet) -> (r: bool)
        requires
            self.wf(),
            other.wf(),
        ensures
            r == subset_of(self@, other@),
    {
        set_is_subset(&self.inner, &other.inner)
    }

    /// Whether every key of `other` is in this set.
    pub fn issuperset(&self, other: &FstSet) -> (r: bool)
        requires
            self.wf(),
            other.wf(),
        ensures
            r == subset_of(other@, self@),
    {
        set_is_superset(&self.inner, &other.inner)
    }

    /// A scan of the keys that lie within the bounds given and which the
    /// automaton accepts, where there is one.
    fn query(
        &self,
        automaton: Option<ArcNode>,
        ge: Option<&[u8]>,
        gt: Option<&[u8]>,
        le: Option<&[u8]>,
        lt: Option<&[u8]>,
    ) -> (r: KeyIterator)
        requires
            self.wf(),
        ensures
            r.wf(),
            r.remaining() == select(
                self@,
                query_test(
                    accept_of(automaton),
                    opt_bytes(ge),
                    opt_bytes(gt),
                    opt_bytes(le),
                    opt_bytes(lt),
                ),
            ),
    {
        let range = add_range(ge, gt, le, lt);
        proof {
            let test = query_test(
                accept_of(automaton),
                opt_bytes(ge),
                opt_bytes(gt),
                opt_bytes(le),
                opt_bytes(lt),
            );
            let keep = scan_test(accept_of(automaton), range.from@, opt_vec(range.until));
            assert forall|i: int| 0 <= i < self@.len() implies keep(#[trigger] self@[i].key())
                == test(self@[i].key()) by {
                assert(range.contains(self@[i]) == crate::range::bounded(
                    self@[i],
                    opt_bytes(ge),
                    opt_bytes(gt),
                    opt_bytes(le),
                    opt_bytes(lt),
                ));
            }
            lemma_select_agree(self@, keep, test);
        }
        KeyIterator {
            set: share(&self.inner),
            automaton,
            from: range.from,
            until: range.until,
            done: false,
        }
    }

    /// A scan of all keys, in order: what iterating over the set yields.
    pub fn iter(&self) -> (r: KeyIterator)
        requires
            self.wf(),
        ensures
            r.wf(),
            r.remaining() == self@,
    {
        proof {
            lemma_scan_everything(self@);
        }
        KeyIterator {
            set: share(&self.inner),
            automaton: None,
            from: Vec::new(),
            until: None,
            done: false,
        }
    }

    /// A scan of all keys, in order.
    pub fn keys(&self) -> (r: KeyIterator)
        requires
            self.wf(),
        ensures
            r.wf(),
            r.remaining() == self@,
    {
        self.iter()
    }

    /// A scan of the keys that meet each bound that is given: at or after
    /// `ge`, after `gt`, at or before `le`, before `lt`.
    pub fn range(
        &self,
        ge: Option<&[u8]>,
        gt: Option<&[u8]>,
        le: Option<&[u8]>,
        lt: Option<&[u8]>,
    ) -> (r: KeyIterator)
        requires
            self.wf(),
        ensures
            r.wf(),
            r.remaining() == select(
                self@,
                bounds(opt_bytes(ge), opt_bytes(gt), opt_bytes(le), opt_bytes(lt)),
            ),
    {
        proof {
            lemma_select_agree(
                self@,
                query_test(any_key(), opt_bytes(ge), opt_bytes(gt), opt_bytes(le), opt_bytes(lt)),
                bounds(opt_bytes(ge), opt_bytes(gt), opt_bytes(le), opt_bytes(lt)),
            );
        }
        self.query(None, ge, gt, le, lt)
    }

    /// A scan of the keys that begin with `str` and meet the bounds.
    pub fn starts_with(
        &self,
        str: &[u8],
        ge: Option<&[u8]>,
        gt: Option<&[u8]>,
        le: Option<&[u8]>,
        lt: Option<&[u8]>,
    ) -> (r: KeyIterator)
        requires
            self.wf(),
        ensures
            r.wf(),
            r.remaining() == select(
                self@,
                query_test(
                    has_prefix(str@),
                    opt_bytes(ge),
                    opt_bytes(gt),
                    opt_bytes(le),
                    opt_bytes(lt),
                ),
            ),
    {
        let automaton = AutomatonGraph::str(str).starts_with().get();
        proof {
            let p = crate::language::at(automaton.node()->StartsWith_0)->Str_0;
            let a = query_test(
                accepted_by(automaton.node()),
                opt_bytes(ge),
                opt_bytes(gt),
                opt_bytes(le),
                opt_bytes(lt),
            );
            let b = query_test(
                has_prefix(str@),
                opt_bytes(ge),
                opt_bytes(gt),
                opt_bytes(le),
                opt_bytes(lt),
            );
            assert forall|i: int| 0 <= i < self@.len() implies a(#[trigger] self@[i].key()) == b(
                self@[i].key(),
            ) by {
                lemma_prefix_language(p, self@[i]);
            }
            lemma_select_agree(self@, a, b);
        }
        self.query(Some(automaton), ge, gt, le, lt)
    }

    /// A scan of the keys in which the bytes of `str` occur in order, not
    /// necessarily next to each other, and which meet the bounds.
    pub fn subsequence(
        &self,
        str: &[u8],
        ge: Option<&[u8]>,
        gt: Option<&[u8]>,
        le: Option<&[u8]>,
        lt: Option<&[u8]>,
    ) -> (r: KeyIterator)
        requires
            self.wf(),
        ensures
            r.wf(),
            r.remaining() == select(
                self@,
                query_test(
                    has_subsequence(str@),
                    opt_bytes(ge),
                    opt_bytes(gt),
                    opt_bytes(le),
                    opt_bytes(lt),
                ),
            ),
    {
        let automaton = AutomatonGraph::subsequence(str).get();
        proof {
            let p = automaton.node()->Subsequence_0;
            let a = query_test(
                accepted_by(automaton.node()),
                opt_bytes(ge),
                opt_bytes(gt),
                opt_bytes(le),
                opt_bytes(lt),
            );
            let b = query_test(
                has_subsequence(str@),
                opt_bytes(ge),
                opt_bytes(gt),
                opt_bytes(le),
                opt_bytes(lt),
            );
            assert forall|i: int| 0 <= i < self@.len() implies a(#[trigger] self@[i].key()) == b(
                self@[i].key(),
            ) by {
                lemma_subsequence_language(p, self@[i]);
            }
            lemma_select_agree(self@, a, b);
        }
        self.query(Some(automaton), ge, gt, le, lt)
    }

    /// A scan of the keys that the automaton accepts and that meet the
    /// bounds.
    pub fn search(
        &self,
        automaton: &AutomatonGraph,
        ge: Option<&[u8]>,
        gt: Option<&[u8]>,
        le: Option<&[u8]>,
        lt: Option<&[u8]>,
    ) -> (r: AutomatonIterator)
        requires
            self.wf(),
        ensures
            r.wf(),
            r.remaining() == select(
                self@,
                query_test(
                    accepted_by(automaton.node()),
                    opt_bytes(ge),
                    opt_bytes(gt),
                    opt_bytes(le),
                    opt_bytes(lt),
                ),
            ),
    {
        AutomatonIterator { keys: self.query(Some(automaton.get()), ge, gt, le, lt) }
    }

    /// Builds the union of this set and `others`: the keys of any of them.
    pub fn union(&self, others: &[FstSet]) -> (r: Result<Buffer, Failure>)
        requires
            self.wf(),
            all_wf(others@),
        ensures
            r matches Ok(buf) && set_image(buf@) matches Some(ks) && covers(
                SetOp::Union,
                inputs_of(*self, others@),
                ks,
            ),
    {
        let sets = setvec(self, others);
        build_from_stream(SetOp::Union, &sets)
    }

    /// Builds the intersection of this set and `others`: the keys that all
    /// of them have.
    pub fn intersection(&self, others: &[FstSet]) -> (r: Result<Buffer, Failure>)
        requires
            self.wf(),
            all_wf(others@),
        ensures
            r matches Ok(buf) && set_image(buf@) matches Some(ks) && covers(
                SetOp::Intersection,
                inputs_of(*self, others@),
                ks,
            ),
    {
        let sets = setvec(self, others);
        build_from_stream(SetOp::Intersection, &sets)
    }

    /// Builds the difference of this set and `others`: the keys of this set
    /// that none of the others has.
    pub fn difference(&self, others: &[FstSet]) -> (r: Result<Buffer, Failure>)
        requires
            self.wf(),
            all_wf(others@),
        ensures
            r matches Ok(buf) && set_image(buf@) matches Some(ks) && covers(
                SetOp::Difference,
                inputs_of(*self, others@),
                ks,
            ),
    {
        let sets = setvec(self, others);
        build_from_stream(SetOp::Difference, &sets)
    }

    /// Builds the symmetric difference of this set and `others`: the keys
    /// that an odd number of them have.
    pub fn symmetric_difference(&self, others: &[FstSet]) -> (r: Result<Buffer, Failure>)
        requires
            self.wf(),
            all_wf(others@),
        ensures
            r matches Ok(buf) && set_image(buf@) matches Some(ks) && covers(
                SetOp::SymmetricDifference,
                inputs_of(*self, others@),
                ks,
            ),
    {
        let sets = setvec(self, others);
        build_from_stream(SetOp::SymmetricDifference, &sets)
    }
}

} // verus!

//! An immutable map from byte-string keys to unsigned 64-bit integers, kept
//! as a finite-state transducer and read in key order.

use crate::automaton::{share, ArcNode, AutomatonGraph};
use crate::buffer::Buffer;
use crate::bytes::{bytes_eq, successor_of};
use crate::entries::{
    any_key, ascending, entry_values, first, holds, keys_of, lemma_scan_everything,
    lemma_scan_rest, lemma_select_agree, lookup, rest, same_entry, same_key, scan, scan_test,
    select, Keyed,
};
use crate::error::Failure;
use crate::language::{
    accept_of, accepted_by, lemma_prefix_language, lemma_prunes_soundly,
    lemma_subsequence_language,
};
use crate::range::{add_range, bounds, has_prefix, has_subsequence, opt_bytes, opt_vec, query_test};
use crate::item::{item_entry, parse_item, Item};
use crate::layout::{check_counts, counts_fit};
use crate::merge::{
    covers_before, is_merge_of_maps, lemma_count_holding, lemma_cover_done, lemma_cover_extend,
    lemma_cover_nothing, lemma_merge_progress, lemma_occurrences, occurrences, pending,
    values_selected, SetOp,
};
use crate::raw_map::{
    all_entries, all_valid, builder_entries, builder_finish, builder_insert, builder_new,
    can_follow, map_contains_key, map_difference_next, map_entries, map_get, map_image,
    map_intersection_next, map_len, map_open, map_range_next, map_search_next,
    map_symmetric_difference_next, map_union_next, map_valid,
};
use crate::select::{leq_indexed, lemma_leq_indexed_total, order_by_index, select_value, Op};
use vstd::seq_lib::lemma_sorted_unique;
use std::sync::Arc;
use vstd::prelude::*;

verus! {

/// An immutable map of byte-string keys and unsigned 64-bit integers. The
/// handle holds no state of any query: every scan has its own.
pub struct FstMap {
    inner: Arc<fst::Map<Vec<u8>>>,
}

/// A scan over the entries of a map, in key order.
pub struct ItemIterator {
    map: Arc<fst::Map<Vec<u8>>>,
    automaton: Option<ArcNode>,
    from: Vec<u8>,
    until: Option<Vec<u8>>,
    done: bool,
}

/// A scan over the keys of a map, in key order.
pub struct KeyIterator {
    items: ItemIterator,
}

/// A scan over the values of a map, in the order of their keys.
pub struct ValueIterator {
    items: ItemIterator,
}

/// A scan over the entries of a map whose keys an automaton accepts, in key
/// order.
pub struct AutomatonIterator {
    items: ItemIterator,
}

impl ItemIterator {
    /// The scan is over a valid map.
    pub closed spec fn wf(&self) -> bool {
        map_valid(*self.map) && ascending(map_entries(*self.map))
    }

    /// The entries of the map under the scan.
    spec fn entries(&self) -> Seq<(Seq<u8>, u64)> {
        map_entries(*self.map)
    }

    /// The entries that the scan has yet to yield, in the order in which it
    /// will yield them.
    pub closed spec fn remaining(&self) -> Seq<(Seq<u8>, u64)> {
        if self.done {
            Seq::empty()
        } else {
            scan(
                map_entries(*self.map),
                accept_of(self.automaton),
                self.from@,
                opt_vec(self.until),
            )
        }
    }

    /// The next entry, or `None` once and for all when no entry is left.
    pub fn next(&mut self) -> (r: Option<(Vec<u8>, u64)>)
        requires
            old(self).wf(),
        ensures
            final(self).wf(),
            same_entry(r, first(old(self).remaining())),
            final(self).remaining() == rest(old(self).remaining()),
    {
        if self.done {
            return None;
        }
        let until: Option<&[u8]> = match &self.until {
            Some(u) => Some(u.as_slice()),
            None => None,
        };
        let r = match &self.automaton {
            Some(a) => {
                proof {
                    lemma_prunes_soundly(a.node());
                }
                map_search_next(&self.map, a, self.from.as_slice(), until)
            },
            None => map_range_next(&self.map, self.from.as_slice(), until),
        };
        match &r {
            None => {
                self.done = true;
            },
            Some((k, _)) => {
                proof {
                    lemma_scan_rest(
                        self.entries(),
                        accept_of(self.automaton),
                        self.from@,
                        opt_vec(self.until),
                    );
                }
                self.from = successor_of(k.as_slice());
            },
        }
        r
    }
}

impl KeyIterator {
    /// The scan is over a valid map.
    pub closed spec fn wf(&self) -> bool {
        self.items.wf()
    }

    /// The keys that the scan has yet to yield, in order.
    pub closed spec fn remaining(&self) -> Seq<Seq<u8>> {
        keys_of(self.items.remaining())
    }

    /// The next key, or `None` once and for all when no key is left.
    pub fn next(&mut self) -> (r: Option<Vec<u8>>)
        requires
            old(self).wf(),
        ensures
            final(self).wf(),
            same_key(r, first(old(self).remaining())),
            final(self).remaining() == rest(old(self).remaining()),
    {
        let ghost before = self.items.remaining();
        let r = self.items.next();
        proof {
            assert(keys_of(rest(before)) =~= rest(keys_of(before)));
        }
        match r {
            Some((k, _)) => Some(k),
            None => None,
        }
    }
}

impl ValueIterator {
    /// The scan is over a valid map.
    pub closed spec fn wf(&self) -> bool {
        self.items.wf()
    }

    /// The values that the scan has yet to yield, in order.
    pub closed spec fn remaining(&self) -> Seq<u64> {
        entry_values(self.items.remaining())
    }

    /// The next value, or `None` once and for all when no value is left.
    pub fn next(&mut self) -> (r: Option<u64>)
        requires
            old(self).wf(),
        ensures
            final(self).wf(),
            r == first(old(self).remaining()),
            final(self).remaining() == rest(old(self).remaining()),
    {
        let ghost before = self.items.remaining();
        let r = self.items.next();
        proof {
            assert(entry_values(rest(before)) =~= rest(entry_values(before)));
        }
        match r {
            Some((_, v)) => Some(v),
            None => None,
        }
    }
}

impl AutomatonIterator {
    /// The scan is over a valid map.
    pub closed spec fn wf(&self) -> bool {
        self.items.wf()
    }

    /// The entries that the scan has yet to yield, in the order in which it
    /// will yield them.
    pub closed spec fn remaining(&self) -> Seq<(Seq<u8>, u64)> {
        self.items.remaining()
    }

    /// The next entry, or `None` once and for all when no entry is left.
    pub fn next(&mut self) -> (r: Option<(Vec<u8>, u64)>)
        requires
            old(self).wf(),
        ensures
            final(self).wf(),
            same_entry(r, first(old(self).remaining())),
            final(self).remaining() == rest(old(self).remaining()),
    {
        self.items.next()
    }
}

impl FstMap {
    /// The bytes behind the map are a map as a build writes it. Every map
    /// opened on the result of a build is valid.
    pub closed spec fn wf(&self) -> bool {
        map_valid(*self.inner) && ascending(map_entries(*self.inner))
    }

    /// The entries of the map, in key order.
    pub closed spec fn view(&self) -> Seq<(Seq<u8>, u64)> {
        map_entries(*self.inner)
    }

    /// The entries of a valid map ascend strictly by key.
    pub proof fn lemma_ascending(&self)
        requires
            self.wf(),
        ensures
            ascending(self@),
    {
    }

    /// Opens a map on `data`. On the bytes of a build this succeeds, and
    /// the map is valid and holds the entries built, unless a count in the
    /// bytes does not fit a size of this machine. Bytes that are refused
    /// are refused with `InvalidData`.
    pub fn new(data: Vec<u8>) -> (r: Result<FstMap, Failure>)
        ensures
            counts_fit(data@) ==> (map_image(data@) matches Some(e) ==> r matches Ok(m) && m.wf()
                && m@ == e),
            !counts_fit(data@) ==> r is Err,
            r matches Ok(m) ==> (m.wf() <==> map_image(data@) is Some),
            r matches Err(e) ==> e == Failure::InvalidData,
    {
        if !check_counts(data.as_slice()) {
            return Err(Failure::InvalidData);
        }
        match map_open(data) {
            Ok(m) => Ok(FstMap { inner: Arc::new(m) }),
            Err(_) => Err(Failure::InvalidData),
        }
    }

    /// Another handle on the same map.
    pub fn copy(&self) -> (r: FstMap)
        ensures
            r@ == self@,
            r.wf() == self.wf(),
    {
        FstMap { inner: share(&self.inner) }
    }

    /// The value under `key`, or `default` where the map has no such key.
    pub fn get(&self, key: &[u8], default: Option<u64>) -> (r: Option<u64>)
        requires
            self.wf(),
        ensures
            r == match lookup(self@, key@) {
                Some(v) => Some(v),
                None => default,
            },
    {
        match map_get(&self.inner, key) {
            Some(v) => Some(v),
            None => default,
        }
    }

    /// The value under `key`; `KeyNotFound` where the map has no such key.
    pub fn subscript(&self, key: &[u8]) -> (r: Result<u64, Failure>)
        requires
            self.wf(),
        ensures
            r == match lookup(self@, key@) {
                Some(v) => Ok::<u64, Failure>(v),
                None => Err::<u64, Failure>(Failure::KeyNotFound),
            },
    {
        if let Some(val) = map_get(&self.inner, key) {
            Ok(val)
        } else {
            Err(Failure::KeyNotFound)
        }
    }

    /// Whether the map has `key`.
    pub fn contains(&self, key: &[u8]) -> (r: bool)
        requires
            self.wf(),
        ensures
            r == holds(self@, key@),
    {
        map_contains_key(&self.inner, key)
    }

    /// The number of entries.
    pub fn len(&self) -> (r: usize)
        requires
            self.wf(),
        ensures
            r == self@.len(),
    {
        map_len(&self.inner)
    }

    /// A scan of the entries whose keys lie within the bounds given and which
    /// the automaton accepts, where there is one.
    fn query(
        &self,
        automaton: Option<ArcNode>,
        ge: Option<&[u8]>,
        gt: Option<&[u8]>,
        le: Option<&[u8]>,
        lt: Option<&[u8]>,
    ) -> (r: ItemIterator)
        requires
            self.wf(),
        ensures
            r.wf(),
            r.remaining() == select(
                self@,
                query_test(
                    accept_of(automaton),
                    opt_bytes(ge),
                    opt_bytes(gt),
                    opt_bytes(le),
                    opt_bytes(lt),
                ),
            ),
    {
        let range = add_range(ge, gt, le, lt);
        proof {
            let test = query_test(
                accept_of(automaton),
                opt_bytes(ge),
                opt_bytes(gt),
                opt_bytes(le),
                opt_bytes(lt),
            );
            let keep = scan_test(accept_of(automaton), range.from@, opt_vec(range.until));
            assert forall|i: int| 0 <= i < self@.len() implies keep(#[trigger] self@[i].0) == test(
                self@[i].0,
            ) by {
                assert(range.contains(self@[i].0) == crate::range::bounded(
                    self@[i].0,
                    opt_bytes(ge),
                    opt_bytes(gt),
                    opt_bytes(le),
                    opt_bytes(lt),
                ));
            }
            lemma_select_agree(self@, keep, test);
        }
        ItemIterator {
            map: share(&self.inner),
            automaton,
            from: range.from,
            until: range.until,
            done: false,
        }
    }

    /// A scan of all entries, in key order.
    pub fn items(&self) -> (r: ItemIterator)
        requires
            self.wf(),
        ensures
            r.wf(),
            r.remaining() == self@,
    {
        proof {
            lemma_scan_everything(self@);
        }
        ItemIterator {
            map: share(&self.inner),
            automaton: None,
            from: Vec::new(),
            until: None,
            done: false,
        }
    }

    /// A scan of all keys, in order.
    pub fn keys(&self) -> (r: KeyIterator)
        requires
            self.wf(),
        ensures
            r.wf(),
            r.remaining() == keys_of(self@),
    {
        KeyIterator { items: self.items() }
    }

    /// A scan of all keys, in order: what iterating over the map yields.
    pub fn iter(&self) -> (r: KeyIterator)
        requires
            self.wf(),
        ensures
            r.wf(),
            r.remaining() == keys_of(self@),
    {
        self.keys()
    }

    /// A scan of all values, in the order of their keys.
    pub fn values(&self) -> (r: ValueIterator)
        requires
            self.wf(),
        ensures
            r.wf(),
            r.remaining() == entry_values(self@),
    {
        ValueIterator { items: self.items() }
    }

    /// A scan of the entries whose keys meet each bound that is given: at
    /// or after `ge`, after `gt`, at or before `le`, before `lt`.
    pub fn range(
        &self,
        ge: Option<&[u8]>,
        gt: Option<&[u8]>,
        le: Option<&[u8]>,
        lt: Option<&[u8]>,
    ) -> (r: ItemIterator)
        requires
            self.wf(),
        ensures
            r.wf(),
            r.remaining() == select(
                self@,
                bounds(opt_bytes(ge), opt_bytes(gt), opt_bytes(le), opt_bytes(lt)),
            ),
    {
        proof {
            lemma_select_agree(
                self@,
                query_test(any_key(), opt_bytes(ge), opt_bytes(gt), opt_bytes(le), opt_bytes(lt)),
                bounds(opt_bytes(ge), opt_bytes(gt), opt_bytes(le), opt_bytes(lt)),
            );
        }
        self.query(None, ge, gt, le, lt)
    }

    /// A scan of the entries whose keys begin with `str` and meet the
    /// bounds.
    pub fn starts_with(
        &self,
        str: &[u8],
        ge: Option<&[u8]>,
        gt: Option<&[u8]>,
        le: Option<&[u8]>,
        lt: Option<&[u8]>,
    ) -> (r: ItemIterator)
        requires
            self.wf(),
        ensures
            r.wf(),
            r.remaining() == select(
                self@,
                query_test(
                    has_prefix(str@),
                    opt_bytes(ge),
                    opt_bytes(gt),
                    opt_bytes(le),
                    opt_bytes(lt),
                ),
            ),
    {
        let automaton = AutomatonGraph::str(str).starts_with().get();
        proof {
            let p = crate::language::at(automaton.node()->StartsWith_0)->Str_0;
            assert forall|i: int| 0 <= i < self@.len() implies query_test(
                accepted_by(automaton.node()),
                opt_bytes(ge),
                opt_bytes(gt),
                opt_bytes(le),
                opt_bytes(lt),
            )(#[trigger] self@[i].0) == query_test(
                has_prefix(str@),
                opt_bytes(ge),
                opt_bytes(gt),
                opt_bytes(le),
                opt_bytes(lt),
            )(self@[i].0) by {
                lemma_prefix_language(p, self@[i].0);
            }
            lemma_select_agree(
                self@,
                query_test(
                    accepted_by(automaton.node()),
                    opt_bytes(ge),
                    opt_bytes(gt),
                    opt_bytes(le),
                    opt_bytes(lt),
                ),
                query_test(
                    has_prefix(str@),
                    opt_bytes(ge),
                    opt_bytes(gt),
                    opt_bytes(le),
                    opt_bytes(lt),
                ),
            );
        }
        self.query(Some(automaton), ge, gt, le, lt)
    }

    /// A scan of the entries in whose keys the bytes of `str` occur in
    /// order, not necessarily next to each other, and whose keys meet the
    /// bounds.
    pub fn subsequence(
        &self,
        str: &[u8],
        ge: Option<&[u8]>,
        gt: Option<&[u8]>,
        le: Option<&[u8]>,
        lt: Option<&[u8]>,
    ) -> (r: ItemIterator)
        requires
            self.wf(),
        ensures
            r.wf(),
            r.remaining() == select(
                self@,
                query_test(
                    has_subsequence(str@),
                    opt_bytes(ge),
                    opt_bytes(gt),
                    opt_bytes(le),
                    opt_bytes(lt),
                ),
            ),
    {
        let automaton = AutomatonGraph::subsequence(str).get();
        proof {
            let p = automaton.node()->Subsequence_0;
            assert forall|i: int| 0 <= i < self@.len() implies query_test(
                accepted_by(automaton.node()),
                opt_bytes(ge),
                opt_bytes(gt),
                opt_bytes(le),
                opt_bytes(lt),
            )(#[trigger] self@[i].0) == query_test(
                has_subsequence(str@),
                opt_bytes(ge),
                opt_bytes(gt),
                opt_bytes(le),
                opt_bytes(lt),
            )(self@[i].0) by {
                lemma_subsequence_language(p, self@[i].0);
            }
            lemma_select_agree(
                self@,
                query_test(
                    accepted_by(automaton.node()),
                    opt_bytes(ge),
                    opt_bytes(gt),
                    opt_bytes(le),
                    opt_bytes(lt),
                ),
                query_test(
                    has_subsequence(str@),
                    opt_bytes(ge),
                    opt_bytes(gt),
                    opt_bytes(le),
                    opt_bytes(lt),
                ),
            );
        }
        self.query(Some(automaton), ge, gt, le, lt)
    }

    /// A scan of the entries whose keys the automaton accepts and which
    /// meet the bounds.
    pub fn search(
        &self,
        automaton: &AutomatonGraph,
        ge: Option<&[u8]>,
        gt: Option<&[u8]>,
        le: Option<&[u8]>,
        lt: Option<&[u8]>,
    ) -> (r: AutomatonIterator)
        requires
            self.wf(),
        ensures
            r.wf(),
            r.remaining() == select(
                self@,
                query_test(
                    accepted_by(automaton.node()),
                    opt_bytes(ge),
                    opt_bytes(gt),
                    opt_bytes(le),
                    opt_bytes(lt),
                ),
            ),
    {
        AutomatonIterator { items: self.query(Some(automaton.get()), ge, gt, le, lt) }
    }

    /// Builds a map from `items`, which must be well-formed and come in
    /// strictly ascending order of their keys, and returns its bytes. Fails
    /// with the failure of the first item that cannot be taken.
    pub fn build(items: &[Item]) -> (r: Result<Buffer, Failure>)
        ensures
            match filled(items@) {
                Ok(es) => r matches Ok(buf) && map_image(buf@) == Some(es),
                Err(e) => r matches Err(x) && x == e,
            },
    {
        match fill_from_iterable(items) {
            Ok(w) => Ok(Buffer::new(w)),
            Err(e) => Err(e),
        }
    }

    /// Whether the two maps hold the same entries.
    pub fn equals(&self, other: &FstMap) -> (r: bool)
        requires
            self.wf(),
            other.wf(),
        ensures
            r == (self@ == other@),
    {
        if self.len() != other.len() {
            return false;
        }
        let mut s = self.items();
        let mut o = other.items();
        loop
            invariant
                s.wf(),
                o.wf(),
                (self@ == other@) <==> (s.remaining() == o.remaining()),
            decreases s.remaining().len(),
        {
            let ghost rs = s.remaining();
            let ghost ro = o.remaining();
            match (s.next(), o.next()) {
                (Some(a), Some(b)) => {
                    proof {
                        assert(rs =~= seq![rs[0]] + rs.skip(1));
                        assert(ro =~= seq![ro[0]] + ro.skip(1));
                    }
                    if !(bytes_eq(a.0.as_slice(), b.0.as_slice()) && a.1 == b.1) {
                        return false;
                    }
                    proof {
                        assert(rs[0] == ro[0]);
                    }
                },
                (None, None) => {
                    proof {
                        assert(rs =~= ro);
                    }
                    return true;
                },
                _ => {
                    return false;
                },
            }
        }
    }

    /// Builds the union of this map and `others`: the keys of any of them,
    /// each with the value that `select` chooses.
    pub fn union(&self, others: &[FstMap], select: Op) -> (r: Result<Buffer, Failure>)
        requires
            self.wf(),
            all_wf(others@),
        ensures
            r matches Ok(buf) && map_image(buf@) matches Some(e) && is_merge_of_maps(
                SetOp::Union,
                inputs_of(*self, others@),
                select,
                e,
            ),
    {
        let maps = mapvec(self, others);
        build_from_stream(SetOp::Union, &maps, select)
    }

    /// Builds the intersection of this map and `others`: the keys that all
    /// of them have, each with the value that `select` chooses.
    pub fn intersection(&self, others: &[FstMap], select: Op) -> (r: Result<Buffer, Failure>)
        requires
            self.wf(),
            all_wf(others@),
        ensures
            r matches Ok(buf) && map_image(buf@) matches Some(e) && is_merge_of_maps(
                SetOp::Intersection,
                inputs_of(*self, others@),
                select,
                e,
            ),
    {
        let maps = mapvec(self, others);
        build_from_stream(SetOp::Intersection, &maps, select)
    }

    /// Builds the difference of this map and `others`: the keys of this map
    /// that none of the others has, with their values.
    pub fn difference(&self, others: &[FstMap], select: Op) -> (r: Result<Buffer, Failure>)
        requires
            self.wf(),
            all_wf(others@),
        ensures
            r matches Ok(buf) && map_image(buf@) matches Some(e) && is_merge_of_maps(
                SetOp::Difference,
                inputs_of(*self, others@),
                select,
                e,
            ),
    {
        let maps = mapvec(self, others);
        build_from_stream(SetOp::Difference, &maps, select)
    }

    /// Builds the symmetric difference of this map and `others`: the keys
    /// that an odd number of them have, each with the value that `select`
    /// chooses.
    pub fn symmetric_difference(&self, others: &[FstMap], select: Op) -> (r: Result<
        Buffer,
        Failure,
    >)
        requires
            self.wf(),
            all_wf(others@),
        ensures
            r matches Ok(buf) && map_image(buf@) matches Some(e) && is_merge_of_maps(
                SetOp::SymmetricDifference,
                inputs_of(*self, others@),
                select,
                e,
            ),
    {
        let maps = mapvec(self, others);
        build_from_stream(SetOp::SymmetricDifference, &maps, select)
    }
}

/// Writes a map entry by entry, in key order, into memory.
pub struct MapWriter {
    inner: fst::MapBuilder<Vec<u8>>,
}

/// The entries after `item` is offered behind the entries `es`: those and
/// the entry of the item, where the item is well-formed and its key comes
/// strictly after the last one; else the failure, `OutOfOrder` for a key
/// that does not.
pub open spec fn extended(es: Seq<(Seq<u8>, u64)>, item: Item) -> Result<
    Seq<(Seq<u8>, u64)>,
    Failure,
> {
    match item_entry(item) {
        Err(e) => Err(e),
        Ok((k, v)) => if can_follow(es, k) {
            Ok(es.push((k, v)))
        } else {
            Err(Failure::OutOfOrder)
        },
    }
}

/// The entries that a build from `items` writes, or the failure of the
/// first item that it cannot take.
pub open spec fn filled(items: Seq<Item>) -> Result<Seq<(Seq<u8>, u64)>, Failure>
    decreases items.len(),
{
    if items.len() == 0 {
        Ok(Seq::empty())
    } else {
        match filled(items.drop_last()) {
            Err(e) => Err(e),
            Ok(es) => extended(es, items.last()),
        }
    }
}

impl MapWriter {
    /// The entries written so far.
    pub closed spec fn view(&self) -> Seq<(Seq<u8>, u64)> {
        builder_entries(self.inner)
    }

    /// A writer that has written nothing yet.
    pub fn new() -> (r: Result<MapWriter, Failure>)
        ensures
            r matches Ok(w) && w@.len() == 0,
    {
        match builder_new() {
            Ok(b) => Ok(MapWriter { inner: b }),
            Err(_) => Err(Failure::Runtime),
        }
    }

    /// Writes an entry. The key must come strictly after the last key
    /// written; else nothing is written and the failure is `OutOfOrder`.
    pub fn insert(&mut self, key: &[u8], val: u64) -> (r: Result<(), Failure>)
        ensures
            r == if can_follow(old(self)@, key@) {
                Ok::<(), Failure>(())
            } else {
                Err::<(), Failure>(Failure::OutOfOrder)
            },
            final(self)@ == if can_follow(old(self)@, key@) {
                old(self)@.push((key@, val))
            } else {
                old(self)@
            },
    {
        match builder_insert(&mut self.inner, key, val) {
            Ok(()) => Ok(()),
            Err(_) => Err(Failure::OutOfOrder),
        }
    }

    /// Writes the entry that `item` stands for. An item that is not
    /// well-formed is refused before anything is written.
    pub fn insert_item(&mut self, item: &Item) -> (r: Result<(), Failure>)
        ensures
            match extended(old(self)@, *item) {
                Ok(es) => r is Ok && final(self)@ == es,
                Err(e) => r == Err::<(), Failure>(e) && final(self)@ == old(self)@,
            },
    {
        let (key, val) = match parse_item(item) {
            Ok(entry) => entry,
            Err(e) => {
                return Err(e);
            },
        };
        self.insert(key, val)
    }

    /// Ends the map and hands out its bytes, on which a map can be opened
    /// that holds the entries written.
    pub fn finish(self) -> (r: Result<Vec<u8>, Failure>)
        ensures
            r matches Ok(bytes) && map_image(bytes@) == Some(self@),
    {
        match builder_finish(self.inner) {
            Ok(bytes) => Ok(bytes),
            Err(_) => Err(Failure::Runtime),
        }
    }
}

/// Builds the bytes of a map from `items`, which must be well-formed and
/// come in strictly ascending order of their keys. Stops at the first item
/// that it cannot take.
pub fn fill_from_iterable(items: &[Item]) -> (r: Result<Vec<u8>, Failure>)
    ensures
        match filled(items@) {
            Ok(es) => r matches Ok(bytes) && map_image(bytes@) == Some(es),
            Err(e) => r matches Err(x) && x == e,
        },
{
    let mut writer = match MapWriter::new() {
        Ok(w) => w,
        Err(e) => {
            return Err(e);
        },
    };
    let mut i: usize = 0;
    assert(items@.take(0) =~= Seq::<Item>::empty());
    assert(writer@ =~= Seq::empty());
    while i < items.len()
        invariant
            i <= items@.len(),
            filled(items@.take(i as int)) == Ok::<Seq<(Seq<u8>, u64)>, Failure>(writer@),
        decreases items@.len() - i,
    {
        proof {
            assert(items@.take(i + 1).drop_last() =~= items@.take(i as int));
            assert(items@.take(i + 1).last() == items@[i as int]);
        }
        match writer.insert_item(&items[i]) {
            Ok(()) => {},
            Err(e) => {
                proof {
                    lemma_filled_fails(items@, i + 1);
                }
                return Err(e);
            },
        }
        i += 1;
    }
    assert(items@.take(i as int) =~= items@);
    writer.finish()
}

/// A build that fails on the first `n` items fails alike on all of them.
proof fn lemma_filled_fails(items: Seq<Item>, n: int)
    requires
        0 <= n <= items.len(),
        filled(items.take(n)) is Err,
    ensures
        filled(items) == filled(items.take(n)),
    decreases items.len() - n,
{
    if n < items.len() {
        assert(items.take(n + 1).drop_last() =~= items.take(n));
        lemma_filled_fails(items, n + 1);
    } else {
        assert(items.take(n) =~= items);
    }
}

/// The entries of the maps that a merge reads, the receiver first.
pub open spec fn inputs_of(first: FstMap, others: Seq<FstMap>) -> Seq<Seq<(Seq<u8>, u64)>> {
    seq![first@] + others.map_values(|m: FstMap| m@)
}

/// Every one of the maps is valid.
pub open spec fn all_wf(maps: Seq<FstMap>) -> bool {
    forall|i: int| 0 <= i < maps.len() ==> (#[trigger] maps[i]).wf()
}

/// The handles of the maps that a merge reads, the receiver first.
fn mapvec(first: &FstMap, others: &[FstMap]) -> (maps: Vec<Arc<fst::Map<Vec<u8>>>>)
    requires
        first.wf(),
        all_wf(others@),
    ensures
        maps@.len() > 0,
        all_valid(maps@),
        all_entries(maps@) == inputs_of(*first, others@),
{
    let mut maps: Vec<Arc<fst::Map<Vec<u8>>>> = Vec::with_capacity(others.len());
    maps.push(share(&first.inner));
    let mut i: usize = 0;
    while i < others.len()
        invariant
            i <= others@.len(),
            first.wf(),
            all_wf(others@),
            maps@.len() == i + 1,
            maps@[0] == first.inner,
            forall|j: int| 0 <= j < i ==> #[trigger] maps@[j + 1] == others@[j].inner,
        decreases others@.len() - i,
    {
        maps.push(share(&others[i].inner));
        i += 1;
    }
    proof {
        assert forall|j: int| 0 <= j < maps@.len() implies map_valid(*#[trigger] maps@[j]) by {
            if j > 0 {
                assert(maps@[(j - 1) + 1] == others@[j - 1].inner);
                assert(others@[j - 1].wf());
            }
        }
        let a = all_entries(maps@);
        let b = inputs_of(*first, others@);
        assert(a.len() == b.len());
        assert forall|j: int| 0 <= j < a.len() implies a[j] == b[j] by {
            if j > 0 {
                assert(maps@[(j - 1) + 1] == others@[j - 1].inner);
            }
        }
        assert(a =~= b);
    }
    maps
}

/// Merges the maps under the operation `op` and writes the map of the keys
/// it keeps, each with the value that the policy chooses among what the
/// maps hold for it, in the order of the maps.
fn fill_from_stream(op: SetOp, maps: &Vec<Arc<fst::Map<Vec<u8>>>>, select: Op) -> (r: Result<
    Vec<u8>,
    Failure,
>)
    requires
        maps@.len() > 0,
        all_valid(maps@),
    ensures
        r matches Ok(bytes) && map_image(bytes@) matches Some(e) && is_merge_of_maps(
            op,
            all_entries(maps@),
            select,
            e,
        ),
{
    let ghost inputs = all_entries(maps@);
    let mut writer = match MapWriter::new() {
        Ok(w) => w,
        Err(e) => {
            return Err(e);
        },
    };
    let mut from: Vec<u8> = Vec::new();
    proof {
        lemma_cover_nothing(op, inputs);
        assert(writer@ =~= Seq::empty());
        assert(maps@.len() == maps.len());
    }
    loop
        invariant
            0 < maps@.len() <= usize::MAX,
            all_valid(maps@),
            inputs == all_entries(maps@),
            covers_before(op, inputs, writer@, from@),
            values_selected(inputs, select, writer@),
        ensures
            is_merge_of_maps(op, inputs, select, writer@),
        decreases pending(inputs, from@),
    {
        let step = match op {
            SetOp::Union => map_union_next(maps, from.as_slice()),
            SetOp::Intersection => map_intersection_next(maps, from.as_slice()),
            SetOp::Difference => map_difference_next(maps, from.as_slice()),
            SetOp::SymmetricDifference => map_symmetric_difference_next(maps, from.as_slice()),
        };
        match step {
            None => {
                proof {
                    lemma_cover_done(op, inputs, writer@, from@);
                }
                break ;
            },
            Some((key, occ)) => {
                let ordered = order_by_index(&occ);
                proof {
                    let expected = occurrences(inputs, key@);
                    lemma_occurrences(inputs, key@);
                    lemma_count_holding(inputs, key@);
                    lemma_leq_indexed_total();
                    lemma_sorted_unique(ordered@, expected, leq_indexed());
                    lemma_merge_progress(op, inputs, from@, key@);
                    if writer@.len() > 0 {
                        let last = writer@[writer@.len() - 1];
                        assert(last.key() == writer@.last().0);
                        assert(crate::entries::holds(writer@, writer@.last().0));
                        crate::bytes::lemma_lex_lt_le(writer@.last().0, from@, key@);
                    }
                }
                let val = select_value(select, ordered.as_slice());
                let ghost before = writer@;
                match writer.insert(key.as_slice(), val) {
                    Ok(()) => {},
                    Err(e) => {
                        return Err(e);
                    },
                }
                proof {
                    lemma_cover_extend(op, inputs, before, from@, (key@, val));
                }
                from = successor_of(key.as_slice());
            },
        }
    }
    writer.finish()
}

/// Merges the maps into a buffer that holds the bytes of the merged map.
fn build_from_stream(op: SetOp, maps: &Vec<Arc<fst::Map<Vec<u8>>>>, select: Op) -> (r: Result<
    Buffer,
    Failure,
>)
    requires
        maps@.len() > 0,
        all_valid(maps@),
    ensures
        r matches Ok(buf) && map_image(buf@) matches Some(e) && is_merge_of_maps(
            op,
            all_entries(maps@),
            select,
            e,
        ),
{
    match fill_from_stream(op, maps, select) {
        Ok(bytes) => Ok(Buffer::new(bytes)),
        Err(e) => Err(e),
    }
}

} // verus!

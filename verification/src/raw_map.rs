//! The map of the transducer library as this crate sees it. Nothing in this
//! file is proved: each function calls the library, and its contract states
//! what the library's source and documentation say of the call.

use crate::automaton::ArcNode;
use crate::entries::{ascending, first, holds, lookup, same_entry, scan, any_key};
use crate::language::{accepted_by, prunes_soundly};
use crate::layout::counts_fit;
use crate::merge::{map_merge_step, SetOp};
use crate::range::opt_bytes;
use crate::select::IndexedValue;
use fst::{IntoStreamer, Streamer};
use std::sync::Arc;
use vstd::prelude::*;

verus! {

/// `fst::Map`, a map over the bytes `D`. Nothing of its inside is known here.
#[verifier::external_type_specification]
#[verifier::external_body]
#[verifier::reject_recursive_types(D)]
pub struct ExMap<D>(fst::Map<D>);

/// `fst::MapBuilder`, which writes a map to `W`. Nothing of its inside is
/// known here.
#[verifier::external_type_specification]
#[verifier::external_body]
#[verifier::reject_recursive_types(W)]
pub struct ExMapBuilder<W>(fst::MapBuilder<W>);

/// `fst::Error`, the failure of a call into the transducer library. Nothing
/// of its inside is known here.
#[verifier::external_type_specification]
#[verifier::external_body]
pub struct ExError(fst::Error);

/// The bytes behind the map are a transducer as the library's builder writes
/// it. Of other bytes the library promises nothing, not even to return.
pub uninterp spec fn map_valid(m: fst::Map<Vec<u8>>) -> bool;

/// The entries of the map, in the order in which its stream yields them.
pub uninterp spec fn map_entries(m: fst::Map<Vec<u8>>) -> Seq<(Seq<u8>, u64)>;

/// The entries that a map opened on `bytes` holds, where `bytes` is what the
/// library's builder has written for some entries; `None` for other bytes.
pub uninterp spec fn map_image(bytes: Seq<u8>) -> Option<Seq<(Seq<u8>, u64)>>;

/// The entries inserted into the builder so far.
pub uninterp spec fn builder_entries(b: fst::MapBuilder<Vec<u8>>) -> Seq<(Seq<u8>, u64)>;

/// The entries of each of the maps.
pub open spec fn all_entries(maps: Seq<Arc<fst::Map<Vec<u8>>>>) -> Seq<Seq<(Seq<u8>, u64)>> {
    Seq::new(maps.len(), |i: int| map_entries(*maps[i]))
}

/// Every one of the maps is valid.
pub open spec fn all_valid(maps: Seq<Arc<fst::Map<Vec<u8>>>>) -> bool {
    forall|i: int| 0 <= i < maps.len() ==> map_valid(*#[trigger] maps[i])
}

/// `fst::Map::new`. It reads the format version and the counts of `data`
/// and checks nothing else; what a builder wrote it accepts, and the map
/// then holds the builder's entries, which ascend by key. On a machine
/// whose sizes are narrower than 64 bits it does not return where a count
/// does not fit a size: such bytes are left out.
#[verifier::external_body]
pub(crate) fn map_open(data: Vec<u8>) -> (r: Result<fst::Map<Vec<u8>>, fst::Error>)
    requires
        counts_fit(data@),
    ensures
        map_image(data@) is Some ==> r is Ok,
        r matches Ok(m) ==> (map_valid(m) <==> map_image(data@) is Some),
        r matches Ok(m) ==> map_valid(m) ==> map_entries(m) == map_image(data@).unwrap()
            && ascending(map_entries(m)),
{
    fst::Map::new(data)
}

/// `fst::Map::len`: the number of entries.
#[verifier::external_body]
pub(crate) fn map_len(m: &fst::Map<Vec<u8>>) -> (r: usize)
    requires
        map_valid(*m),
    ensures
        r == map_entries(*m).len(),
{
    m.len()
}

/// `fst::Map::get`: the value under `key`, if the map has the key.
#[verifier::external_body]
pub(crate) fn map_get(m: &fst::Map<Vec<u8>>, key: &[u8]) -> (r: Option<u64>)
    requires
        map_valid(*m),
    ensures
        r == lookup(map_entries(*m), key@),
{
    m.get(key)
}

/// `fst::Map::contains_key`: whether the map has `key`.
#[verifier::external_body]
pub(crate) fn map_contains_key(m: &fst::Map<Vec<u8>>, key: &[u8]) -> (r: bool)
    requires
        map_valid(*m),
    ensures
        r == holds(map_entries(*m), key@),
{
    m.contains_key(key)
}

/// The first item of the stream of `fst::Map::range` with the bounds `ge`
/// and, where given, `lt`: the first entry in key order whose key lies in
/// the range.
#[verifier::external_body]
pub(crate) fn map_range_next(m: &fst::Map<Vec<u8>>, from: &[u8], until: Option<&[u8]>) -> (r:
    Option<(Vec<u8>, u64)>)
    requires
        map_valid(*m),
    ensures
        same_entry(r, first(scan(map_entries(*m), any_key(), from@, opt_bytes(until)))),
{
    let b = m.range().ge(from);
    let b = match until {
        Some(u) => b.lt(u),
        None => b,
    };
    b.into_stream().next().map(|(k, v)| (k.to_vec(), v))
}

/// The first item of the stream of `fst::Map::search` with the bounds `ge`
/// and, where given, `lt`: the first entry in key order whose key lies in
/// the range and is accepted by the automaton. The stream feeds the bytes
/// of a key to the automaton from its start state and yields the key where
/// the state reached matches. It does not go on from a state that cannot
/// match, so it is complete only for an automaton that prunes soundly.
#[verifier::external_body]
pub(crate) fn map_search_next(
    m: &fst::Map<Vec<u8>>,
    automaton: &ArcNode,
    from: &[u8],
    until: Option<&[u8]>,
) -> (r: Option<(Vec<u8>, u64)>)
    requires
        map_valid(*m),
        prunes_soundly(automaton.node()),
    ensures
        same_entry(
            r,
            first(scan(map_entries(*m), accepted_by(automaton.node()), from@, opt_bytes(until))),
        ),
{
    let b = m.search(automaton).ge(from);
    let b = match until {
        Some(u) => b.lt(u),
        None => b,
    };
    b.into_stream().next().map(|(k, v)| (k.to_vec(), v))
}

/// The first item of `fst::map::OpBuilder::union` over the streams of the
/// maps from `from` on: the first key that any map has, with the position
/// and value of each map that has it. The order of these is the library's.
#[verifier::external_body]
pub(crate) fn map_union_next(maps: &Vec<Arc<fst::Map<Vec<u8>>>>, from: &[u8]) -> (r: Option<
    (Vec<u8>, Vec<IndexedValue>),
>)
    requires
        maps@.len() > 0,
        all_valid(maps@),
    ensures
        map_merge_step(SetOp::Union, all_entries(maps@), from@, r),
{
    let op: fst::map::OpBuilder = maps.iter().map(|m| m.range().ge(from)).collect();
    op.union().next().map(
        |(k, vs)| {
            let occ = vs.iter().map(|v| IndexedValue { index: v.index, value: v.value });
            (k.to_vec(), occ.collect())
        },
    )
}

/// The first item of `fst::map::OpBuilder::intersection` over the streams
/// of the maps from `from` on: the first key that every map has, with the
/// position and value of each map.
#[verifier::external_body]
pub(crate) fn map_intersection_next(maps: &Vec<Arc<fst::Map<Vec<u8>>>>, from: &[u8]) -> (r:
    Option<(Vec<u8>, Vec<IndexedValue>)>)
    requires
        maps@.len() > 0,
        all_valid(maps@),
    ensures
        map_merge_step(SetOp::Intersection, all_entries(maps@), from@, r),
{
    let op: fst::map::OpBuilder = maps.iter().map(|m| m.range().ge(from)).collect();
    op.intersection().next().map(
        |(k, vs)| {
            let occ = vs.iter().map(|v| IndexedValue { index: v.index, value: v.value });
            (k.to_vec(), occ.collect())
        },
    )
}

/// The first item of `fst::map::OpBuilder::difference` over the streams of
/// the maps from `from` on: the first key that the first map has and no
/// other, with position 0 and the value of the first map.
#[verifier::external_body]
pub(crate) fn map_difference_next(maps: &Vec<Arc<fst::Map<Vec<u8>>>>, from: &[u8]) -> (r:
    Option<(Vec<u8>, Vec<IndexedValue>)>)
    requires
        maps@.len() > 0,
        all_valid(maps@),
    ensures
        map_merge_step(SetOp::Difference, all_entries(maps@), from@, r),
{
    let op: fst::map::OpBuilder = maps.iter().map(|m| m.range().ge(from)).collect();
    op.difference().next().map(
        |(k, vs)| {
            let occ = vs.iter().map(|v| IndexedValue { index: v.index, value: v.value });
            (k.to_vec(), occ.collect())
        },
    )
}

/// The first item of `fst::map::OpBuilder::symmetric_difference` over the
/// streams of the maps from `from` on: the first key that an odd number of
/// maps have, with the position and value of each map that has it.
#[verifier::external_body]
pub(crate) fn map_symmetric_difference_next(
    maps: &Vec<Arc<fst::Map<Vec<u8>>>>,
    from: &[u8],
) -> (r: Option<(Vec<u8>, Vec<IndexedValue>)>)
    requires
        maps@.len() > 0,
        all_valid(maps@),
    ensures
        map_merge_step(SetOp::SymmetricDifference, all_entries(maps@), from@, r),
{
    let op: fst::map::OpBuilder = maps.iter().map(|m| m.range().ge(from)).collect();
    op.symmetric_difference().next().map(
        |(k, vs)| {
            let occ = vs.iter().map(|v| IndexedValue { index: v.index, value: v.value });
            (k.to_vec(), occ.collect())
        },
    )
}

/// `key` may be inserted after the entries `e`: it comes strictly after the
/// last key, or there is none.
pub open spec fn can_follow(e: Seq<(Seq<u8>, u64)>, key: Seq<u8>) -> bool {
    e.len() == 0 || crate::bytes::lex_lt(e.last().0, key)
}

/// `fst::MapBuilder::new` on an empty vector. It writes the header, which
/// on a vector cannot fail, and holds no entry yet.
#[verifier::external_body]
pub(crate) fn builder_new() -> (r: Result<fst::MapBuilder<Vec<u8>>, fst::Error>)
    ensures
        r is Ok,
        r matches Ok(b) ==> builder_entries(b).len() == 0,
{
    fst::MapBuilder::new(Vec::with_capacity(10240))
}

/// `fst::MapBuilder::insert`. A key that comes strictly after the last one
/// is taken; any other is refused and the builder stays as it was.
#[verifier::external_body]
pub(crate) fn builder_insert(b: &mut fst::MapBuilder<Vec<u8>>, key: &[u8], val: u64) -> (r:
    Result<(), fst::Error>)
    ensures
        r is Ok <==> can_follow(builder_entries(*old(b)), key@),
        builder_entries(*final(b)) == if can_follow(builder_entries(*old(b)), key@) {
            builder_entries(*old(b)).push((key@, val))
        } else {
            builder_entries(*old(b))
        },
{
    b.insert(key, val)
}

/// `fst::MapBuilder::into_inner`. It writes what is left of the transducer
/// and hands out the vector, which on a vector cannot fail; a map opened on
/// these bytes holds the entries inserted.
#[verifier::external_body]
pub(crate) fn builder_finish(b: fst::MapBuilder<Vec<u8>>) -> (r: Result<Vec<u8>, fst::Error>)
    ensures
        r is Ok,
        r matches Ok(bytes) ==> map_image(bytes@) == Some(builder_entries(b)),
{
    b.into_inner()
}

} // verus!

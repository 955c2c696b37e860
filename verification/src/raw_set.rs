//! The set of the transducer library as this crate sees it. Nothing in this
//! file is proved: each function calls the library, and its contract states
//! what the library's source and documentation say of the call.

use crate::automaton::ArcNode;
use crate::bytes::{lex_le, lex_lt};
use crate::entries::{any_key, ascending, first, holds, same_key, scan};
use crate::language::{accepted_by, prunes_soundly};
use crate::layout::counts_fit;
use crate::merge::{set_merge_step, SetOp};
use crate::range::opt_bytes;
use fst::{IntoStreamer, Streamer};
use std::sync::Arc;
use vstd::prelude::*;

verus! {

/// `fst::Set`, a set over the bytes `D`. Nothing of its inside is known here.
#[verifier::external_type_specification]
#[verifier::external_body]
#[verifier::reject_recursive_types(D)]
pub struct ExSet<D>(fst::Set<D>);

/// `fst::SetBuilder`, which writes a set to `W`. Nothing of its inside is
/// known here.
#[verifier::external_type_specification]
#[verifier::external_body]
#[verifier::reject_recursive_types(W)]
pub struct ExSetBuilder<W>(fst::SetBuilder<W>);

/// The bytes behind the set are a transducer as the library's builder writes
/// it. Of other bytes the library promises nothing, not even to return.
pub uninterp spec fn set_valid(s: fst::Set<Vec<u8>>) -> bool;

/// The keys of the set, in the order in which its stream yields them.
pub uninterp spec fn set_keys(s: fst::Set<Vec<u8>>) -> Seq<Seq<u8>>;

/// The keys that a set opened on `bytes` holds, where `bytes` is what the
/// library's builder has written for some keys; `None` for other bytes.
pub uninterp spec fn set_image(bytes: Seq<u8>) -> Option<Seq<Seq<u8>>>;

/// The keys inserted into the builder so far, each once.
pub uninterp spec fn set_builder_keys(b: fst::SetBuilder<Vec<u8>>) -> Seq<Seq<u8>>;

/// The keys of each of the sets.
pub open spec fn all_keys(sets: Seq<Arc<fst::Set<Vec<u8>>>>) -> Seq<Seq<Seq<u8>>> {
    Seq::new(sets.len(), |i: int| set_keys(*sets[i]))
}

/// Every one of the sets is valid.
pub open spec fn all_valid_sets(sets: Seq<Arc<fst::Set<Vec<u8>>>>) -> bool {
    forall|i: int| 0 <= i < sets.len() ==> set_valid(*#[trigger] sets[i])
}

/// Every key of `a` is a key of `b`.
pub open spec fn subset_of(a: Seq<Seq<u8>>, b: Seq<Seq<u8>>) -> bool {
    forall|k: Seq<u8>| #[trigger] holds(a, k) ==> holds(b, k)
}

/// No key of `a` is a key of `b`.
pub open spec fn disjoint(a: Seq<Seq<u8>>, b: Seq<Seq<u8>>) -> bool {
    forall|k: Seq<u8>| !(#[trigger] holds(a, k) && holds(b, k))
}

/// `fst::Set::new`. It reads the format version and the counts of `data`
/// and checks nothing else; what a builder wrote it accepts, and the set
/// then holds the builder's keys, which ascend. On a machine whose sizes
/// are narrower than 64 bits it does not return where a count does not fit
/// a size: such bytes are left out.
#[verifier::external_body]
pub(crate) fn set_open(data: Vec<u8>) -> (r: Result<fst::Set<Vec<u8>>, fst::Error>)
    requires
        counts_fit(data@),
    ensures
        set_image(data@) is Some ==> r is Ok,
        r matches Ok(s) ==> (set_valid(s) <==> set_image(data@) is Some),
        r matches Ok(s) ==> set_valid(s) ==> set_keys(s) == set_image(data@).unwrap() && ascending(
            set_keys(s),
        ),
{
    fst::Set::new(data)
}

/// `fst::Set::len`: the number of keys.
#[verifier::external_body]
pub(crate) fn set_len(s: &fst::Set<Vec<u8>>) -> (r: usize)
    requires
        set_valid(*s),
    ensures
        r == set_keys(*s).len(),
{
    s.len()
}

/// `fst::Set::contains`: whether the set has `key`.
#[verifier::external_body]
pub(crate) fn set_contains(s: &fst::Set<Vec<u8>>, key: &[u8]) -> (r: bool)
    requires
        set_valid(*s),
    ensures
        r == holds(set_keys(*s), key@),
{
    s.contains(key)
}

/// `fst::Set::is_subset` on the stream of `b`: whether every key of `a` is
/// a key of `b`.
#[verifier::external_body]
pub(crate) fn set_is_subset(a: &fst::Set<Vec<u8>>, b: &fst::Set<Vec<u8>>) -> (r: bool)
    requires
        set_valid(*a),
        set_valid(*b),
    ensures
        r == subset_of(set_keys(*a), set_keys(*b)),
{
    a.is_subset(b.stream())
}

/// `fst::Set::is_superset` on the stream of `b`: whether every key of `b`
/// is a key of `a`.
#[verifier::external_body]
pub(crate) fn set_is_superset(a: &fst::Set<Vec<u8>>, b: &fst::Set<Vec<u8>>) -> (r: bool)
    requires
        set_valid(*a),
        set_valid(*b),
    ensures
        r == subset_of(set_keys(*b), set_keys(*a)),
{
    a.is_superset(b.stream())
}

/// `fst::Set::is_disjoint` on the stream of `b`: whether the two sets share
/// no key.
#[verifier::external_body]
pub(crate) fn set_is_disjoint(a: &fst::Set<Vec<u8>>, b: &fst::Set<Vec<u8>>) -> (r: bool)
    requires
        set_valid(*a),
        set_valid(*b),
    ensures
        r == disjoint(set_keys(*a), set_keys(*b)),
{
    a.is_disjoint(b.stream())
}

/// The first item of the stream of `fst::Set::range` with the bounds `ge`
/// and, where given, `lt`: the first key in order that lies in the range.
#[verifier::external_body]
pub(crate) fn set_range_next(s: &fst::Set<Vec<u8>>, from: &[u8], until: Option<&[u8]>) -> (r:
    Option<Vec<u8>>)
    requires
        set_valid(*s),
    ensures
        same_key(r, first(scan(set_keys(*s), any_key(), from@, opt_bytes(until)))),
{
    let b = s.range().ge(from);
    let b = match until {
        Some(u) => b.lt(u),
        None => b,
    };
    b.into_stream().next().map(|k| k.to_vec())
}

/// The first item of the stream of `fst::Set::search` with the bounds `ge`
/// and, where given, `lt`: the first key in order that lies in the range
/// and is accepted by the automaton. The stream feeds the bytes of a key to
/// the automaton from its start state and yields the key where the state
/// reached matches. It does not go on from a state that cannot match, so it
/// is complete only for an automaton that prunes soundly.
#[verifier::external_body]
pub(crate) fn set_search_next(
    s: &fst::Set<Vec<u8>>,
    automaton: &ArcNode,
    from: &[u8],
    until: Option<&[u8]>,
) -> (r: Option<Vec<u8>>)
    requires
        set_valid(*s),
        prunes_soundly(automaton.node()),
    ensures
        same_key(
            r,
            first(scan(set_keys(*s), accepted_by(automaton.node()), from@, opt_bytes(until))),
        ),
{
    let b = s.search(automaton).ge(from);
    let b = match until {
        Some(u) => b.lt(u),
        None => b,
    };
    b.into_stream().next().map(|k| k.to_vec())
}

/// The first item of `fst::set::OpBuilder::union` over the streams of the
/// sets from `from` on: the first key that any set has.
#[verifier::external_body]
pub(crate) fn set_union_next(sets: &Vec<Arc<fst::Set<Vec<u8>>>>, from: &[u8]) -> (r: Option<
    Vec<u8>,
>)
    requires
        sets@.len() > 0,
        all_valid_sets(sets@),
    ensures
        set_merge_step(SetOp::Union, all_keys(sets@), from@, r),
{
    let op: fst::set::OpBuilder = sets.iter().map(|s| s.range().ge(from)).collect();
    op.union().next().map(|k| k.to_vec())
}

/// The first item of `fst::set::OpBuilder::intersection` over the streams
/// of the sets from `from` on: the first key that every set has.
#[verifier::external_body]
pub(crate) fn set_intersection_next(sets: &Vec<Arc<fst::Set<Vec<u8>>>>, from: &[u8]) -> (r:
    Option<Vec<u8>>)
    requires
        sets@.len() > 0,
        all_valid_sets(sets@),
    ensures
        set_merge_step(SetOp::Intersection, all_keys(sets@), from@, r),
{
    let op: fst::set::OpBuilder = sets.iter().map(|s| s.range().ge(from)).collect();
    op.intersection().next().map(|k| k.to_vec())
}

/// The first item of `fst::set::OpBuilder::difference` over the streams of
/// the sets from `from` on: the first key that the first set has and no
/// other.
#[verifier::external_body]
pub(crate) fn set_difference_next(sets: &Vec<Arc<fst::Set<Vec<u8>>>>, from: &[u8]) -> (r:
    Option<Vec<u8>>)
    requires
        sets@.len() > 0,
        all_valid_sets(sets@),
    ensures
        set_merge_step(SetOp::Difference, all_keys(sets@), from@, r),
{
    let op: fst::set::OpBuilder = sets.iter().map(|s| s.range().ge(from)).collect();
    op.difference().next().map(|k| k.to_vec())
}

/// The first item of `fst::set::OpBuilder::symmetric_difference` over the
/// streams of the sets from `from` on: the first key that an odd number of
/// sets have.
#[verifier::external_body]
pub(crate) fn set_symmetric_difference_next(
    sets: &Vec<Arc<fst::Set<Vec<u8>>>>,
    from: &[u8],
) -> (r: Option<Vec<u8>>)
    requires
        sets@.len() > 0,
        all_valid_sets(sets@),
    ensures
        set_merge_step(SetOp::SymmetricDifference, all_keys(sets@), from@, r),
{
    let op: fst::set::OpBuilder = sets.iter().map(|s| s.range().ge(from)).collect();
    op.symmetric_difference().next().map(|k| k.to_vec())
}

/// `fst::SetBuilder::new` on an empty vector. It writes the header, which
/// on a vector cannot fail, and holds no key yet.
#[verifier::external_body]
pub(crate) fn set_builder_new() -> (r: Result<fst::SetBuilder<Vec<u8>>, fst::Error>)
    ensures
        r is Ok,
        r matches Ok(b) ==> set_builder_keys(b).len() == 0,
{
    fst::SetBuilder::new(Vec::with_capacity(10240))
}

/// `fst::SetBuilder::insert`. A key that comes strictly after the last one
/// is taken; the last key once more is passed over; a key that comes before
/// the last one is refused. Only a key that is taken changes the builder.
#[verifier::external_body]
pub(crate) fn set_builder_insert(b: &mut fst::SetBuilder<Vec<u8>>, key: &[u8]) -> (r: Result<
    (),
    fst::Error,
>)
    ensures
        r is Ok <==> set_builder_keys(*old(b)).len() == 0 || lex_le(
            set_builder_keys(*old(b)).last(),
            key@,
        ),
        set_builder_keys(*final(b)) == if set_builder_keys(*old(b)).len() == 0 || lex_lt(
            set_builder_keys(*old(b)).last(),
            key@,
        ) {
            set_builder_keys(*old(b)).push(key@)
        } else {
            set_builder_keys(*old(b))
        },
{
    b.insert(key)
}

/// `fst::SetBuilder::into_inner`. It writes what is left of the transducer
/// and hands out the vector, which on a vector cannot fail; a set opened on
/// these bytes holds the keys inserted.
#[verifier::external_body]
pub(crate) fn set_builder_finish(b: fst::SetBuilder<Vec<u8>>) -> (r: Result<Vec<u8>, fst::Error>)
    ensures
        r is Ok,
        r matches Ok(bytes) ==> set_image(bytes@) == Some(set_builder_keys(b)),
{
    b.into_inner()
}

} // verus!

//! What holds of the library as a whole: of builds and the containers
//! opened on them, of searches, of ranges and of set algebra.

use crate::automaton::Node;
use crate::bytes::{
    is_prefix, is_subsequence, lemma_lex_asymmetric, lemma_lex_irreflexive, lemma_prefix_le,
    lex_le, lex_lt,
};
use crate::entries::{
    ascending, holds, lemma_ascending_skip, lemma_select_agree, lemma_select_members, lookup,
    position, select, Keyed,
};
use crate::item::{item_entry, Item};
use crate::language::{
    accepted_by, lemma_complement_language, lemma_intersection_language, lemma_prefix_language,
    lemma_subsequence_language, lemma_union_language,
};
use crate::map::{filled, FstMap};
use crate::merge::{count_holding, covers, is_merge_of_maps, kept, occurrences, SetOp};
use crate::range::{bounded, bounds, has_prefix, has_subsequence, query_test};
use crate::raw_map::can_follow;
use crate::select::{
    ascending as sorted_values, leq_u64, seq_max, seq_min, seq_sum, spec_select, values_of,
    IndexedValue, Op,
};
use std::sync::Arc;
use vstd::prelude::*;

verus! {

/// An ascending sequence of entries holds under each of its keys the value
/// that stands beside it.
pub proof fn lemma_lookup_own(e: Seq<(Seq<u8>, u64)>, i: int)
    requires
        ascending(e),
        0 <= i < e.len(),
    ensures
        holds(e, e[i].0),
        lookup(e, e[i].0) == Some(e[i].1),
{
    assert(e[i].key() == e[i].0);
    let j = position(e, e[i].0);
    crate::entries::lemma_ascending_distinct(e, i, j);
}

/// A build takes well-formed items whose keys ascend strictly, all of
/// them, as they are.
pub proof fn lemma_filled_ascending(items: Seq<Item>, es: Seq<(Seq<u8>, u64)>)
    requires
        items.len() == es.len(),
        forall|i: int| 0 <= i < items.len() ==> item_entry(#[trigger] items[i]) == Ok::<
            (Seq<u8>, u64),
            crate::error::Failure,
        >(es[i]),
        ascending(es),
    ensures
        filled(items) == Ok::<Seq<(Seq<u8>, u64)>, crate::error::Failure>(es),
    decreases items.len(),
{
    if items.len() == 0 {
        assert(es =~= Seq::empty());
    } else {
        let n = items.len() - 1;
        let before = es.drop_last();
        assert forall|i: int, j: int| 0 <= i < j < before.len() implies lex_lt(
            #[trigger] before[i].key(),
            #[trigger] before[j].key(),
        ) by {
            assert(before[i] == es[i] && before[j] == es[j]);
        }
        assert forall|i: int| 0 <= i < items.drop_last().len() implies item_entry(
            #[trigger] items.drop_last()[i],
        ) == Ok::<(Seq<u8>, u64), crate::error::Failure>(before[i]) by {
            assert(items.drop_last()[i] == items[i]);
        }
        lemma_filled_ascending(items.drop_last(), before);
        assert(item_entry(items[n]) == Ok::<(Seq<u8>, u64), crate::error::Failure>(es[n]));
        if before.len() > 0 {
            assert(before.last() == es[n - 1]);
            assert(lex_lt(es[n - 1].key(), es[n].key()));
        }
        assert(can_follow(before, es[n].0));
        assert(before.push(es[n]) =~= es);
    }
}

/// A map built from well-formed items in strictly ascending order of their
/// keys, and opened on the bytes built, is valid and holds the entries of
/// the items and nothing else: as many as there are items, in their order,
/// and under each key its value.
pub proof fn law_built_map_holds_its_items(
    items: Seq<Item>,
    es: Seq<(Seq<u8>, u64)>,
    image: Option<Seq<(Seq<u8>, u64)>>,
    m: FstMap,
)
    requires
        items.len() == es.len(),
        forall|i: int| 0 <= i < items.len() ==> item_entry(#[trigger] items[i]) == Ok::<
            (Seq<u8>, u64),
            crate::error::Failure,
        >(es[i]),
        ascending(es),
        // what `build` states of the bytes it returns for `items`
        filled(items) matches Ok(x) ==> image == Some(x),
        // what `new` states of the map it opens on these bytes, where their
        // counts fit a size of this machine
        image matches Some(e) ==> m.wf() && m@ == e,
    ensures
        m.wf(),
        m@.len() == items.len(),
        m@ == es,
        forall|i: int| 0 <= i < es.len() ==> lookup(m@, (#[trigger] es[i]).0) == Some(es[i].1),
{
    lemma_filled_ascending(items, es);
    assert forall|i: int| 0 <= i < es.len() implies lookup(m@, (#[trigger] es[i]).0) == Some(
        es[i].1,
    ) by {
        lemma_lookup_own(es, i);
    }
}

/// A map has a key exactly when it has a value under it.
pub proof fn law_contains_iff_get(e: Seq<(Seq<u8>, u64)>, k: Seq<u8>)
    ensures
        holds(e, k) <==> lookup(e, k) is Some,
{
}

/// Two maps opened on builds of the same items hold the same entries:
/// they are equal.
pub proof fn law_same_items_same_map(
    items: Seq<Item>,
    image_a: Option<Seq<(Seq<u8>, u64)>>,
    image_b: Option<Seq<(Seq<u8>, u64)>>,
    a: FstMap,
    b: FstMap,
)
    requires
        filled(items) is Ok,
        // what `build` states of the bytes it returns for `items`, twice
        filled(items) matches Ok(x) ==> image_a == Some(x) && image_b == Some(x),
        // what `new` states of the maps it opens on these bytes, where their
        // counts fit a size of this machine
        image_a matches Some(e) ==> a.wf() && a@ == e,
        image_b matches Some(e) ==> b.wf() && b@ == e,
    ensures
        a.wf(),
        b.wf(),
        a@ == b@,
{
}

/// A search without bounds yields an entry of the map exactly when the
/// automaton accepts its key: when reading the bytes of the key from the
/// start state ends in a state that matches.
pub proof fn law_search_yields_accepted(e: Seq<(Seq<u8>, u64)>, node: Node, x: (Seq<u8>, u64))
    requires
        e.contains(x),
    ensures
        select(e, query_test(accepted_by(node), None, None, None, None)).contains(x)
            <==> node.spec_is_match(node.run(node.spec_start(), x.0)),
{
    lemma_select_members(e, query_test(accepted_by(node), None, None, None, None));
}

/// What a search under an automaton yields, without bounds.
pub open spec fn found(e: Seq<(Seq<u8>, u64)>, node: Node) -> Seq<(Seq<u8>, u64)> {
    select(e, query_test(accepted_by(node), None, None, None, None))
}

/// A search under the intersection of two automata yields what searches
/// under both yield; under their union, what a search under either yields.
/// Each search yields in key order.
pub proof fn law_search_intersection_union(e: Seq<(Seq<u8>, u64)>, a: Node, b: Node)
    ensures
        forall|x: (Seq<u8>, u64)|
            #![trigger found(e, a).contains(x)]
            #![trigger found(e, b).contains(x)]
            found(e, Node::Intersection((Arc::new(a), Arc::new(b)))).contains(x) <==> (found(
                e,
                a,
            ).contains(x) && found(e, b).contains(x)),
        forall|x: (Seq<u8>, u64)|
            #![trigger found(e, a).contains(x)]
            #![trigger found(e, b).contains(x)]
            found(e, Node::Union((Arc::new(a), Arc::new(b)))).contains(x) <==> (found(
                e,
                a,
            ).contains(x) || found(e, b).contains(x)),
        ascending(e) ==> ascending(found(e, Node::Intersection((Arc::new(a), Arc::new(b)))))
            && ascending(found(e, Node::Union((Arc::new(a), Arc::new(b))))),
{
    let both = Node::Intersection((Arc::new(a), Arc::new(b)));
    let either = Node::Union((Arc::new(a), Arc::new(b)));
    lemma_select_members(e, query_test(accepted_by(a), None, None, None, None));
    lemma_select_members(e, query_test(accepted_by(b), None, None, None, None));
    lemma_select_members(e, query_test(accepted_by(both), None, None, None, None));
    lemma_select_members(e, query_test(accepted_by(either), None, None, None, None));
    assert forall|x: (Seq<u8>, u64)|
        #![trigger found(e, a).contains(x)]
        #![trigger found(e, b).contains(x)]
        found(e, both).contains(x) <==> (found(e, a).contains(x) && found(e, b).contains(
            x,
        )) by {
        lemma_intersection_language(a, b, x.0);
    }
    assert forall|x: (Seq<u8>, u64)|
        #![trigger found(e, a).contains(x)]
        #![trigger found(e, b).contains(x)]
        found(e, either).contains(x) <==> (found(e, a).contains(x) || found(e, b).contains(
            x,
        )) by {
        lemma_union_language(a, b, x.0);
    }
}

/// The complement of an automaton accepts a key exactly when the automaton
/// does not.
pub proof fn law_complement(a: Node, k: Seq<u8>)
    ensures
        Node::Complement(Arc::new(a)).accepts(k) <==> !a.accepts(k),
{
    lemma_complement_language(a, k);
}

/// A search for what starts with the literal `p` yields what a query for
/// the prefix `p` yields, under the same bounds: the entries whose keys
/// begin with `p`, none of which comes before `p`.
pub proof fn law_prefix_search(
    e: Seq<(Seq<u8>, u64)>,
    p: Vec<u8>,
    ge: Option<Seq<u8>>,
    gt: Option<Seq<u8>>,
    le: Option<Seq<u8>>,
    lt: Option<Seq<u8>>,
)
    ensures
        select(
            e,
            query_test(accepted_by(Node::StartsWith(Arc::new(Node::Str(p)))), ge, gt, le, lt),
        ) == select(e, query_test(has_prefix(p@), ge, gt, le, lt)),
        forall|x: (Seq<u8>, u64)| #[trigger]
            select(e, query_test(has_prefix(p@), ge, gt, le, lt)).contains(x) <==> e.contains(x)
                && is_prefix(p@, x.0) && bounded(x.0, ge, gt, le, lt),
        forall|x: (Seq<u8>, u64)| #[trigger]
            select(e, query_test(has_prefix(p@), ge, gt, le, lt)).contains(x) ==> lex_le(
                p@,
                x.0,
            ),
{
    let node = Node::StartsWith(Arc::new(Node::Str(p)));
    let a = query_test(accepted_by(node), ge, gt, le, lt);
    let b = query_test(has_prefix(p@), ge, gt, le, lt);
    assert forall|i: int| 0 <= i < e.len() implies a(#[trigger] e[i].key()) == b(e[i].key()) by {
        lemma_prefix_language(p, e[i].0);
    }
    lemma_select_agree(e, a, b);
    lemma_select_members(e, b);
    assert forall|x: (Seq<u8>, u64)| #[trigger] select(e, b).contains(x) implies lex_le(
        p@,
        x.0,
    ) by {
        lemma_prefix_le(p@, x.0);
    }
}

/// A search for a subsequence yields what a query for the subsequence
/// yields, under the same bounds: exactly the entries in whose keys the
/// bytes of the pattern occur in order.
pub proof fn law_subsequence_search(
    e: Seq<(Seq<u8>, u64)>,
    p: Vec<u8>,
    ge: Option<Seq<u8>>,
    gt: Option<Seq<u8>>,
    le: Option<Seq<u8>>,
    lt: Option<Seq<u8>>,
)
    ensures
        select(e, query_test(accepted_by(Node::Subsequence(p)), ge, gt, le, lt)) == select(
            e,
            query_test(has_subsequence(p@), ge, gt, le, lt),
        ),
        forall|x: (Seq<u8>, u64)| #[trigger]
            select(e, query_test(has_subsequence(p@), ge, gt, le, lt)).contains(x)
                <==> e.contains(x) && is_subsequence(p@, x.0) && bounded(x.0, ge, gt, le, lt),
{
    let node = Node::Subsequence(p);
    let a = query_test(accepted_by(node), ge, gt, le, lt);
    let b = query_test(has_subsequence(p@), ge, gt, le, lt);
    assert forall|i: int| 0 <= i < e.len() implies a(#[trigger] e[i].key()) == b(e[i].key()) by {
        lemma_subsequence_language(p, e[i].0);
    }
    lemma_select_agree(e, a, b);
    lemma_select_members(e, b);
}

/// A range yields the entries whose keys meet every bound that is given,
/// and no others: bounds intersect.
pub proof fn law_range(
    e: Seq<(Seq<u8>, u64)>,
    ge: Option<Seq<u8>>,
    gt: Option<Seq<u8>>,
    le: Option<Seq<u8>>,
    lt: Option<Seq<u8>>,
    x: (Seq<u8>, u64),
)
    ensures
        select(e, bounds(ge, gt, le, lt)).contains(x) <==> e.contains(x) && bounded(
            x.0,
            ge,
            gt,
            le,
            lt,
        ),
        ascending(e) ==> ascending(select(e, bounds(ge, gt, le, lt))),
{
    lemma_select_members(e, bounds(ge, gt, le, lt));
}

/// Two ascending sequences that have the same keys are equally long and
/// have them at the same places.
pub proof fn lemma_same_keys<T: Keyed>(a: Seq<T>, b: Seq<T>)
    requires
        ascending(a),
        ascending(b),
        forall|k: Seq<u8>|
            #![trigger holds(a, k)]
            #![trigger holds(b, k)]
            holds(a, k) <==> holds(b, k),
    ensures
        a.len() == b.len(),
        forall|i: int| 0 <= i < a.len() ==> (#[trigger] a[i]).key() == b[i].key(),
    decreases a.len(),
{
    if a.len() == 0 {
        if b.len() > 0 {
            assert(b[0].key() == b[0].key());
            assert(holds(b, b[0].key()));
            assert(holds(a, b[0].key()));
        }
    } else {
        assert(holds(a, a[0].key()));
        assert(holds(b, a[0].key()));
        let j = choose|j: int| 0 <= j < b.len() && #[trigger] b[j].key() == a[0].key();
        assert(holds(b, b[0].key()));
        assert(holds(a, b[0].key()));
        let i = choose|i: int| 0 <= i < a.len() && #[trigger] a[i].key() == b[0].key();
        if i > 0 {
            assert(lex_lt(a[0].key(), a[i].key()));
            if j > 0 {
                assert(lex_lt(b[0].key(), b[j].key()));
                lemma_lex_asymmetric(a[0].key(), a[i].key());
            }
        }
        if j > 0 && i == 0 {
            assert(lex_lt(b[0].key(), b[j].key()));
            lemma_lex_irreflexive(a[0].key());
        }
        assert(a[0].key() == b[0].key());
        let ta = a.skip(1);
        let tb = b.skip(1);
        lemma_ascending_skip(a, 1);
        lemma_ascending_skip(b, 1);
        assert forall|k: Seq<u8>|
            #![trigger holds(ta, k)]
            #![trigger holds(tb, k)]
            holds(ta, k) <==> holds(tb, k) by {
            lemma_tail_holds(a, k);
            lemma_tail_holds(b, k);
        }
        lemma_same_keys(ta, tb);
        assert forall|i: int| 0 <= i < a.len() implies (#[trigger] a[i]).key() == b[i].key() by {
            if i > 0 {
                assert(ta[i - 1] == a[i] && tb[i - 1] == b[i]);
            }
        }
    }
}

/// The tail of an ascending sequence has its keys but the first.
proof fn lemma_tail_holds<T: Keyed>(a: Seq<T>, k: Seq<u8>)
    requires
        ascending(a),
        a.len() > 0,
    ensures
        holds(a.skip(1), k) <==> holds(a, k) && k != a[0].key(),
{
    let t = a.skip(1);
    if holds(t, k) {
        let i = choose|i: int| 0 <= i < t.len() && #[trigger] t[i].key() == k;
        assert(a[i + 1].key() == k);
        assert(lex_lt(a[0].key(), a[i + 1].key()));
        lemma_lex_irreflexive(k);
    }
    if holds(a, k) && k != a[0].key() {
        let i = choose|i: int| 0 <= i < a.len() && #[trigger] a[i].key() == k;
        assert(t[i - 1].key() == k);
    }
}

/// Sets with the same keys are the same set.
pub proof fn lemma_same_keys_same_set(a: Seq<Seq<u8>>, b: Seq<Seq<u8>>)
    requires
        ascending(a),
        ascending(b),
        forall|k: Seq<u8>|
            #![trigger holds(a, k)]
            #![trigger holds(b, k)]
            holds(a, k) <==> holds(b, k),
    ensures
        a == b,
{
    lemma_same_keys(a, b);
    assert forall|i: int| 0 <= i < a.len() implies a[i] == b[i] by {
        assert(a[i].key() == b[i].key());
    }
    assert(a =~= b);
}

/// The number of two containers that have a key.
proof fn lemma_count_two<T: Keyed>(a: Seq<T>, b: Seq<T>, k: Seq<u8>)
    ensures
        count_holding(seq![a, b], k) == (if holds(a, k) {
            1nat
        } else {
            0nat
        }) + (if holds(b, k) {
            1nat
        } else {
            0nat
        }),
{
    let two = seq![a, b];
    let one = two.drop_last();
    assert(one =~= seq![a]);
    assert(one.drop_last() =~= Seq::<Seq<T>>::empty());
    assert(two.last() == b);
    assert(one.last() == a);
    assert(count_holding(one.drop_last(), k) == 0);
    assert(count_holding(one, k) == count_holding(one.drop_last(), k) + if holds(a, k) {
        1nat
    } else {
        0nat
    });
    assert(count_holding(two, k) == count_holding(one, k) + if holds(b, k) {
        1nat
    } else {
        0nat
    });
}

/// The union and the intersection of a set with itself are the set.
pub proof fn law_set_with_itself(
    a: Seq<Seq<u8>>,
    union_aa: Seq<Seq<u8>>,
    intersection_aa: Seq<Seq<u8>>,
)
    requires
        ascending(a),
        covers(SetOp::Union, seq![a, a], union_aa),
        covers(SetOp::Intersection, seq![a, a], intersection_aa),
    ensures
        union_aa == a,
        intersection_aa == a,
{
    assert forall|k: Seq<u8>|
        #![trigger holds(union_aa, k)]
        #![trigger holds(a, k)]
        holds(union_aa, k) <==> holds(a, k) by {
        lemma_count_two(a, a, k);
        assert(holds(union_aa, k) <==> kept(SetOp::Union, seq![a, a], k));
    }
    lemma_same_keys_same_set(union_aa, a);
    assert forall|k: Seq<u8>|
        #![trigger holds(intersection_aa, k)]
        #![trigger holds(a, k)]
        holds(intersection_aa, k) <==> holds(a, k) by {
        lemma_count_two(a, a, k);
        assert(holds(intersection_aa, k) <==> kept(SetOp::Intersection, seq![a, a], k));
    }
    lemma_same_keys_same_set(intersection_aa, a);
}

/// Of maps and of sets alike: the difference of a container with itself is
/// empty, and the symmetric difference of two containers has the keys of
/// their union that are not in their intersection.
pub proof fn law_difference_and_symmetric_difference<T: Keyed>(
    a: Seq<T>,
    b: Seq<T>,
    difference_aa: Seq<T>,
    symmetric_ab: Seq<T>,
    union_ab: Seq<T>,
    intersection_ab: Seq<T>,
)
    requires
        covers(SetOp::Difference, seq![a, a], difference_aa),
        covers(SetOp::SymmetricDifference, seq![a, b], symmetric_ab),
        covers(SetOp::Union, seq![a, b], union_ab),
        covers(SetOp::Intersection, seq![a, b], intersection_ab),
    ensures
        difference_aa.len() == 0,
        forall|k: Seq<u8>| #[trigger]
            holds(symmetric_ab, k) <==> holds(union_ab, k) && !holds(intersection_ab, k),
{
    if difference_aa.len() > 0 {
        let k = difference_aa[0].key();
        assert(holds(difference_aa, k));
        assert(kept(SetOp::Difference, seq![a, a], k));
        lemma_count_two(a, a, k);
    }
    assert forall|k: Seq<u8>| #[trigger]
        holds(symmetric_ab, k) <==> holds(union_ab, k) && !holds(intersection_ab, k) by {
        lemma_count_two(a, b, k);
        assert(holds(symmetric_ab, k) <==> kept(SetOp::SymmetricDifference, seq![a, b], k));
        assert(holds(union_ab, k) <==> kept(SetOp::Union, seq![a, b], k));
        assert(holds(intersection_ab, k) <==> kept(SetOp::Intersection, seq![a, b], k));
    }
}

/// Every policy chooses `v` among `v` and `v`.
pub proof fn lemma_select_among_equals(sel: Op, v: u64)
    ensures
        spec_select(sel, seq![v, v]) == v,
{
    let s = seq![v, v];
    assert(s.drop_last() =~= seq![v]);
    assert(s.drop_last().drop_last() =~= Seq::<u64>::empty());
    assert(s.last() == v && s.first() == v && s[1] == v);
    assert(seq_min(s.drop_last()) == v);
    assert(seq_max(s.drop_last()) == v);
    assert(seq_sum(s.drop_last().drop_last()) == 0);
    assert(seq_sum(s.drop_last()) == v);
    assert(seq_sum(s) == v + v);
    crate::select::lemma_leq_u64_total();
    s.lemma_sort_by_ensures(leq_u64());
    assert(vstd::relations::sorted_by(s, leq_u64()));
    vstd::seq_lib::lemma_sorted_unique(sorted_values(s), s, leq_u64());
}

/// What two copies of a map hold for a key of the map: its value, twice.
proof fn lemma_occurrences_twice(a: Seq<(Seq<u8>, u64)>, i: int)
    requires
        ascending(a),
        0 <= i < a.len(),
    ensures
        values_of(occurrences(seq![a, a], a[i].0)) == seq![a[i].1, a[i].1],
{
    let two = seq![a, a];
    let one = two.drop_last();
    let k = a[i].0;
    lemma_lookup_own(a, i);
    assert(one =~= seq![a]);
    assert(one.drop_last() =~= Seq::<Seq<(Seq<u8>, u64)>>::empty());
    assert(two.last() == a && one.last() == a);
    assert(occurrences(one.drop_last(), k) =~= Seq::<IndexedValue>::empty());
    assert(occurrences(one, k) =~= seq![IndexedValue { index: 0usize, value: a[i].1 }]);
    assert(occurrences(two, k) =~= seq![
        IndexedValue { index: 0usize, value: a[i].1 },
        IndexedValue { index: 1usize, value: a[i].1 },
    ]);
    assert(values_of(occurrences(two, k)) =~= seq![a[i].1, a[i].1]);
}

/// The union and the intersection of a map with itself are the map,
/// whatever the policy.
pub proof fn law_map_with_itself(
    a: Seq<(Seq<u8>, u64)>,
    sel: Op,
    union_aa: Seq<(Seq<u8>, u64)>,
    intersection_aa: Seq<(Seq<u8>, u64)>,
)
    requires
        ascending(a),
        is_merge_of_maps(SetOp::Union, seq![a, a], sel, union_aa),
        is_merge_of_maps(SetOp::Intersection, seq![a, a], sel, intersection_aa),
    ensures
        union_aa == a,
        intersection_aa == a,
{
    assert forall|k: Seq<u8>|
        #![trigger holds(union_aa, k)]
        #![trigger holds(a, k)]
        holds(union_aa, k) <==> holds(a, k) by {
        lemma_count_two(a, a, k);
        assert(holds(union_aa, k) <==> kept(SetOp::Union, seq![a, a], k));
    }
    lemma_same_keys(union_aa, a);
    assert forall|i: int| 0 <= i < a.len() implies union_aa[i] == a[i] by {
        assert(union_aa[i].key() == a[i].key());
        lemma_occurrences_twice(a, i);
        lemma_select_among_equals(sel, a[i].1);
    }
    assert(union_aa =~= a);
    assert forall|k: Seq<u8>|
        #![trigger holds(intersection_aa, k)]
        #![trigger holds(a, k)]
        holds(intersection_aa, k) <==> holds(a, k) by {
        lemma_count_two(a, a, k);
        assert(holds(intersection_aa, k) <==> kept(SetOp::Intersection, seq![a, a], k));
    }
    lemma_same_keys(intersection_aa, a);
    assert forall|i: int| 0 <= i < a.len() implies intersection_aa[i] == a[i] by {
        assert(intersection_aa[i].key() == a[i].key());
        lemma_occurrences_twice(a, i);
        lemma_select_among_equals(sel, a[i].1);
    }
    assert(intersection_aa =~= a);
}

} // verus!

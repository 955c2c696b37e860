//! What the automata accept: the language of each node, and why a traversal
//! may prune on `can_match` and stop testing on `will_always_match`.

use crate::automaton::{
    ArcNode, ComplementState, IntersectionState, Node, StartsWithState, State, UnionState,
};
use crate::bytes::{is_prefix, is_subsequence};
use std::sync::Arc;
use vstd::prelude::*;

verus! {

/// The node behind a shared handle.
pub open spec fn at(a: Arc<Node>) -> Node {
    *a
}

/// The test that admits the keys that the automaton accepts.
pub open spec fn accepted_by(node: Node) -> spec_fn(Seq<u8>) -> bool {
    |k: Seq<u8>| node.accepts(k)
}

/// The test of a scan under an automaton, or under none.
pub open spec fn accept_of(automaton: Option<ArcNode>) -> spec_fn(Seq<u8>) -> bool {
    match automaton {
        Some(a) => accepted_by(a.node()),
        None => crate::entries::any_key(),
    }
}

/// The start state has the shape of its node.
pub proof fn lemma_start_fits(n: Node)
    ensures
        n.fits(n.spec_start()),
    decreases n,
{
    match n {
        Node::StartsWith(c) => lemma_start_fits(at(c)),
        Node::Complement(c) => lemma_start_fits(at(c)),
        Node::Intersection(p) => {
            lemma_start_fits(at(p.0));
            lemma_start_fits(at(p.1));
        },
        Node::Union(p) => {
            lemma_start_fits(at(p.0));
            lemma_start_fits(at(p.1));
        },
        _ => {},
    }
}

/// Reading a byte keeps the shape of the state.
pub proof fn lemma_accept_fits(n: Node, s: State, b: u8)
    requires
        n.fits(s),
    ensures
        n.fits(n.spec_accept(s, b)),
    decreases n,
{
    match (n, s) {
        (Node::StartsWith(c), State::StartsWith(st)) => match *st {
            StartsWithState::Done => {},
            StartsWithState::Running(inner) => lemma_accept_fits(at(c), inner, b),
        },
        (Node::Complement(c), State::Complement(st)) => lemma_accept_fits(at(c), st.0, b),
        (Node::Intersection(p), State::Intersection(st)) => {
            lemma_accept_fits(at(p.0), st.0, b);
            lemma_accept_fits(at(p.1), st.1, b);
        },
        (Node::Union(p), State::Union(st)) => {
            lemma_accept_fits(at(p.0), st.0, b);
            lemma_accept_fits(at(p.1), st.1, b);
        },
        _ => {},
    }
}

/// Every state of a traversal has the shape of its node.
pub proof fn lemma_run_fits(n: Node, s: State, input: Seq<u8>)
    requires
        n.fits(s),
    ensures
        n.fits(n.run(s, input)),
    decreases input.len(),
{
    if input.len() > 0 {
        lemma_accept_fits(n, s, input[0]);
        lemma_run_fits(n, n.spec_accept(s, input[0]), input.skip(1));
    }
}

/// One step of the two pruning rules: a state that cannot match does not
/// match and leads to one that cannot; a state that will always match
/// matches and leads to one that will.
pub proof fn lemma_step_sound(n: Node, s: State, b: u8)
    ensures
        !n.spec_can_match(s) ==> !n.spec_is_match(s) && !n.spec_can_match(n.spec_accept(s, b)),
        n.spec_will_always_match(s) ==> n.spec_is_match(s) && n.spec_will_always_match(
            n.spec_accept(s, b),
        ),
    decreases n,
{
    match (n, s) {
        (Node::StartsWith(c), State::StartsWith(st)) => match *st {
            StartsWithState::Done => {},
            StartsWithState::Running(inner) => {
                lemma_step_sound(at(c), inner, b);
                lemma_step_sound(at(c), at(c).spec_accept(inner, b), b);
            },
        },
        (Node::Complement(c), State::Complement(st)) => lemma_step_sound(at(c), st.0, b),
        (Node::Intersection(p), State::Intersection(st)) => {
            lemma_step_sound(at(p.0), st.0, b);
            lemma_step_sound(at(p.1), st.1, b);
        },
        (Node::Union(p), State::Union(st)) => {
            lemma_step_sound(at(p.0), st.0, b);
            lemma_step_sound(at(p.1), st.1, b);
        },
        _ => {},
    }
}

/// Pruning is sound: from a state where `can_match` is false no input leads
/// to a match, so a traversal loses nothing by stopping there.
pub proof fn lemma_can_match_sound(n: Node, s: State, input: Seq<u8>)
    requires
        !n.spec_can_match(s),
    ensures
        !n.spec_is_match(n.run(s, input)),
    decreases input.len(),
{
    if input.len() == 0 {
        lemma_step_sound(n, s, 0u8);
    } else {
        lemma_step_sound(n, s, input[0]);
        lemma_can_match_sound(n, n.spec_accept(s, input[0]), input.skip(1));
    }
}

/// The automaton prunes soundly: from no state where `can_match` is false
/// does any input lead to a match. A traversal that stops at such states
/// then finds every key that the automaton accepts.
pub open spec fn prunes_soundly(node: Node) -> bool {
    forall|s: State, input: Seq<u8>|
        !node.spec_can_match(s) ==> !node.spec_is_match(#[trigger] node.run(s, input))
}

/// Every automaton of this library prunes soundly.
pub proof fn lemma_prunes_soundly(node: Node)
    ensures
        prunes_soundly(node),
{
    assert forall|s: State, input: Seq<u8>| !node.spec_can_match(s) implies !node.spec_is_match(
        #[trigger] node.run(s, input),
    ) by {
        lemma_can_match_sound(node, s, input);
    }
}

/// From a state where `will_always_match` is true every input leads to a
/// match.
pub proof fn lemma_will_always_match_sound(n: Node, s: State, input: Seq<u8>)
    requires
        n.spec_will_always_match(s),
    ensures
        n.spec_is_match(n.run(s, input)),
    decreases input.len(),
{
    if input.len() == 0 {
        lemma_step_sound(n, s, 0u8);
    } else {
        lemma_step_sound(n, s, input[0]);
        lemma_will_always_match_sound(n, n.spec_accept(s, input[0]), input.skip(1));
    }
}

/// `never` accepts nothing.
pub proof fn lemma_never_language(k: Seq<u8>)
    ensures
        !Node::NeverMatch.accepts(k),
{
}

proof fn lemma_always_run(k: Seq<u8>)
    ensures
        Node::AlwaysMatch.run(State::AlwaysMatch, k) == State::AlwaysMatch,
    decreases k.len(),
{
    if k.len() > 0 {
        lemma_always_run(k.skip(1));
    }
}

/// `always` accepts every key.
pub proof fn lemma_always_language(k: Seq<u8>)
    ensures
        Node::AlwaysMatch.accepts(k),
{
    lemma_always_run(k);
}

proof fn lemma_str_dead(p: Vec<u8>, k: Seq<u8>)
    ensures
        Node::Str(p).run(State::Str(None), k) == State::Str(None),
    decreases k.len(),
{
    if k.len() > 0 {
        lemma_str_dead(p, k.skip(1));
    }
}

proof fn lemma_str_run(p: Vec<u8>, i: usize, k: Seq<u8>)
    requires
        i <= p@.len(),
    ensures
        Node::Str(p).spec_is_match(Node::Str(p).run(State::Str(Some(i)), k)) <==> k == p@.skip(
            i as int,
        ),
    decreases k.len(),
{
    let rest = p@.skip(i as int);
    assert(p@.len() == p.len());
    if k.len() == 0 {
        if i == p@.len() {
            assert(k =~= rest);
        }
    } else if i < p@.len() && p@[i as int] == k[0] {
        lemma_str_run(p, (i + 1) as usize, k.skip(1));
        assert(rest[0] == k[0]);
        assert(rest.skip(1) =~= p@.skip(i + 1));
        if k.skip(1) == rest.skip(1) {
            assert(k =~= seq![k[0]] + k.skip(1));
            assert(rest =~= seq![rest[0]] + rest.skip(1));
        }
    } else {
        lemma_str_dead(p, k.skip(1));
        if i < p@.len() {
            assert(rest[0] != k[0]);
        }
    }
}

/// `str(p)` accepts exactly the key `p`.
pub proof fn lemma_str_language(p: Vec<u8>, k: Seq<u8>)
    ensures
        Node::Str(p).accepts(k) <==> k == p@,
{
    lemma_str_run(p, 0, k);
    assert(p@.skip(0) =~= p@);
}

/// A pattern without its first byte is found wherever the pattern is.
proof fn lemma_subsequence_drop_first(s: Seq<u8>, k: Seq<u8>)
    requires
        s.len() > 0,
        is_subsequence(s, k),
    ensures
        is_subsequence(s.skip(1), k),
    decreases k.len(),
{
    if k.len() > 0 {
        if s[0] == k[0] && is_subsequence(s.skip(1), k.skip(1)) {
            lemma_subsequence_shorter_key(s.skip(1), k);
        } else {
            lemma_subsequence_drop_first(s, k.skip(1));
            lemma_subsequence_shorter_key(s.skip(1), k);
        }
    }
}

/// What is found in a key without its first byte is found in the key.
proof fn lemma_subsequence_shorter_key(s: Seq<u8>, k: Seq<u8>)
    requires
        k.len() > 0,
        is_subsequence(s, k.skip(1)),
    ensures
        is_subsequence(s, k),
{
}

proof fn lemma_subsequence_run(p: Vec<u8>, j: usize, k: Seq<u8>)
    requires
        j <= p@.len(),
    ensures
        Node::Subsequence(p).spec_is_match(Node::Subsequence(p).run(State::Subsequence(j), k))
            <==> is_subsequence(p@.skip(j as int), k),
    decreases k.len(),
{
    let rest = p@.skip(j as int);
    assert(p@.len() == p.len());
    if k.len() == 0 {
    } else if j < p@.len() && p@[j as int] == k[0] {
        lemma_subsequence_run(p, (j + 1) as usize, k.skip(1));
        assert(rest[0] == k[0]);
        assert(rest.skip(1) =~= p@.skip(j + 1));
        if is_subsequence(rest, k.skip(1)) {
            lemma_subsequence_drop_first(rest, k.skip(1));
        }
    } else {
        lemma_subsequence_run(p, j, k.skip(1));
        if j < p@.len() {
            assert(rest[0] != k[0]);
        }
    }
}

/// `subsequence(p)` accepts exactly the keys in which the bytes of `p`
/// occur in order.
pub proof fn lemma_subsequence_language(p: Vec<u8>, k: Seq<u8>)
    ensures
        Node::Subsequence(p).accepts(k) <==> is_subsequence(p@, k),
{
    lemma_subsequence_run(p, 0, k);
    assert(p@.skip(0) =~= p@);
}

proof fn lemma_complement_run(c: Node, s: State, k: Seq<u8>)
    ensures
        Node::Complement(Arc::new(c)).run(State::Complement(Box::new(ComplementState(s))), k)
            == State::Complement(Box::new(ComplementState(c.run(s, k)))),
    decreases k.len(),
{
    if k.len() > 0 {
        lemma_complement_run(c, c.spec_accept(s, k[0]), k.skip(1));
    }
}

/// The complement of an automaton accepts a key exactly when the automaton
/// does not.
pub proof fn lemma_complement_language(c: Node, k: Seq<u8>)
    ensures
        Node::Complement(Arc::new(c)).accepts(k) <==> !c.accepts(k),
{
    lemma_complement_run(c, c.spec_start(), k);
}

proof fn lemma_intersection_run(l: Node, r: Node, sl: State, sr: State, k: Seq<u8>)
    ensures
        Node::Intersection((Arc::new(l), Arc::new(r))).run(
            State::Intersection(Box::new(IntersectionState(sl, sr))),
            k,
        ) == State::Intersection(Box::new(IntersectionState(l.run(sl, k), r.run(sr, k)))),
    decreases k.len(),
{
    if k.len() > 0 {
        lemma_intersection_run(
            l,
            r,
            l.spec_accept(sl, k[0]),
            r.spec_accept(sr, k[0]),
            k.skip(1),
        );
    }
}

/// The intersection of two automata accepts the keys that both accept.
pub proof fn lemma_intersection_language(l: Node, r: Node, k: Seq<u8>)
    ensures
        Node::Intersection((Arc::new(l), Arc::new(r))).accepts(k) <==> l.accepts(k) && r.accepts(k),
{
    lemma_intersection_run(l, r, l.spec_start(), r.spec_start(), k);
}

proof fn lemma_union_run(l: Node, r: Node, sl: State, sr: State, k: Seq<u8>)
    ensures
        Node::Union((Arc::new(l), Arc::new(r))).run(
            State::Union(Box::new(UnionState(sl, sr))),
            k,
        ) == State::Union(Box::new(UnionState(l.run(sl, k), r.run(sr, k)))),
    decreases k.len(),
{
    if k.len() > 0 {
        lemma_union_run(l, r, l.spec_accept(sl, k[0]), r.spec_accept(sr, k[0]), k.skip(1));
    }
}

/// The union of two automata accepts the keys that either accepts.
pub proof fn lemma_union_language(l: Node, r: Node, k: Seq<u8>)
    ensures
        Node::Union((Arc::new(l), Arc::new(r))).accepts(k) <==> l.accepts(k) || r.accepts(k),
{
    lemma_union_run(l, r, l.spec_start(), r.spec_start(), k);
}

/// The automaton `c`, run from `s`, matches after the first `n` bytes of `k`.
pub open spec fn matches_after(c: Node, s: State, k: Seq<u8>, n: int) -> bool {
    0 <= n <= k.len() && c.spec_is_match(c.run(s, k.take(n)))
}

/// `c` accepts some initial segment of `k`, the empty one included.
pub open spec fn accepts_a_prefix(c: Node, k: Seq<u8>) -> bool {
    exists|n: int| matches_after(c, c.spec_start(), k, n)
}

proof fn lemma_starts_with_done(c: Node, k: Seq<u8>)
    ensures
        Node::StartsWith(Arc::new(c)).run(State::StartsWith(Box::new(StartsWithState::Done)), k)
            == State::StartsWith(Box::new(StartsWithState::Done)),
    decreases k.len(),
{
    if k.len() > 0 {
        lemma_starts_with_done(c, k.skip(1));
    }
}

proof fn lemma_run_take(c: Node, s: State, k: Seq<u8>, n: int)
    requires
        1 <= n <= k.len(),
    ensures
        c.run(s, k.take(n)) == c.run(c.spec_accept(s, k[0]), k.skip(1).take(n - 1)),
{
    assert(k.take(n)[0] == k[0]);
    assert(k.take(n).skip(1) =~= k.skip(1).take(n - 1));
}

proof fn lemma_starts_with_run(c: Node, s: State, k: Seq<u8>)
    ensures
        Node::StartsWith(Arc::new(c)).spec_is_match(
            Node::StartsWith(Arc::new(c)).run(
                State::StartsWith(Box::new(StartsWithState::Running(s))),
                k,
            ),
        ) <==> exists|n: int| 1 <= n && matches_after(c, s, k, n),
    decreases k.len(),
{
    let sw = Node::StartsWith(Arc::new(c));
    let from = State::StartsWith(Box::new(StartsWithState::Running(s)));
    if k.len() == 0 {
    } else {
        let next = c.spec_accept(s, k[0]);
        let rest = k.skip(1);
        if c.spec_is_match(next) {
            lemma_starts_with_done(c, rest);
            lemma_run_take(c, s, k, 1);
            assert(rest.take(0) =~= Seq::<u8>::empty());
            assert(matches_after(c, s, k, 1));
        } else {
            lemma_starts_with_run(c, next, rest);
            if exists|m: int| 1 <= m && matches_after(c, next, rest, m) {
                let m = choose|m: int| 1 <= m && matches_after(c, next, rest, m);
                lemma_run_take(c, s, k, m + 1);
                assert(matches_after(c, s, k, m + 1));
            }
            if exists|n: int| 1 <= n && matches_after(c, s, k, n) {
                let n = choose|n: int| 1 <= n && matches_after(c, s, k, n);
                lemma_run_take(c, s, k, n);
                if n == 1 {
                    assert(rest.take(0) =~= Seq::<u8>::empty());
                } else {
                    assert(matches_after(c, next, rest, n - 1));
                }
            }
        }
    }
}

/// `starts_with` of an automaton accepts the keys of which the automaton
/// accepts some initial segment.
pub proof fn lemma_starts_with_language(c: Node, k: Seq<u8>)
    ensures
        Node::StartsWith(Arc::new(c)).accepts(k) <==> accepts_a_prefix(c, k),
{
    let start = c.spec_start();
    assert(k.take(0) =~= Seq::<u8>::empty());
    if c.spec_is_match(start) {
        lemma_starts_with_done(c, k);
        assert(matches_after(c, start, k, 0));
    } else {
        lemma_starts_with_run(c, start, k);
        if accepts_a_prefix(c, k) {
            let n = choose|n: int| matches_after(c, start, k, n);
            assert(1 <= n && matches_after(c, start, k, n));
        }
    }
}

/// `starts_with(str(p))` accepts exactly the keys that begin with `p`.
pub proof fn lemma_prefix_language(p: Vec<u8>, k: Seq<u8>)
    ensures
        Node::StartsWith(Arc::new(Node::Str(p))).accepts(k) <==> is_prefix(p@, k),
{
    let c = Node::Str(p);
    lemma_starts_with_language(c, k);
    if accepts_a_prefix(c, k) {
        let n = choose|n: int| matches_after(c, c.spec_start(), k, n);
        lemma_str_language(p, k.take(n));
    }
    if is_prefix(p@, k) {
        let n = p@.len() as int;
        lemma_str_language(p, k.take(n));
        assert(matches_after(c, c.spec_start(), k, n));
    }
}

} // verus!

use ducer::automaton::{AutomatonGraph, Node, StartsWithState, State};
use std::sync::Arc;

fn str_node(s: &[u8]) -> Node {
    Node::Str(s.to_vec())
}

fn accepts(node: &Node, key: &[u8]) -> bool {
    let mut state = node.start();
    for b in key {
        state = node.accept(&state, *b);
    }
    node.is_match(&state)
}

fn state_after(node: &Node, key: &[u8]) -> State {
    let mut state = node.start();
    for b in key {
        state = node.accept(&state, *b);
    }
    state
}

#[test]
fn never_and_always() {
    assert!(!accepts(&Node::NeverMatch, b""));
    assert!(!accepts(&Node::NeverMatch, b"a"));
    assert!(accepts(&Node::AlwaysMatch, b""));
    assert!(accepts(&Node::AlwaysMatch, b"abc"));
    let s = Node::NeverMatch.start();
    assert!(!Node::NeverMatch.can_match(&s));
    assert!(!Node::NeverMatch.will_always_match(&s));
    let s = Node::AlwaysMatch.start();
    assert!(Node::AlwaysMatch.can_match(&s));
    assert!(Node::AlwaysMatch.will_always_match(&s));
}

#[test]
fn literal_matches_itself_only() {
    let n = str_node(b"foo");
    assert!(accepts(&n, b"foo"));
    assert!(!accepts(&n, b"fo"));
    assert!(!accepts(&n, b"fooo"));
    assert!(!accepts(&n, b"bar"));
    assert!(accepts(&str_node(b""), b""));
    assert!(!accepts(&str_node(b""), b"a"));
}

#[test]
fn literal_dies_on_a_wrong_byte() {
    let n = str_node(b"foo");
    let s = state_after(&n, b"fo");
    assert!(n.can_match(&s));
    assert!(!n.will_always_match(&s));
    assert!(matches!(s, State::Str(Some(2))));
    let s = state_after(&n, b"fx");
    assert!(!n.can_match(&s));
    assert!(matches!(s, State::Str(None)));
    let s = state_after(&n, b"fooo");
    assert!(matches!(s, State::Str(None)));
}

#[test]
fn subsequence_counts_what_it_found() {
    let n = Node::Subsequence(b"bd".to_vec());
    assert!(accepts(&n, b"abcde"));
    assert!(accepts(&n, b"bd"));
    assert!(!accepts(&n, b"db"));
    assert!(!accepts(&n, b"abc"));
    assert!(accepts(&Node::Subsequence(Vec::new()), b""));
    let s = state_after(&n, b"ab");
    assert!(matches!(s, State::Subsequence(1)));
    assert!(n.can_match(&s));
    assert!(!n.will_always_match(&s));
    let s = state_after(&n, b"abcdxyz");
    assert!(matches!(s, State::Subsequence(2)));
    assert!(n.will_always_match(&s));
}

#[test]
fn starts_with_collapses_to_done() {
    let n = Node::StartsWith(Arc::new(str_node(b"ab")));
    assert!(accepts(&n, b"ab"));
    assert!(accepts(&n, b"abc"));
    assert!(!accepts(&n, b"a"));
    assert!(!accepts(&n, b"ba"));
    let s = state_after(&n, b"a");
    assert!(n.can_match(&s));
    assert!(!n.will_always_match(&s));
    let s = state_after(&n, b"abzz");
    assert!(n.will_always_match(&s));
    match s {
        State::StartsWith(inner) => assert!(matches!(*inner, StartsWithState::Done)),
        _ => panic!("wrong shape"),
    }
    let s = state_after(&n, b"x");
    assert!(!n.can_match(&s));
    // a child that matches at the start is done at the start
    let n = Node::StartsWith(Arc::new(str_node(b"")));
    assert!(n.will_always_match(&n.start()));
    assert!(accepts(&n, b"anything"));
}

#[test]
fn complement_swaps_the_pruning_rules() {
    let n = Node::Complement(Arc::new(str_node(b"foo")));
    assert!(!accepts(&n, b"foo"));
    assert!(accepts(&n, b""));
    assert!(accepts(&n, b"fo"));
    assert!(accepts(&n, b"fooo"));
    // the literal is dead: its complement will always match
    let s = state_after(&n, b"x");
    assert!(n.will_always_match(&s));
    assert!(n.can_match(&s));
    // the complement of always can never match
    let n = Node::Complement(Arc::new(Node::AlwaysMatch));
    assert!(!n.can_match(&n.start()));
    assert!(!accepts(&n, b"a"));
}

#[test]
fn intersection_and_union_run_both_children() {
    let l = Arc::new(Node::StartsWith(Arc::new(str_node(b"a"))));
    let r = Arc::new(Node::Subsequence(b"z".to_vec()));
    let both = Node::Intersection((l.clone(), r.clone()));
    let either = Node::Union((l, r));
    assert!(accepts(&both, b"abz"));
    assert!(!accepts(&both, b"ab"));
    assert!(!accepts(&both, b"bz"));
    assert!(accepts(&either, b"ab"));
    assert!(accepts(&either, b"bz"));
    assert!(!accepts(&either, b"b"));
    let s = state_after(&both, b"b");
    assert!(!both.can_match(&s));
    let s = state_after(&either, b"b");
    assert!(either.can_match(&s));
    let s = state_after(&either, b"a");
    assert!(either.will_always_match(&s));
}

#[test]
fn states_fit_their_nodes_only() {
    let n = str_node(b"ab");
    assert!(n.state_fits(&n.start()));
    assert!(!n.state_fits(&State::AlwaysMatch));
    let sub = Node::Subsequence(b"ab".to_vec());
    assert!(sub.state_fits(&State::Subsequence(2)));
    assert!(!sub.state_fits(&State::Subsequence(3)));
    assert!(n.accept_eof(&n.start()).is_none());
}

#[test]
fn graphs_share_and_chain() {
    let foo = AutomatonGraph::str(b"foo");
    let bar = AutomatonGraph::str(b"bar");
    let foobar = foo.union(&bar).starts_with();
    let handle = foobar.get();
    let again = handle.get();
    let _ = (handle, again);
    let _ = AutomatonGraph::never().complement();
    let _ = AutomatonGraph::always().intersection(&AutomatonGraph::subsequence(b"x"));
}

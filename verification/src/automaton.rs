//! Composable byte automata: an immutable graph of acceptor nodes and the
//! state tree that runs beside it during a traversal.

use std::sync::Arc;
use vstd::prelude::*;

verus! {

/// State of a `StartsWith` node: still running the child, or already matched.
#[derive(Debug)]
pub enum StartsWithState {
    Done,
    Running(State),
}

/// State of a `Union` node: the states of both children.
#[derive(Debug)]
pub struct UnionState(pub State, pub State);

/// State of an `Intersection` node: the states of both children.
#[derive(Debug)]
pub struct IntersectionState(pub State, pub State);

/// State of a `Complement` node: the state of the child.
#[derive(Debug)]
pub struct ComplementState(pub State);

/// The state of a traversal; its shape mirrors the node tree it belongs to.
#[derive(Debug)]
pub enum State {
    NeverMatch,
    AlwaysMatch,
    /// Position in the literal, or `None` once the input has diverged.
    Str(Option<usize>),
    /// Number of pattern bytes found so far.
    Subsequence(usize),
    StartsWith(Box<StartsWithState>),
    Complement(Box<ComplementState>),
    Intersection(Box<IntersectionState>),
    Union(Box<UnionState>),
}

/// A node of the automaton graph. Children are shared by reference.
#[derive(Debug)]
pub enum Node {
    NeverMatch,
    AlwaysMatch,
    Str(Vec<u8>),
    Subsequence(Vec<u8>),
    StartsWith(Arc<Node>),
    Complement(Arc<Node>),
    Intersection((Arc<Node>, Arc<Node>)),
    Union((Arc<Node>, Arc<Node>)),
}

/// Position in the literal `p` after reading `byte` at position `pos`:
/// one further if the byte is the next one of the literal, else dead.
pub open spec fn str_step(p: Seq<u8>, pos: Option<usize>, byte: u8) -> Option<usize> {
    match pos {
        Some(i) if i < p.len() && p[i as int] == byte => Some((i + 1) as usize),
        _ => None,
    }
}

/// Number of bytes of the pattern `p` found after reading `byte` with `pos`
/// of them found before: one more if the byte is the next one wanted.
pub open spec fn subsequence_step(p: Seq<u8>, pos: usize, byte: u8) -> usize {
    if pos < p.len() && p[pos as int] == byte {
        (pos + 1) as usize
    } else {
        pos
    }
}

impl Node {
    /// The state has the shape of this node, and its positions are in range.
    pub open spec fn fits(self, state: State) -> bool
        decreases self,
    {
        match (self, state) {
            (Node::NeverMatch, State::NeverMatch) => true,
            (Node::AlwaysMatch, State::AlwaysMatch) => true,
            (Node::Str(_), State::Str(_)) => true,
            (Node::Subsequence(p), State::Subsequence(pos)) => pos <= p@.len(),
            (Node::StartsWith(c), State::StartsWith(s)) => match *s {
                StartsWithState::Done => true,
                StartsWithState::Running(inner) => c.fits(inner),
            },
            (Node::Complement(c), State::Complement(s)) => c.fits(s.0),
            (Node::Intersection(n), State::Intersection(s)) => n.0.fits(s.0) && n.1.fits(s.1),
            (Node::Union(n), State::Union(s)) => n.0.fits(s.0) && n.1.fits(s.1),
            _ => false,
        }
    }

    /// The state in which a traversal begins.
    pub open spec fn spec_start(self) -> State
        decreases self,
    {
        match self {
            Node::NeverMatch => State::NeverMatch,
            Node::AlwaysMatch => State::AlwaysMatch,
            Node::Str(_) => State::Str(Some(0usize)),
            Node::Subsequence(_) => State::Subsequence(0usize),
            Node::StartsWith(c) => {
                let inner = c.spec_start();
                if c.spec_is_match(inner) {
                    State::StartsWith(Box::new(StartsWithState::Done))
                } else {
                    State::StartsWith(Box::new(StartsWithState::Running(inner)))
                }
            },
            Node::Complement(c) => State::Complement(Box::new(ComplementState(c.spec_start()))),
            Node::Intersection(n) => State::Intersection(
                Box::new(IntersectionState(n.0.spec_start(), n.1.spec_start())),
            ),
            Node::Union(n) => State::Union(
                Box::new(UnionState(n.0.spec_start(), n.1.spec_start())),
            ),
        }
    }

    /// The input read so far is accepted.
    pub open spec fn spec_is_match(self, state: State) -> bool
        decreases self,
    {
        match (self, state) {
            (Node::AlwaysMatch, State::AlwaysMatch) => true,
            (Node::Str(p), State::Str(pos)) => pos == Some(p@.len() as usize),
            (Node::Subsequence(p), State::Subsequence(pos)) => pos == p@.len(),
            (Node::StartsWith(_), State::StartsWith(s)) => *s is Done,
            (Node::Complement(c), State::Complement(s)) => !c.spec_is_match(s.0),
            (Node::Intersection(n), State::Intersection(s)) => n.0.spec_is_match(s.0)
                && n.1.spec_is_match(s.1),
            (Node::Union(n), State::Union(s)) => n.0.spec_is_match(s.0) || n.1.spec_is_match(s.1),
            _ => false,
        }
    }

    /// Some continuation of the input may still be accepted.
    pub open spec fn spec_can_match(self, state: State) -> bool
        decreases self, 0nat,
    {
        match (self, state) {
            (Node::AlwaysMatch, State::AlwaysMatch) => true,
            (Node::Str(_), State::Str(pos)) => pos is Some,
            (Node::Subsequence(_), State::Subsequence(_)) => true,
            (Node::StartsWith(c), State::StartsWith(s)) => match *s {
                StartsWithState::Done => true,
                StartsWithState::Running(inner) => c.spec_can_match(inner),
            },
            (Node::Complement(c), State::Complement(s)) => !c.spec_will_always_match(s.0),
            (Node::Intersection(n), State::Intersection(s)) => n.0.spec_can_match(s.0)
                && n.1.spec_can_match(s.1),
            (Node::Union(n), State::Union(s)) => n.0.spec_can_match(s.0) || n.1.spec_can_match(s.1),
            _ => false,
        }
    }

    /// Every continuation of the input is accepted.
    pub open spec fn spec_will_always_match(self, state: State) -> bool
        decreases self, 0nat,
    {
        match (self, state) {
            (Node::AlwaysMatch, State::AlwaysMatch) => true,
            (Node::Subsequence(p), State::Subsequence(pos)) => pos == p@.len(),
            (Node::StartsWith(_), State::StartsWith(s)) => *s is Done,
            (Node::Complement(c), State::Complement(s)) => !c.spec_can_match(s.0),
            (Node::Intersection(n), State::Intersection(s)) => n.0.spec_will_always_match(s.0)
                && n.1.spec_will_always_match(s.1),
            (Node::Union(n), State::Union(s)) => n.0.spec_will_always_match(s.0)
                || n.1.spec_will_always_match(s.1),
            _ => false,
        }
    }

    /// The state after reading one more byte.
    pub open spec fn spec_accept(self, state: State, byte: u8) -> State
        decreases self,
    {
        match (self, state) {
            (Node::AlwaysMatch, State::AlwaysMatch) => State::AlwaysMatch,
            (Node::Str(p), State::Str(pos)) => State::Str(str_step(p@, pos, byte)),
            (Node::Subsequence(p), State::Subsequence(pos)) => State::Subsequence(
                subsequence_step(p@, pos, byte),
            ),
            (Node::StartsWith(c), State::StartsWith(s)) => match *s {
                StartsWithState::Done => State::StartsWith(Box::new(StartsWithState::Done)),
                StartsWithState::Running(inner) => {
                    let next = c.spec_accept(inner, byte);
                    if c.spec_is_match(next) {
                        State::StartsWith(Box::new(StartsWithState::Done))
                    } else {
                        State::StartsWith(Box::new(StartsWithState::Running(next)))
                    }
                },
            },
            (Node::Complement(c), State::Complement(s)) => State::Complement(
                Box::new(ComplementState(c.spec_accept(s.0, byte))),
            ),
            (Node::Intersection(n), State::Intersection(s)) => State::Intersection(
                Box::new(
                    IntersectionState(n.0.spec_accept(s.0, byte), n.1.spec_accept(s.1, byte)),
                ),
            ),
            (Node::Union(n), State::Union(s)) => State::Union(
                Box::new(UnionState(n.0.spec_accept(s.0, byte), n.1.spec_accept(s.1, byte))),
            ),
            _ => State::NeverMatch,
        }
    }

    /// The state after reading all of `input`, byte by byte, from `state`.
    pub open spec fn run(self, state: State, input: Seq<u8>) -> State
        decreases input.len(),
    {
        if input.len() == 0 {
            state
        } else {
            self.run(self.spec_accept(state, input[0]), input.skip(1))
        }
    }

    /// The automaton accepts `key`: reading it from the start state ends in a
    /// matching state.
    pub open spec fn accepts(self, key: Seq<u8>) -> bool {
        self.spec_is_match(self.run(self.spec_start(), key))
    }
}

fn str_start() -> (r: State)
    ensures
        r == State::Str(Some(0usize)),
{
    State::Str(Some(0))
}

fn str_is_match(str: &[u8], pos: &Option<usize>) -> (r: bool)
    ensures
        r == (*pos == Some(str@.len() as usize)),
{
    match pos {
        Some(i) => *i == str.len(),
        None => false,
    }
}

fn str_can_match(pos: &Option<usize>) -> (r: bool)
    ensures
        r == (*pos is Some),
{
    pos.is_some()
}

fn str_accept(str: &[u8], pos: &Option<usize>, byte: u8) -> (r: State)
    ensures
        r == State::Str(str_step(str@, *pos, byte)),
{
    // if we aren't already past the end...
    if let Some(pos) = *pos {
        // and there is still a matching byte at the current position...
        if pos < str.len() && str[pos] == byte {
            // then move forward
            return State::Str(Some(pos + 1));
        }
    }
    // otherwise we're either past the end or didn't match the byte
    State::Str(None)
}

fn subsequence_start() -> (r: State)
    ensures
        r == State::Subsequence(0usize),
{
    State::Subsequence(0)
}

fn subsequence_is_match(node: &[u8], state: usize) -> (r: bool)
    ensures
        r == (state == node@.len()),
{
    state == node.len()
}

fn subsequence_will_always_match(node: &[u8], state: usize) -> (r: bool)
    ensures
        r == (state == node@.len()),
{
    state == node.len()
}

fn subsequence_accept(node: &[u8], state: usize, byte: u8) -> (r: State)
    requires
        state <= node@.len(),
    ensures
        r == State::Subsequence(subsequence_step(node@, state, byte)),
{
    if state == node.len() {
        return State::Subsequence(state);
    }
    if byte == node[state] {
        State::Subsequence(state + 1)
    } else {
        State::Subsequence(state)
    }
}

fn starts_with_start(node: &Node) -> (r: State)
    ensures
        r == Node::StartsWith(Arc::new(*node)).spec_start(),
        Node::StartsWith(Arc::new(*node)).fits(r),
    decreases *node, 1nat,
{
    State::StartsWith(
        Box::new(
            {
                let inner = node.start();
                if node.is_match(&inner) {
                    StartsWithState::Done
                } else {
                    StartsWithState::Running(inner)
                }
            },
        ),
    )
}

fn starts_with_is_match(state: &StartsWithState) -> (r: bool)
    ensures
        r == (*state is Done),
{
    match state {
        StartsWithState::Done => true,
        StartsWithState::Running(_) => false,
    }
}

fn starts_with_can_match(node: &Node, state: &StartsWithState) -> (r: bool)
    requires
        Node::StartsWith(Arc::new(*node)).fits(State::StartsWith(Box::new(*state))),
    ensures
        r == Node::StartsWith(Arc::new(*node)).spec_can_match(State::StartsWith(Box::new(*state))),
    decreases *node, 1nat,
{
    match state {
        StartsWithState::Done => true,
        StartsWithState::Running(inner) => node.can_match(inner),
    }
}

fn starts_with_will_always_match(state: &StartsWithState) -> (r: bool)
    ensures
        r == (*state is Done),
{
    match state {
        StartsWithState::Done => true,
        StartsWithState::Running(_) => false,
    }
}

fn starts_with_accept(node: &Node, state: &StartsWithState, byte: u8) -> (r: State)
    requires
        Node::StartsWith(Arc::new(*node)).fits(State::StartsWith(Box::new(*state))),
    ensures
        r == Node::StartsWith(Arc::new(*node)).spec_accept(
            State::StartsWith(Box::new(*state)),
            byte,
        ),
        Node::StartsWith(Arc::new(*node)).fits(r),
    decreases *node, 1nat,
{
    State::StartsWith(
        Box::new(
            match state {
                StartsWithState::Done => StartsWithState::Done,
                StartsWithState::Running(inner) => {
                    let next_inner = node.accept(inner, byte);
                    if node.is_match(&next_inner) {
                        StartsWithState::Done
                    } else {
                        StartsWithState::Running(next_inner)
                    }
                },
            },
        ),
    )
}

fn union_start(node: &(Arc<Node>, Arc<Node>)) -> (r: State)
    ensures
        r == Node::Union(*node).spec_start(),
        Node::Union(*node).fits(r),
    decreases *node, 1nat,
{
    State::Union(Box::new(UnionState(node.0.start(), node.1.start())))
}

fn union_is_match(node: &(Arc<Node>, Arc<Node>), state: &UnionState) -> (r: bool)
    requires
        Node::Union(*node).fits(State::Union(Box::new(*state))),
    ensures
        r == Node::Union(*node).spec_is_match(State::Union(Box::new(*state))),
    decreases *node, 1nat,
{
    node.0.is_match(&state.0) || node.1.is_match(&state.1)
}

fn union_can_match(node: &(Arc<Node>, Arc<Node>), state: &UnionState) -> (r: bool)
    requires
        Node::Union(*node).fits(State::Union(Box::new(*state))),
    ensures
        r == Node::Union(*node).spec_can_match(State::Union(Box::new(*state))),
    decreases *node, 1nat,
{
    node.0.can_match(&state.0) || node.1.can_match(&state.1)
}

fn union_will_always_match(node: &(Arc<Node>, Arc<Node>), state: &UnionState) -> (r: bool)
    requires
        Node::Union(*node).fits(State::Union(Box::new(*state))),
    ensures
        r == Node::Union(*node).spec_will_always_match(State::Union(Box::new(*state))),
    decreases *node, 1nat,
{
    node.0.will_always_match(&state.0) || node.1.will_always_match(&state.1)
}

fn union_accept(node: &(Arc<Node>, Arc<Node>), state: &UnionState, byte: u8) -> (r: State)
    requires
        Node::Union(*node).fits(State::Union(Box::new(*state))),
    ensures
        r == Node::Union(*node).spec_accept(State::Union(Box::new(*state)), byte),
        Node::Union(*node).fits(r),
    decreases *node, 1nat,
{
    State::Union(
        Box::new(UnionState(node.0.accept(&state.0, byte), node.1.accept(&state.1, byte))),
    )
}

fn intersection_start(node: &(Arc<Node>, Arc<Node>)) -> (r: State)
    ensures
        r == Node::Intersection(*node).spec_start(),
        Node::Intersection(*node).fits(r),
    decreases *node, 1nat,
{
    let s = Box::new(IntersectionState(node.0.start(), node.1.start()));
    State::Intersection(s)
}

fn intersection_is_match(node: &(Arc<Node>, Arc<Node>), state: &IntersectionState) -> (r: bool)
    requires
        Node::Intersection(*node).fits(State::Intersection(Box::new(*state))),
    ensures
        r == Node::Intersection(*node).spec_is_match(State::Intersection(Box::new(*state))),
    decreases *node, 1nat,
{
    node.0.is_match(&state.0) && node.1.is_match(&state.1)
}

fn intersection_can_match(node: &(Arc<Node>, Arc<Node>), state: &IntersectionState) -> (r: bool)
    requires
        Node::Intersection(*node).fits(State::Intersection(Box::new(*state))),
    ensures
        r == Node::Intersection(*node).spec_can_match(State::Intersection(Box::new(*state))),
    decreases *node, 1nat,
{
    node.0.can_match(&state.0) && node.1.can_match(&state.1)
}

fn intersection_will_always_match(
    node: &(Arc<Node>, Arc<Node>),
    state: &IntersectionState,
) -> (r: bool)
    requires
        Node::Intersection(*node).fits(State::Intersection(Box::new(*state))),
    ensures
        r == Node::Intersection(*node).spec_will_always_match(
            State::Intersection(Box::new(*state)),
        ),
    decreases *node, 1nat,
{
    node.0.will_always_match(&state.0) && node.1.will_always_match(&state.1)
}

fn intersection_accept(
    node: &(Arc<Node>, Arc<Node>),
    state: &IntersectionState,
    byte: u8,
) -> (r: State)
    requires
        Node::Intersection(*node).fits(State::Intersection(Box::new(*state))),
    ensures
        r == Node::Intersection(*node).spec_accept(State::Intersection(Box::new(*state)), byte),
        Node::Intersection(*node).fits(r),
    decreases *node, 1nat,
{
    State::Intersection(
        Box::new(
            IntersectionState(node.0.accept(&state.0, byte), node.1.accept(&state.1, byte)),
        ),
    )
}

fn complement_start(node: &Node) -> (r: State)
    ensures
        r == Node::Complement(Arc::new(*node)).spec_start(),
        Node::Complement(Arc::new(*node)).fits(r),
    decreases *node, 1nat,
{
    State::Complement(Box::new(ComplementState(node.start())))
}

fn complement_is_match(node: &Node, state: &ComplementState) -> (r: bool)
    requires
        node.fits(state.0),
    ensures
        r == !node.spec_is_match(state.0),
    decreases *node, 1nat,
{
    !node.is_match(&state.0)
}

fn complement_can_match(node: &Node, state: &ComplementState) -> (r: bool)
    requires
        node.fits(state.0),
    ensures
        r == !node.spec_will_always_match(state.0),
    decreases *node, 1nat,
{
    !node.will_always_match(&state.0)
}

fn complement_will_always_match(node: &Node, state: &ComplementState) -> (r: bool)
    requires
        node.fits(state.0),
    ensures
        r == !node.spec_can_match(state.0),
    decreases *node, 1nat,
{
    !node.can_match(&state.0)
}

fn complement_accept(node: &Node, state: &ComplementState, byte: u8) -> (r: State)
    requires
        node.fits(state.0),
    ensures
        r == State::Complement(Box::new(ComplementState(node.spec_accept(state.0, byte)))),
        node.fits(node.spec_accept(state.0, byte)),
    decreases *node, 1nat,
{
    State::Complement(Box::new(ComplementState(node.accept(&state.0, byte))))
}

impl Node {
    /// The state in which a traversal begins.
    pub fn start(&self) -> (r: State)
        ensures
            r == self.spec_start(),
            self.fits(r),
        decreases *self, 0nat,
    {
        match self {
            Self::NeverMatch => State::NeverMatch,
            Self::AlwaysMatch => State::AlwaysMatch,
            Self::Str(_) => str_start(),
            Self::Subsequence(_) => subsequence_start(),
            Self::StartsWith(n) => starts_with_start(n),
            Self::Complement(n) => complement_start(n),
            Self::Intersection(n) => intersection_start(n),
            Self::Union(n) => union_start(n),
        }
    }

    /// Whether the input read so far is accepted.
    pub fn is_match(&self, state: &State) -> (r: bool)
        requires
            self.fits(*state),
        ensures
            r == self.spec_is_match(*state),
        decreases *self, 0nat,
    {
        match (self, state) {
            (Self::NeverMatch, State::NeverMatch) => false,
            (Self::AlwaysMatch, State::AlwaysMatch) => true,
            (Self::Str(n), State::Str(state)) => str_is_match(n.as_slice(), state),
            (Self::Subsequence(n), State::Subsequence(state)) => subsequence_is_match(
                n.as_slice(),
                *state,
            ),
            (Self::StartsWith(_), State::StartsWith(state)) => starts_with_is_match(state),
            (Self::Complement(n), State::Complement(state)) => complement_is_match(n, state),
            (Self::Intersection(n), State::Intersection(state)) => intersection_is_match(n, state),
            (Self::Union(n), State::Union(state)) => union_is_match(n, state),
            _ => false,
        }
    }

    /// Whether some continuation of the input may still be accepted; a
    /// traversal need not go on from a state where this is false.
    pub fn can_match(&self, state: &State) -> (r: bool)
        requires
            self.fits(*state),
        ensures
            r == self.spec_can_match(*state),
        decreases *self, 0nat,
    {
        match (self, state) {
            (Self::NeverMatch, State::NeverMatch) => false,
            (Self::AlwaysMatch, State::AlwaysMatch) => true,
            (Self::Str(_), State::Str(state)) => str_can_match(state),
            (Self::Subsequence(_), State::Subsequence(_)) => true,
            (Self::StartsWith(n), State::StartsWith(state)) => starts_with_can_match(n, state),
            (Self::Complement(n), State::Complement(state)) => complement_can_match(n, state),
            (Self::Intersection(n), State::Intersection(state)) => intersection_can_match(
                n,
                state,
            ),
            (Self::Union(n), State::Union(state)) => union_can_match(n, state),
            _ => false,
        }
    }

    /// Whether every continuation of the input is accepted.
    pub fn will_always_match(&self, state: &State) -> (r: bool)
        requires
            self.fits(*state),
        ensures
            r == self.spec_will_always_match(*state),
        decreases *self, 0nat,
    {
        match (self, state) {
            (Self::NeverMatch, State::NeverMatch) => false,
            (Self::AlwaysMatch, State::AlwaysMatch) => true,
            (Self::Str(_), State::Str(_)) => false,
            (Self::Subsequence(n), State::Subsequence(state)) => {
                subsequence_will_always_match(n.as_slice(), *state)
            },
            (Self::StartsWith(_), State::StartsWith(state)) => starts_with_will_always_match(
                state,
            ),
            (Self::Complement(n), State::Complement(state)) => {
                complement_will_always_match(n, state)
            },
            (Self::Intersection(n), State::Intersection(state)) => {
                intersection_will_always_match(n, state)
            },
            (Self::Union(n), State::Union(state)) => union_will_always_match(n, state),
            _ => false,
        }
    }

    /// The state after reading one more byte.
    pub fn accept(&self, state: &State, byte: u8) -> (r: State)
        requires
            self.fits(*state),
        ensures
            r == self.spec_accept(*state, byte),
            self.fits(r),
        decreases *self, 0nat,
    {
        match (self, state) {
            (Self::NeverMatch, State::NeverMatch) => State::NeverMatch,
            (Self::AlwaysMatch, State::AlwaysMatch) => State::AlwaysMatch,
            (Self::Str(n), State::Str(state)) => str_accept(n.as_slice(), state, byte),
            (Self::Subsequence(n), State::Subsequence(state)) => {
                subsequence_accept(n.as_slice(), *state, byte)
            },
            (Self::StartsWith(n), State::StartsWith(state)) => starts_with_accept(n, state, byte),
            (Self::Complement(n), State::Complement(state)) => complement_accept(n, state, byte),
            (Self::Intersection(n), State::Intersection(state)) => {
                intersection_accept(n, state, byte)
            },
            (Self::Union(n), State::Union(state)) => union_accept(n, state, byte),
            _ => State::NeverMatch,
        }
    }

    /// The end of a key changes no state.
    pub fn accept_eof(&self, _state: &State) -> (r: Option<State>)
        ensures
            r is None,
    {
        None
    }
}

/// Another handle on the same shared value. Wraps `Arc::clone`, which
/// returns a pointer to the allocation of its argument: the value behind
/// the result is the value behind the argument.
#[verifier::external_body]
pub(crate) fn share<T>(a: &Arc<T>) -> (r: Arc<T>)
    ensures
        r == *a,
{
    a.clone()
}

impl Node {
    /// Whether the state has the shape of this node, with its positions in
    /// range.
    pub fn state_fits(&self, state: &State) -> (r: bool)
        ensures
            r == self.fits(*state),
        decreases *self,
    {
        match (self, state) {
            (Self::NeverMatch, State::NeverMatch) => true,
            (Self::AlwaysMatch, State::AlwaysMatch) => true,
            (Self::Str(_), State::Str(_)) => true,
            (Self::Subsequence(p), State::Subsequence(pos)) => *pos <= p.len(),
            (Self::StartsWith(c), State::StartsWith(s)) => {
                let inner: &StartsWithState = s;
                match inner {
                    StartsWithState::Done => true,
                    StartsWithState::Running(inner) => c.state_fits(inner),
                }
            },
            (Self::Complement(c), State::Complement(s)) => c.state_fits(&s.0),
            (Self::Intersection(n), State::Intersection(s)) => n.0.state_fits(&s.0)
                && n.1.state_fits(&s.1),
            (Self::Union(n), State::Union(s)) => n.0.state_fits(&s.0) && n.1.state_fits(&s.1),
            _ => false,
        }
    }
}

/// A shared handle on an automaton graph, as a traversal holds it.
pub struct ArcNode(Arc<Node>);

impl ArcNode {
    /// The node at the root of the graph.
    pub closed spec fn node(&self) -> Node {
        *self.0
    }

    /// Another handle on the same graph.
    pub fn get(&self) -> (r: ArcNode)
        ensures
            r.node() == self.node(),
    {
        ArcNode(share(&self.0))
    }
}

/// The traversal interface of the transducer library. A state that does not
/// fit the graph is no state of any traversal of it: it matches nothing and
/// leads nowhere.
impl fst::Automaton for ArcNode {
    type State = State;

    fn start(&self) -> (r: State)
        ensures
            r == self.node().spec_start(),
    {
        self.0.start()
    }

    fn is_match(&self, state: &State) -> (r: bool)
        ensures
            r == (self.node().fits(*state) && self.node().spec_is_match(*state)),
    {
        self.0.state_fits(state) && self.0.is_match(state)
    }

    fn can_match(&self, state: &State) -> (r: bool)
        ensures
            r == (self.node().fits(*state) && self.node().spec_can_match(*state)),
    {
        self.0.state_fits(state) && self.0.can_match(state)
    }

    fn will_always_match(&self, state: &State) -> (r: bool)
        ensures
            r == (self.node().fits(*state) && self.node().spec_will_always_match(*state)),
    {
        self.0.state_fits(state) && self.0.will_always_match(state)
    }

    fn accept(&self, state: &State, byte: u8) -> (r: State)
        ensures
            r == if self.node().fits(*state) {
                self.node().spec_accept(*state, byte)
            } else {
                State::NeverMatch
            },
    {
        if self.0.state_fits(state) {
            self.0.accept(state, byte)
        } else {
            State::NeverMatch
        }
    }

    fn accept_eof(&self, state: &State) -> (r: Option<State>)
        ensures
            r is None,
    {
        self.0.accept_eof(state)
    }
}

/// An automaton over byte strings, built from the constructors `never`,
/// `always`, `str` and `subsequence` and refined with `starts_with`,
/// `complement`, `intersection` and `union`. Graphs share their children.
pub struct AutomatonGraph {
    root: Arc<Node>,
}

impl AutomatonGraph {
    /// The node at the root of the graph.
    pub closed spec fn node(&self) -> Node {
        *self.root
    }

    /// A handle on the graph for a traversal.
    pub fn get(&self) -> (r: ArcNode)
        ensures
            r.node() == self.node(),
    {
        ArcNode(share(&self.root))
    }

    /// An automaton that accepts nothing.
    pub fn never() -> (r: Self)
        ensures
            r.node() == Node::NeverMatch,
    {
        Self { root: Arc::new(Node::NeverMatch) }
    }

    /// An automaton that accepts every key.
    pub fn always() -> (r: Self)
        ensures
            r.node() == Node::AlwaysMatch,
    {
        Self { root: Arc::new(Node::AlwaysMatch) }
    }

    /// An automaton that accepts exactly the key `str`.
    pub fn str(str: &[u8]) -> (r: Self)
        ensures
            r.node() matches Node::Str(p) && p@ == str@,
    {
        Self { root: Arc::new(Node::Str(crate::bytes::to_vec(str))) }
    }

    /// An automaton that accepts the keys in which the bytes of `str` occur
    /// in order, not necessarily next to each other.
    pub fn subsequence(str: &[u8]) -> (r: Self)
        ensures
            r.node() matches Node::Subsequence(p) && p@ == str@,
    {
        Self { root: Arc::new(Node::Subsequence(crate::bytes::to_vec(str))) }
    }

    /// Accepts every key that starts with something this automaton accepted.
    pub fn starts_with(self) -> (r: Self)
        ensures
            r.node() == Node::StartsWith(Arc::new(self.node())),
    {
        Self { root: Arc::new(Node::StartsWith(self.root)) }
    }

    /// Accepts every key that this automaton did not accept.
    pub fn complement(self) -> (r: Self)
        ensures
            r.node() == Node::Complement(Arc::new(self.node())),
    {
        Self { root: Arc::new(Node::Complement(self.root)) }
    }

    /// Accepts the keys that both this automaton and `other` accept.
    pub fn intersection(self, other: &AutomatonGraph) -> (r: Self)
        ensures
            r.node() == Node::Intersection((Arc::new(self.node()), Arc::new(other.node()))),
    {
        Self { root: Arc::new(Node::Intersection((self.root, share(&other.root)))) }
    }

    /// Accepts the keys that this automaton or `other` accepts.
    pub fn union(self, other: &AutomatonGraph) -> (r: Self)
        ensures
            r.node() == Node::Union((Arc::new(self.node()), Arc::new(other.node()))),
    {
        Self { root: Arc::new(Node::Union((self.root, share(&other.root)))) }
    }
}

} // verus!

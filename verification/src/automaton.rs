//! A token-driven finite automaton, generic in its tokens, in the transitions
//! that it loops on and in the payload that a node carries.
//!
//! The nodes live in an arena and are addressed by their index; node 0 is the
//! start node. Every node has a mapping from tokens to the nodes that its edges
//! lead to, at most one loop transition and at most one payload. Nothing is
//! ever removed: nodes and edges are only added, loops and payloads only set.

use std::collections::HashMap;
use std::marker::PhantomData;
use vstd::prelude::*;

verus! {

/// What the automaton consumes. A token is told apart by its key, so two
/// tokens with one key are one token.
pub trait Token: Copy {
    /// The key that stands for this token in a node's edge table.
    spec fn key(self) -> u64;

    /// Computes the key.
    fn to_key(&self) -> (k: u64)
        ensures
            k == self.key(),
    ;

    /// Distinct tokens have distinct keys.
    proof fn key_is_injective(a: Self, b: Self)
        requires
            a.key() == b.key(),
        ensures
            a == b,
    ;
}

/// What a node does with a token for which it has no edge: it changes the
/// accumulator `S` and the automaton stays where it is.
pub trait Transition<S, T> {
    /// The states and tokens on which the transition may run.
    spec fn accepts(&self, state: &S, token: T) -> bool;

    /// How the accumulator after the transition relates to the one before.
    spec fn relates(&self, before: &S, token: T, after: &S) -> bool;

    /// Runs the transition on `state`.
    fn apply(&self, state: &mut S, token: T)
        requires
            self.accepts(old(state), token),
        ensures
            self.relates(old(state), token, final(state)),
    ;
}

/// The mathematical content of one node.
#[verifier::reject_recursive_types(T)]
pub struct NodeView<T, L, P> {
    /// The node that each outgoing edge leads to, by the edge's token.
    pub edges: Map<T, nat>,
    /// The loop transition, if the node has one.
    pub transition: Option<L>,
    /// The payload, if the node has one.
    pub payload: Option<P>,
}

impl<T, L, P> NodeView<T, L, P> {
    /// A node without edges, loop or payload.
    pub open spec fn empty() -> Self {
        NodeView { edges: Map::empty(), transition: None, payload: None }
    }
}

/// The mathematical content of an automaton: its nodes, in the order in which
/// they were added.
#[verifier::reject_recursive_types(T)]
pub struct AutomatonView<T, L, P> {
    pub nodes: Seq<NodeView<T, L, P>>,
}

impl<T, L, P> AutomatonView<T, L, P> {
    /// The number of nodes.
    pub open spec fn len(self) -> nat {
        self.nodes.len()
    }

    /// Whether `node` is the index of a node.
    pub open spec fn has_node(self, node: int) -> bool {
        0 <= node < self.nodes.len()
    }

    /// Whether `from` has an edge for `token`.
    pub open spec fn has_edge(self, from: int, token: T) -> bool {
        self.nodes[from].edges.contains_key(token)
    }

    /// The node that the edge of `from` for `token` leads to.
    pub open spec fn target(self, from: int, token: T) -> nat {
        self.nodes[from].edges[token]
    }

    /// Every edge leads to a node of the automaton.
    pub open spec fn edges_in_range(self) -> bool {
        forall|from: int, token: T|
            #![trigger self.nodes[from].edges.contains_key(token)]
            self.has_node(from) && self.has_edge(from, token) ==> self.target(from, token)
                < self.nodes.len()
    }

    /// The automaton with one more node, which is empty.
    pub open spec fn with_node(self) -> Self {
        AutomatonView { nodes: self.nodes.push(NodeView::empty()) }
    }

    /// The automaton in which `from` has an edge for `token`: unchanged where
    /// the edge is there, else with a new empty node that the new edge leads to.
    pub open spec fn with_edge(self, from: int, token: T) -> Self {
        if self.has_edge(from, token) {
            self
        } else {
            AutomatonView {
                nodes: self.nodes.update(
                    from,
                    NodeView {
                        edges: self.nodes[from].edges.insert(token, self.nodes.len()),
                        ..self.nodes[from]
                    },
                ).push(NodeView::empty()),
            }
        }
    }

    /// The automaton in which `node` loops on `transition`.
    pub open spec fn with_loop(self, node: int, transition: L) -> Self {
        AutomatonView {
            nodes: self.nodes.update(
                node,
                NodeView { transition: Some(transition), ..self.nodes[node] },
            ),
        }
    }

    /// The automaton in which `node` carries `payload`.
    pub open spec fn with_payload(self, node: int, payload: P) -> Self {
        AutomatonView {
            nodes: self.nodes.update(node, NodeView { payload: Some(payload), ..self.nodes[node] }),
        }
    }

    /// Whether this automaton has every node and every edge of `old`.
    pub open spec fn extends(self, old: Self) -> bool {
        &&& old.nodes.len() <= self.nodes.len()
        &&& forall|from: int, token: T|
            #![trigger old.nodes[from].edges.contains_key(token)]
            old.has_node(from) && old.has_edge(from, token) ==> self.has_edge(from, token)
                && self.target(from, token) == old.target(from, token)
    }

    /// Nothing is ever removed: whatever is done to an automaton, it keeps its
    /// nodes and its edges.
    pub proof fn lemma_only_grows(self, node: int, token: T, transition: L, payload: P)
        requires
            self.has_node(node),
        ensures
            self.with_node().extends(self),
            self.with_edge(node, token).extends(self),
            self.with_loop(node, transition).extends(self),
            self.with_payload(node, payload).extends(self),
    {
    }
}

/// One node of the arena. The edge table is keyed by the tokens' keys.
struct Node<L, P> {
    edges: HashMap<u64, usize>,
    transition: Option<L>,
    payload: Option<P>,
}

impl<L, P> Node<L, P> {
    spec fn view_for<T: Token>(&self) -> NodeView<T, L, P> {
        NodeView {
            edges: Map::new(
                |token: T| self.edges@.contains_key(token.key()),
                |token: T| self.edges@[token.key()] as nat,
            ),
            transition: self.transition,
            payload: self.payload,
        }
    }

    fn new() -> (node: Self)
        ensures
            node.edges@ == Map::<u64, usize>::empty(),
            node.transition is None,
            node.payload is None,
    {
        Node { edges: HashMap::new(), transition: None, payload: None }
    }
}

/// The automaton.
///
/// # Type parameters
///
/// - `T`: the input tokens.
/// - `L`: the loop transitions.
/// - `P`: the payloads.
pub struct Automaton<T, L, P> {
    nodes: Vec<Node<L, P>>,
    tokens: PhantomData<T>,
}

impl<T: Token, L, P> View for Automaton<T, L, P> {
    type V = AutomatonView<T, L, P>;

    closed spec fn view(&self) -> AutomatonView<T, L, P> {
        AutomatonView {
            nodes: Seq::new(self.nodes@.len(), |i: int| self.nodes@[i].view_for::<T>()),
        }
    }
}

impl<T: Token, L, P> Automaton<T, L, P> {
    /// The invariant of the arena: there is a start node, and every edge leads
    /// to a node.
    pub closed spec fn wf(&self) -> bool {
        &&& self.nodes@.len() >= 1
        &&& forall|i: int, k: u64|
            0 <= i < self.nodes@.len() && #[trigger] self.nodes@[i].edges@.contains_key(k)
                ==> self.nodes@[i].edges@[k] < self.nodes@.len()
    }

    /// What `wf` says of the view.
    pub proof fn lemma_wf_view(&self)
        requires
            self.wf(),
        ensures
            self@.len() >= 1,
            self@.edges_in_range(),
    {
    }

    /// An automaton that has its start node and nothing else.
    pub fn new() -> (automaton: Self)
        ensures
            automaton.wf(),
            automaton@.nodes == seq![NodeView::<T, L, P>::empty()],
    {
        let mut nodes: Vec<Node<L, P>> = Vec::new();
        nodes.push(Node::new());
        let automaton = Automaton { nodes, tokens: PhantomData };
        proof {
            assert(automaton@.nodes[0].edges =~= Map::<T, nat>::empty());
            assert(automaton@.nodes =~= seq![NodeView::<T, L, P>::empty()]);
        }
        automaton
    }

    /// The index of the start node.
    pub fn start(&self) -> (node: usize)
        ensures
            node == 0,
    {
        0
    }

    /// The number of nodes.
    pub fn len(&self) -> (n: usize)
        ensures
            n == self@.len(),
    {
        self.nodes.len()
    }

    /// Adds an empty node and returns its index.
    pub fn new_node(&mut self) -> (node: usize)
        requires
            old(self).wf(),
        ensures
            final(self).wf(),
            final(self)@ == old(self)@.with_node(),
            node == old(self)@.len(),
    {
        let node = self.nodes.len();
        self.nodes.push(Node::new());
        proof {
            assert(self@.nodes[node as int].edges =~= Map::<T, nat>::empty());
            assert(self@.nodes =~= old(self)@.with_node().nodes);
        }
        node
    }

    /// The node that the edge of `from` for `token` leads to, if there is one.
    pub fn edge(&self, from: usize, token: T) -> (target: Option<usize>)
        requires
            self.wf(),
            from < self@.len(),
        ensures
            target is Some <==> self@.has_edge(from as int, token),
            target matches Some(to) ==> to == self@.target(from as int, token) && to < self@.len(),
    {
        broadcast use vstd::std_specs::hash::group_hash_axioms;

        let key = token.to_key();
        match self.nodes[from].edges.get(&key) {
            Some(to) => Some(*to),
            None => None,
        }
    }

    /// Follows the edge of `from` for `token`, which it adds, with a new node
    /// at its end, where `from` has none. Returns the node that the edge leads
    /// to.
    pub fn get_or_create_edge(&mut self, from: usize, token: T) -> (target: usize)
        requires
            old(self).wf(),
            from < old(self)@.len(),
        ensures
            final(self).wf(),
            final(self)@ == old(self)@.with_edge(from as int, token),
            target == final(self)@.target(from as int, token),
            target < final(self)@.len(),
            old(self)@.has_edge(from as int, token) ==> target == old(self)@.target(
                from as int,
                token,
            ),
            !old(self)@.has_edge(from as int, token) ==> target == old(self)@.len(),
    {
        broadcast use vstd::std_specs::hash::group_hash_axioms;

        match self.edge(from, token) {
            Some(to) => to,
            None => {
                let key = token.to_key();
                let to = self.nodes.len();
                self.nodes.push(Node::new());
                self.nodes[from].edges.insert(key, to);
                proof {
                    assert forall|other: T| other != token implies other.key() != key by {
                        if other.key() == key {
                            T::key_is_injective(other, token);
                        }
                    }
                    let before = old(self)@;
                    assert(self@.nodes[to as int].edges =~= Map::<T, nat>::empty());
                    let edges = before.nodes[from as int].edges;
                    let grown = edges.insert(token, before.nodes.len());
                    assert(self@.nodes[from as int].edges =~= grown);
                    assert(self@.nodes =~= before.with_edge(from as int, token).nodes);
                }
                to
            },
        }
    }

    /// Makes `node` loop on `transition`, in place of the loop transition that
    /// it had, if it had one.
    pub fn set_loop(&mut self, node: usize, transition: L)
        requires
            old(self).wf(),
            node < old(self)@.len(),
        ensures
            final(self).wf(),
            final(self)@ == old(self)@.with_loop(node as int, transition),
    {
        self.nodes[node].transition = Some(transition);
        proof {
            assert(self@.nodes[node as int].edges =~= old(self)@.nodes[node as int].edges);
            assert(self@.nodes =~= old(self)@.with_loop(node as int, transition).nodes);
        }
    }

    /// Gives `node` the payload `payload`, in place of the one that it had, if
    /// it had one.
    pub fn set_payload(&mut self, node: usize, payload: P)
        requires
            old(self).wf(),
            node < old(self)@.len(),
        ensures
            final(self).wf(),
            final(self)@ == old(self)@.with_payload(node as int, payload),
    {
        self.nodes[node].payload = Some(payload);
        proof {
            assert(self@.nodes[node as int].edges =~= old(self)@.nodes[node as int].edges);
            assert(self@.nodes =~= old(self)@.with_payload(node as int, payload).nodes);
        }
    }

    /// The loop transition of `node`, if it has one.
    pub fn transition(&self, node: usize) -> (transition: Option<&L>)
        requires
            self.wf(),
            node < self@.len(),
        ensures
            transition is Some <==> self@.nodes[node as int].transition is Some,
            transition matches Some(l) ==> self@.nodes[node as int].transition == Some(*l),
    {
        self.nodes[node].transition.as_ref()
    }

    /// The payload of `node`, if it has one.
    pub fn payload(&self, node: usize) -> (payload: Option<&P>)
        requires
            self.wf(),
            node < self@.len(),
        ensures
            payload is Some <==> self@.nodes[node as int].payload is Some,
            payload matches Some(p) ==> self@.nodes[node as int].payload == Some(*p),
    {
        self.nodes[node].payload.as_ref()
    }

    /// Consumes `token` at `node`. Where the node has an edge for the token,
    /// the result is the node that the edge leads to and `acc` is untouched.
    /// Else, where the node loops, its transition runs on `acc` and the result
    /// is `node` itself. Else there is no way on: the result is `None`.
    pub fn step<S>(&self, node: usize, token: T, acc: &mut S) -> (next: Option<usize>) where
        L: Transition<S, T>,

        requires
            self.wf(),
            node < self@.len(),
            !self@.has_edge(node as int, token) ==> (
            self@.nodes[node as int].transition matches Some(l) ==> l.accepts(old(acc), token)),
        ensures
            self@.has_edge(node as int, token) ==> {
                &&& next matches Some(to)
                &&& to == self@.target(node as int, token)
                &&& *final(acc) == *old(acc)
            },
            !self@.has_edge(node as int, token) ==> match self@.nodes[node as int].transition {
                Some(l) => next == Some(node) && l.relates(old(acc), token, final(acc)),
                None => next is None && *final(acc) == *old(acc),
            },
            next matches Some(to) ==> to < self@.len(),
    {
        match self.edge(node, token) {
            Some(to) => Some(to),
            None => match self.transition(node) {
                Some(l) => {
                    l.apply(acc, token);
                    Some(node)
                },
                None => None,
            },
        }
    }

    /// A cursor on the start node of this automaton, with an accumulator in
    /// its default state.
    pub fn iter<S: Default>(self) -> (cursor: Iter<S, T, L, P>)
        requires
            self.wf(),
        ensures
            cursor.wf(),
            cursor.automaton() == self,
            cursor.position() == 0,
            call_ensures(S::default, (), cursor.state()),
    {
        Iter { state: S::default(), automaton: self, index: 0 }
    }
}

/// A cursor that walks an automaton and extends it on its way: it holds the
/// automaton, the node that it stands on and an accumulator.
pub struct Iter<S, T, L, P> {
    state: S,
    automaton: Automaton<T, L, P>,
    index: usize,
}

impl<S, T: Token, L, P> Iter<S, T, L, P> {
    /// The automaton that the cursor holds.
    pub closed spec fn automaton(&self) -> Automaton<T, L, P> {
        self.automaton
    }

    /// The node that the cursor stands on.
    pub closed spec fn position(&self) -> nat {
        self.index as nat
    }

    /// The accumulator.
    pub closed spec fn state(&self) -> S {
        self.state
    }

    /// The automaton is well formed and the cursor stands on one of its nodes.
    pub closed spec fn wf(&self) -> bool {
        &&& self.automaton.wf()
        &&& self.index < self.automaton@.len()
    }

    /// What `wf` says.
    pub proof fn lemma_wf(&self)
        requires
            self.wf(),
        ensures
            self.automaton().wf(),
            self.position() < self.automaton()@.len(),
    {
    }

    /// The index of the node that the cursor stands on.
    pub fn index(&self) -> (node: usize)
        ensures
            node == self.position(),
    {
        self.index
    }

    /// The accumulator.
    pub fn accumulator(&self) -> (state: &S)
        ensures
            *state == self.state(),
    {
        &self.state
    }

    /// The automaton, as the cursor has left it.
    pub fn automaton_ref(&self) -> (automaton: &Automaton<T, L, P>)
        ensures
            *automaton == self.automaton(),
    {
        &self.automaton
    }

    /// Gives the automaton back.
    pub fn into_automaton(self) -> (automaton: Automaton<T, L, P>)
        ensures
            automaton == self.automaton(),
    {
        self.automaton
    }

    /// Go to the next node by the given token.
    ///
    /// If the node that the cursor stands on has no edge for the token, a new
    /// node is added, with a new edge for the token that leads to it.
    pub fn next_or_create_new_node(&mut self, token: T)
        requires
            old(self).wf(),
        ensures
            final(self).wf(),
            final(self).automaton()@ == old(self).automaton()@.with_edge(
                old(self).position() as int,
                token,
            ),
            final(self).position() == final(self).automaton()@.target(
                old(self).position() as int,
                token,
            ),
            final(self).state() == old(self).state(),
    {
        let target = self.automaton.get_or_create_edge(self.index, token);
        self.index = target;
    }

    /// Consumes `token`: follows the edge for it where the node has one, else
    /// runs the node's loop transition on the accumulator and stays. Returns
    /// whether either was possible; if not, the cursor is left as it was.
    pub fn next(&mut self, token: T) -> (moved: bool) where L: Transition<S, T>
        requires
            old(self).wf(),
            ({
                let a = old(self).automaton()@;
                let node = old(self).position() as int;
                !a.has_edge(node, token) ==> (a.nodes[node].transition matches Some(l)
                    ==> l.accepts(&old(self).state(), token))
            }),
        ensures
            final(self).wf(),
            final(self).automaton() == old(self).automaton(),
            ({
                let a = old(self).automaton()@;
                let node = old(self).position() as int;
                if a.has_edge(node, token) {
                    &&& moved
                    &&& final(self).position() == a.target(node, token)
                    &&& final(self).state() == old(self).state()
                } else {
                    match a.nodes[node].transition {
                        Some(l) => {
                            &&& moved
                            &&& final(self).position() == node
                            &&& l.relates(&old(self).state(), token, &final(self).state())
                        },
                        None => {
                            &&& !moved
                            &&& final(self).position() == node
                            &&& final(self).state() == old(self).state()
                        },
                    }
                }
            }),
    {
        match self.automaton.step(self.index, token, &mut self.state) {
            Some(to) => {
                self.index = to;
                true
            },
            None => false,
        }
    }

    /// Change the current node: it gets the payload `payload`.
    pub fn change_node(&mut self, payload: P)
        requires
            old(self).wf(),
        ensures
            final(self).wf(),
            final(self).automaton()@ == old(self).automaton()@.with_payload(
                old(self).position() as int,
                payload,
            ),
            final(self).position() == old(self).position(),
            final(self).state() == old(self).state(),
    {
        self.automaton.set_payload(self.index, payload);
    }

    /// Set the loop transition of the current node.
    pub fn set_loop(&mut self, transition: L)
        requires
            old(self).wf(),
        ensures
            final(self).wf(),
            final(self).automaton()@ == old(self).automaton()@.with_loop(
                old(self).position() as int,
                transition,
            ),
            final(self).position() == old(self).position(),
            final(self).state() == old(self).state(),
    {
        self.automaton.set_loop(self.index, transition);
    }
}

} // verus!

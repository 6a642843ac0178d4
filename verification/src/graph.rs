//! A graph with one relation on each constrained pair of nodes.

use crate::idx::Idx;
use crate::idx::index_of;
use crate::idx::IndexVec;
use crate::int_map;
use nohash_hasher::IntMap;
use std::fmt::Debug;
use vstd::prelude::*;
use vstd::std_specs::cmp::PartialEqSpec;

pub mod closure;
pub mod propagation;

verus! {

/// A relation that can label an edge: it can be turned round and it can be
/// narrowed by another relation on the same pair.
///
/// Narrowing is the meet of a semilattice of finite height, and turning an
/// edge round goes through it.
pub trait Edge: Copy + PartialEq + Debug {
    /// The relation seen from the other end, where the algebra has one.
    spec fn converse_spec(self) -> Option<Self>;

    /// What is left when both relations must hold.
    spec fn merge_spec(self, other: Self) -> Self;

    /// How many times a relation can still be narrowed, at most.
    spec fn rank(self) -> nat;

    /// A bound on every rank.
    spec fn height() -> nat;

    fn converse(self) -> (r: Option<Self>)
        ensures
            r == self.converse_spec(),
    ;

    fn merge(self, other: Self) -> (r: Self)
        ensures
            r == self.merge_spec(other),
    ;

    /// `==` on relations is equality.
    proof fn lemma_eq()
        ensures
            Self::obeys_eq_spec(),
            forall|x: Self, y: Self| #[trigger] x.eq_spec(&y) <==> x == y,
    ;

    /// Narrowing is idempotent, commutative and associative.
    proof fn lemma_merge(x: Self, y: Self, z: Self)
        ensures
            x.merge_spec(x) == x,
            x.merge_spec(y) == y.merge_spec(x),
            x.merge_spec(y).merge_spec(z) == x.merge_spec(y.merge_spec(z)),
    ;

    /// The converse of a narrowed relation is the narrowed converse.
    proof fn lemma_converse_merge(x: Self, y: Self)
        ensures
            x.converse_spec() is Some && y.converse_spec() is Some ==> x.merge_spec(
                y,
            ).converse_spec() == Some(
                x.converse_spec().unwrap().merge_spec(y.converse_spec().unwrap()),
            ),
    ;

    /// A narrowing that changes a relation lowers its rank, and no rank is
    /// above the height.
    proof fn lemma_rank(x: Self, y: Self)
        ensures
            x.merge_spec(y) == x || x.merge_spec(y).rank() < x.rank(),
            x.rank() <= Self::height(),
    ;
}

/// A node of the graph: the edges that leave it, by the position of the node
/// that each one reaches.
#[derive(Debug, Clone)]
pub struct Node<E: Edge> {
    pub edges: IntMap<usize, E>,
}

impl<E: Edge> Default for Node<E> {
    fn default() -> (r: Self)
        ensures
            r.edges@ == Map::<usize, E>::empty(),
    {
        Node { edges: int_map::empty() }
    }
}

/// A directed graph with one relation on each ordered pair of nodes that is
/// constrained at all.
#[derive(Debug, Clone)]
pub struct Graph<I: Idx, E: Edge> {
    pub nodes: IndexVec<I, Node<E>>,
}

/// The edges of a graph as a map from ordered pairs of positions.
pub type Edges<E> = Map<(usize, usize), E>;

/// `m` after `e` has been laid on the pair `(a, b)`: narrowed into the value
/// that is there, or stored where there is none.
pub open spec fn half_inserted<E: Edge>(m: Edges<E>, a: usize, b: usize, e: E) -> Edges<E> {
    if m.contains_key((a, b)) {
        m.insert((a, b), m[(a, b)].merge_spec(e))
    } else {
        m.insert((a, b), e)
    }
}

/// `m` after `e` has been laid on `(a, b)` and its converse, where it has
/// one, on `(b, a)`.
pub open spec fn inserted<E: Edge>(m: Edges<E>, a: usize, b: usize, e: E) -> Edges<E> {
    match e.converse_spec() {
        Some(c) => half_inserted(half_inserted(m, a, b, e), b, a, c),
        None => half_inserted(m, a, b, e),
    }
}

/// The number of nodes once `a` and `b` are among them: `n`, or as many as it
/// takes to hold the higher of the two.
pub open spec fn grown(n: nat, a: usize, b: usize) -> nat {
    let least = if a < b {
        b + 1
    } else {
        a + 1
    };
    if n < least {
        least as nat
    } else {
        n
    }
}

impl<I: Idx, E: Edge> Default for Graph<I, E> {
    fn default() -> (r: Self)
        ensures
            r.wf(),
            r.node_count() == 0,
            r@ == Map::<(usize, usize), E>::empty(),
    {
        Graph::new()
    }
}

impl<I: Idx, E: Edge> View for Graph<I, E> {
    type V = Edges<E>;

    open spec fn view(&self) -> Edges<E> {
        Map::new(
            |p: (usize, usize)|
                p.0 < self.nodes@.len() && self.nodes@[p.0 as int].edges@.contains_key(p.1),
            |p: (usize, usize)| self.nodes@[p.0 as int].edges@[p.1],
        )
    }
}

impl<I: Idx, E: Edge> Graph<I, E> {
    /// The number of nodes.
    pub open spec fn node_count(&self) -> nat {
        self.nodes@.len()
    }

    /// Every edge ends at a node of the graph.
    pub open spec fn wf(&self) -> bool {
        forall|a: usize, b: usize| #[trigger] self@.contains_key((a, b)) ==> b < self.node_count()
    }

    /// A graph without nodes.
    pub fn new() -> (r: Self)
        ensures
            r.wf(),
            r.node_count() == 0,
            r@ == Map::<(usize, usize), E>::empty(),
    {
        Graph { nodes: IndexVec::new() }
    }

    /// The relation on the edge from `a` to `b`, where there is one.
    pub fn get_edge(&self, a: I, b: I) -> (r: Option<E>)
        ensures
            r == (if self@.contains_key((index_of(a), index_of(b))) {
                Some(self@[(index_of(a), index_of(b))])
            } else {
                None
            }),
    {
        proof {
            I::lemma_conversions();
        }
        match self.nodes.get(a) {
            Some(node) => match int_map::get(&node.edges, b.into()) {
                Some(e) => Some(*e),
                None => None,
            },
            None => None,
        }
    }

    /// Lays `edge` on the pair `(a, b)`, after `a` has been made a node.
    fn half_insert(&mut self, a: I, b: I, edge: E)
        requires
            index_of(a) < usize::MAX,
        ensures
            final(self)@ == half_inserted(old(self)@, index_of(a), index_of(b), edge),
            final(self).node_count() == old(self).nodes.extended_len(a),
    {
        proof {
            I::lemma_conversions();
        }
        let ghost before = self@;
        let node = self.nodes.get_or_extend(a);
        let key: usize = b.into();
        let value = match int_map::get(&node.edges, key) {
            Some(x) => x.merge(edge),
            None => edge,
        };
        int_map::insert(&mut node.edges, key, value);
        assert(self@ =~= half_inserted(before, index_of(a), index_of(b), edge));
    }

    /// Lays `edge` on the pair `(a, b)` and its converse, where it has one,
    /// on `(b, a)`: each narrows the relation that is there, or is stored
    /// where there is none. Both ends are nodes afterwards.
    pub fn insert(&mut self, a: I, b: I, edge: E)
        requires
            index_of(a) < usize::MAX,
            index_of(b) < usize::MAX,
        ensures
            old(self).wf() ==> final(self).wf(),
            final(self)@ == inserted(old(self)@, index_of(a), index_of(b), edge),
            final(self).node_count() == grown(old(self).node_count(), index_of(a), index_of(b)),
    {
        self.half_insert(a, b, edge);
        match edge.converse() {
            Some(back) => {
                self.half_insert(b, a, back);
            },
            None => {
                let ghost mid = self@;
                self.nodes.get_or_extend(b);
                assert(self@ =~= mid);
            },
        }
    }
}

} // verus!

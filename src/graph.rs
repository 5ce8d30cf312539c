//! The capability model: what a graph can be asked, and how it can change.
//! Algorithms are written against the smallest set of these they need.

use vstd::prelude::*;

use crate::vertex::Vertex;

verus! {

/// Core graph capability: adjacency queries.
pub trait IGraph: Sized {
    type Node: Vertex;

    /// The representation invariant of the graph.
    spec fn wf(&self) -> bool;

    /// The nodes that `n` has an edge to; empty for a node the graph does not
    /// hold.
    spec fn adj_of(&self, n: Self::Node) -> Set<Self::Node>;

    /// Whether the graph records `n`.
    spec fn holds(&self, n: Self::Node) -> bool;

    /// A finite list that names every node the graph holds and every end of
    /// an edge.
    spec fn span(&self) -> Seq<Self::Node>;

    proof fn lemma_span(&self)
        requires
            self.wf(),
        ensures
            forall|n: Self::Node| #[trigger] self.holds(n) ==> self.span().contains(n),
            forall|n: Self::Node, m: Self::Node| #[trigger]
                self.adj_of(n).contains(m) ==> self.span().contains(m) && self.holds(n),
    ;

    fn get_adj(&self, node: &Self::Node) -> (r: Vec<Self::Node>)
        requires
            self.wf(),
        ensures
            r@.no_duplicates(),
            r@.to_set() == self.adj_of(*node),
    ;

    fn contains(&self, item: &Self::Node) -> (r: bool)
        requires
            self.wf(),
        ensures
            r == self.holds(*item),
    ;
}

/// Extends the core capability with edge weights. Parallel edges with
/// different weights are distinct edges.
pub trait IWeightedGraph: IGraph {
    /// The weighted edges leaving `n`, as (target, weight) pairs.
    spec fn wadj_of(&self, n: Self::Node) -> Set<(Self::Node, i64)>;

    proof fn lemma_weighted(&self)
        requires
            self.wf(),
        ensures
            forall|n: Self::Node, m: Self::Node, w: i64| #[trigger]
                self.wadj_of(n).contains((m, w)) ==> self.adj_of(n).contains(m),
            forall|n: Self::Node, m: Self::Node| #[trigger]
                self.adj_of(n).contains(m) ==> exists|w: i64| self.wadj_of(n).contains((m, w)),
    ;

    fn get_adj_weighted(&self, node: &Self::Node) -> (r: Vec<(Self::Node, i64)>)
        requires
            self.wf(),
        ensures
            r@.no_duplicates(),
            r@.to_set() == self.wadj_of(*node),
    ;
}

/// Extends the core capability with a node set that can be listed.
pub trait IDefiniteGraph: IGraph {
    fn get_all(&self) -> (r: Vec<Self::Node>)
        requires
            self.wf(),
        ensures
            r@.no_duplicates(),
            forall|n: Self::Node| #[trigger] r@.contains(n) <==> self.holds(n),
    ;

    fn len(&self) -> (r: usize)
        requires
            self.wf(),
        ensures
            r == node_set(self).len(),
    ;
}

/// The nodes that a graph holds.
pub open spec fn node_set<G: IGraph>(g: &G) -> Set<G::Node> {
    Set::new(|n: G::Node| g.holds(n))
}

/// Extends the core capability with inserting and removing nodes.
pub trait IGraphMut: IGraph {
    /// How the graph relates to `after`, the graph once `node` is inserted.
    spec fn node_inserted(&self, after: &Self, node: Self::Node) -> bool;

    /// How the graph relates to `after`, the graph once `node` is removed.
    spec fn node_removed(&self, after: &Self, node: Self::Node) -> bool;

    /// Records `node` with no edges leaving it.
    fn insert_node(&mut self, node: Self::Node)
        requires
            old(self).wf(),
        ensures
            final(self).wf(),
            final(self).holds(node),
            final(self).adj_of(node) == Set::<Self::Node>::empty(),
            forall|n: Self::Node| n != node ==> final(self).holds(n) == old(self).holds(n),
            old(self).node_inserted(final(self), node),
    ;

    /// Drops `node` and the edges leaving it.
    fn remove_node(&mut self, node: Self::Node)
        requires
            old(self).wf(),
        ensures
            final(self).wf(),
            !final(self).holds(node),
            final(self).adj_of(node) == Set::<Self::Node>::empty(),
            forall|n: Self::Node| n != node ==> final(self).holds(n) == old(self).holds(n),
            old(self).node_removed(final(self), node),
    ;
}

/// Extends the core capability with inserting and removing edges.
pub trait IGraphEdgeMut: IGraph {
    /// How the graph relates to `after`, the graph once the edge is inserted.
    spec fn edge_inserted(&self, after: &Self, from: Self::Node, to: Self::Node) -> bool;

    /// How the graph relates to `after`, the graph once the edge is removed.
    spec fn edge_removed(&self, after: &Self, from: Self::Node, to: Self::Node) -> bool;

    fn insert_edge(&mut self, from: Self::Node, to: Self::Node)
        requires
            old(self).wf(),
        ensures
            final(self).wf(),
            forall|n: Self::Node| final(self).holds(n) == old(self).holds(n),
            old(self).edge_inserted(final(self), from, to),
    ;

    fn remove_edge(&mut self, from: Self::Node, to: Self::Node)
        requires
            old(self).wf(),
        ensures
            final(self).wf(),
            forall|n: Self::Node| final(self).holds(n) == old(self).holds(n),
            old(self).edge_removed(final(self), from, to),
            !final(self).adj_of(from).contains(to),
    ;
}

/// Extends the weighted capability with inserting and removing weighted
/// edges. An edge is only added where its source is held.
pub trait IGraphEdgeWeightedMut: IWeightedGraph {
    fn insert_edge_weighted(&mut self, from: Self::Node, to: Self::Node, weight: i64)
        requires
            old(self).wf(),
        ensures
            final(self).wf(),
            forall|n: Self::Node| final(self).holds(n) == old(self).holds(n),
            forall|n: Self::Node| #[trigger]
                final(self).wadj_of(n) == if n == from && old(self).holds(from) {
                    old(self).wadj_of(n).insert((to, weight))
                } else {
                    old(self).wadj_of(n)
                },
    ;

    fn remove_edge_weighted(&mut self, from: Self::Node, to: Self::Node, weight: i64)
        requires
            old(self).wf(),
        ensures
            final(self).wf(),
            forall|n: Self::Node| final(self).holds(n) == old(self).holds(n),
            forall|n: Self::Node| #[trigger]
                final(self).wadj_of(n) == if n == from {
                    old(self).wadj_of(n).remove((to, weight))
                } else {
                    old(self).wadj_of(n)
                },
    ;
}

/// `p` follows edges of `g`, one step at a time.
pub open spec fn is_walk<G: IGraph>(g: &G, p: Seq<G::Node>) -> bool {
    forall|i: int| 0 <= i < p.len() - 1 ==> g.adj_of(#[trigger] p[i]).contains(p[i + 1])
}

/// `p` is a walk of `g` from `a` to `b`.
pub open spec fn is_path_between<G: IGraph>(g: &G, p: Seq<G::Node>, a: G::Node, b: G::Node) -> bool {
    &&& p.len() > 0
    &&& p[0] == a
    &&& p.last() == b
    &&& is_walk(g, p)
}

/// Some walk of `g` leads from `a` to `b`.
pub open spec fn reachable<G: IGraph>(g: &G, a: G::Node, b: G::Node) -> bool {
    exists|p: Seq<G::Node>| is_path_between(g, p, a, b)
}

} // verus!

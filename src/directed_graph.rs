use vstd::prelude::*;

use crate::graph::{IDefiniteGraph, IGraph, IGraphEdgeMut, IGraphMut, node_set};
use crate::table::AdjTable;
use crate::undirected_graph::UndirectedGraph;
use crate::vertex::Vertex;

verus! {

/// A directed graph: each node maps to the set of nodes it has an edge to.
/// Removing a node drops the edges leaving it; edges that point to it from
/// elsewhere are kept.
#[derive(Clone, Debug)]
pub struct DirectedGraph<T> {
    adj: AdjTable<T, T>,
}

impl<T: Vertex> DirectedGraph<T> {
    pub fn new() -> (r: Self)
        ensures
            r.wf(),
            forall|n: T| !r.holds(n),
            forall|n: T| #[trigger] r.adj_of(n) == Set::<T>::empty(),
    {
        DirectedGraph { adj: AdjTable::new() }
    }

    /// The directed graph with an edge each way for every undirected edge:
    /// the same nodes, each with the same neighbours.
    pub fn from_undirected(value: UndirectedGraph<T>) -> (r: Self)
        requires
            value.wf(),
        ensures
            r.wf(),
            forall|n: T| r.holds(n) == value.holds(n),
            forall|n: T| #[trigger] r.adj_of(n) == value.adj_of(n),
    {
        DirectedGraph { adj: value.into_table() }
    }
}

impl<T: Vertex> IGraph for DirectedGraph<T> {
    type Node = T;

    closed spec fn wf(&self) -> bool {
        self.adj.wf()
    }

    closed spec fn adj_of(&self, n: T) -> Set<T> {
        self.adj.entries_at(n)
    }

    closed spec fn holds(&self, n: T) -> bool {
        self.adj.view().contains_key(n)
    }

    closed spec fn span(&self) -> Seq<T> {
        self.adj.keys@ + self.adj.all_entries()
    }

    proof fn lemma_span(&self) {
        assert forall|n: T| #[trigger] self.holds(n) implies self.span().contains(n) by {
            let i = self.adj.keys@.index_of(n);
            assert(self.span()[i] == n);
        }
        assert forall|n: T, m: T| #[trigger]
            self.adj_of(n).contains(m) implies self.span().contains(m) && self.holds(n) by {
            self.adj.lemma_entries_in_all(n, m);
            let i = self.adj.all_entries().index_of(m);
            assert(self.span()[self.adj.keys@.len() + i] == m);
        }
    }

    fn get_adj(&self, node: &T) -> (r: Vec<T>) {
        self.adj.entries_of(node)
    }

    fn contains(&self, item: &T) -> (r: bool) {
        self.adj.find(item).is_some()
    }
}

impl<T: Vertex> IDefiniteGraph for DirectedGraph<T> {
    fn get_all(&self) -> (r: Vec<T>) {
        self.adj.key_list()
    }

    fn len(&self) -> (r: usize) {
        assert(node_set(self) =~= self.adj.view().dom());
        self.adj.len()
    }
}

impl<T: Vertex> IGraphMut for DirectedGraph<T> {
    /// Every other node keeps its edges.
    open spec fn node_inserted(&self, after: &Self, node: T) -> bool {
        forall|n: T| n != node ==> #[trigger] after.adj_of(n) == self.adj_of(n)
    }

    /// Every other node keeps its edges, those to `node` included.
    open spec fn node_removed(&self, after: &Self, node: T) -> bool {
        forall|n: T| n != node ==> #[trigger] after.adj_of(n) == self.adj_of(n)
    }

    fn insert_node(&mut self, node: T) {
        self.adj.insert_key(node);
    }

    fn remove_node(&mut self, node: T) {
        self.adj.remove_key(&node);
    }
}

impl<T: Vertex> IGraphEdgeMut for DirectedGraph<T> {
    /// `to` joins the edges of `from` where `from` is held; nothing else
    /// changes.
    open spec fn edge_inserted(&self, after: &Self, from: T, to: T) -> bool {
        forall|n: T| #[trigger]
            after.adj_of(n) == if n == from && self.holds(from) {
                self.adj_of(n).insert(to)
            } else {
                self.adj_of(n)
            }
    }

    /// `to` leaves the edges of `from`; nothing else changes.
    open spec fn edge_removed(&self, after: &Self, from: T, to: T) -> bool {
        forall|n: T| #[trigger]
            after.adj_of(n) == if n == from {
                self.adj_of(n).remove(to)
            } else {
                self.adj_of(n)
            }
    }

    fn insert_edge(&mut self, from: T, to: T) {
        self.adj.add_entry(&from, to);
    }

    fn remove_edge(&mut self, from: T, to: T) {
        self.adj.remove_entry(&from, &to);
        assert(Set::<T>::empty().remove(to) =~= Set::<T>::empty());
    }
}

} // verus!

use vstd::prelude::*;

use crate::graph::{
    IDefiniteGraph, IGraph, IGraphEdgeWeightedMut, IGraphMut, IWeightedGraph, node_set,
};
use crate::table::AdjTable;
use crate::vertex::{Vertex, find_in};

verus! {

/// A directed graph whose edges carry an `i64` weight. Each node maps to a
/// set of (target, weight) pairs, so two edges between the same nodes with
/// different weights are both kept.
#[derive(Clone, Debug)]
pub struct WeightedGraph<T> {
    adj: AdjTable<T, (T, i64)>,
}

impl<T: Vertex> WeightedGraph<T> {
    pub fn new() -> (r: Self)
        ensures
            r.wf(),
            forall|n: T| !r.holds(n),
            forall|n: T| #[trigger] r.wadj_of(n) == Set::<(T, i64)>::empty(),
    {
        WeightedGraph { adj: AdjTable::new() }
    }
}

impl<T: Vertex> IGraph for WeightedGraph<T> {
    type Node = T;

    closed spec fn wf(&self) -> bool {
        self.adj.wf()
    }

    closed spec fn adj_of(&self, n: T) -> Set<T> {
        self.adj.entries_at(n).map(|p: (T, i64)| p.0)
    }

    closed spec fn holds(&self, n: T) -> bool {
        self.adj.view().contains_key(n)
    }

    closed spec fn span(&self) -> Seq<T> {
        self.adj.keys@ + self.adj.all_entries().map_values(|p: (T, i64)| p.0)
    }

    proof fn lemma_span(&self) {
        assert forall|n: T| #[trigger] self.holds(n) implies self.span().contains(n) by {
            let i = self.adj.keys@.index_of(n);
            assert(self.span()[i] == n);
        }
        assert forall|n: T, m: T| #[trigger]
            self.adj_of(n).contains(m) implies self.span().contains(m) && self.holds(n) by {
            let p = choose|p: (T, i64)| self.adj.entries_at(n).contains(p) && p.0 == m;
            self.adj.lemma_entries_in_all(n, p);
            let i = self.adj.all_entries().index_of(p);
            assert(self.span()[self.adj.keys@.len() + i] == m);
        }
    }

    fn get_adj(&self, node: &T) -> (r: Vec<T>) {
        let pairs = self.adj.entries_of(node);
        let mut r: Vec<T> = Vec::new();
        let mut i: usize = 0;
        while i < pairs.len()
            invariant
                i <= pairs@.len(),
                r@.no_duplicates(),
                forall|x: T| #[trigger] r@.contains(x) <==> exists|j: int|
                    0 <= j < i && (#[trigger] pairs@[j]).0 == x,
            decreases pairs@.len() - i,
        {
            let target = &pairs[i].0;
            if find_in(&r, target).is_none() {
                let ghost before = r@;
                assert(forall|x: T| #[trigger] before.contains(x) <==> exists|j: int|
                    0 <= j < i && (#[trigger] pairs@[j]).0 == x);
                r.push(target.duplicate());
                proof {
                    assert forall|a: int, b: int| 0 <= a < b < r@.len() implies r@[a] != r@[b] by {
                        if b == before.len() {
                            assert(before.contains(before[a]));
                        }
                    }
                    assert forall|x: T| #[trigger] r@.contains(x) <==> exists|j: int|
                        0 <= j < i + 1 && (#[trigger] pairs@[j]).0 == x by {
                        if r@.contains(x) && x != pairs@[i as int].0 {
                            let t = r@.index_of(x);
                            assert(before[t] == x);
                            assert(before.contains(x));
                            let j = choose|j: int| 0 <= j < i && (#[trigger] pairs@[j]).0 == x;
                            assert(0 <= j < i + 1 && pairs@[j].0 == x);
                        }
                        if exists|j: int| 0 <= j < i + 1 && (#[trigger] pairs@[j]).0 == x {
                            if x == pairs@[i as int].0 {
                                assert(r@[before.len() as int] == x);
                            } else {
                                let j = choose|j: int| 0 <= j < i + 1 && (#[trigger] pairs@[j]).0 == x;
                                assert(j < i);
                                assert(before.contains(x));
                                let t = before.index_of(x);
                                assert(r@[t] == x);
                            }
                        }
                    }
                }
            }
            i += 1;
        }
        proof {
            assert forall|x: T| r@.to_set().contains(x) <==> self.adj_of(*node).contains(x) by {
                if r@.contains(x) {
                    let j = choose|j: int| 0 <= j < pairs@.len() && (#[trigger] pairs@[j]).0 == x;
                    assert(pairs@.to_set().contains(pairs@[j]));
                }
                if self.adj_of(*node).contains(x) {
                    let p = choose|p: (T, i64)| self.adj.entries_at(*node).contains(p) && p.0 == x;
                    assert(pairs@.contains(p));
                    let j = pairs@.index_of(p);
                    assert(pairs@[j].0 == x);
                }
            }
            assert(r@.to_set() =~= self.adj_of(*node));
        }
        r
    }

    fn contains(&self, item: &T) -> (r: bool) {
        self.adj.find(item).is_some()
    }
}

impl<T: Vertex> IWeightedGraph for WeightedGraph<T> {
    closed spec fn wadj_of(&self, n: T) -> Set<(T, i64)> {
        self.adj.entries_at(n)
    }

    proof fn lemma_weighted(&self) {
        assert forall|n: T, m: T, w: i64| #[trigger]
            self.wadj_of(n).contains((m, w)) implies self.adj_of(n).contains(m) by {
            assert(self.adj.entries_at(n).contains((m, w)) && (m, w).0 == m);
        }
        assert forall|n: T, m: T| #[trigger]
            self.adj_of(n).contains(m) implies exists|w: i64| self.wadj_of(n).contains((m, w)) by {
            let p = choose|p: (T, i64)| self.adj.entries_at(n).contains(p) && p.0 == m;
            assert(self.wadj_of(n).contains((m, p.1)));
        }
    }

    fn get_adj_weighted(&self, node: &T) -> (r: Vec<(T, i64)>) {
        self.adj.entries_of(node)
    }
}

impl<T: Vertex> IDefiniteGraph for WeightedGraph<T> {
    fn get_all(&self) -> (r: Vec<T>) {
        self.adj.key_list()
    }

    fn len(&self) -> (r: usize) {
        assert(node_set(self) =~= self.adj.view().dom());
        self.adj.len()
    }
}

impl<T: Vertex> IGraphMut for WeightedGraph<T> {
    /// Every other node keeps its weighted edges.
    open spec fn node_inserted(&self, after: &Self, node: T) -> bool {
        &&& after.wadj_of(node) == Set::<(T, i64)>::empty()
        &&& forall|n: T| n != node ==> #[trigger] after.wadj_of(n) == self.wadj_of(n)
    }

    /// Every other node keeps its weighted edges, those to `node` included.
    open spec fn node_removed(&self, after: &Self, node: T) -> bool {
        &&& after.wadj_of(node) == Set::<(T, i64)>::empty()
        &&& forall|n: T| n != node ==> #[trigger] after.wadj_of(n) == self.wadj_of(n)
    }

    fn insert_node(&mut self, node: T) {
        self.adj.insert_key(node);
        assert(self.adj.entries_at(node).map(|p: (T, i64)| p.0) =~= Set::<T>::empty());
    }

    fn remove_node(&mut self, node: T) {
        self.adj.remove_key(&node);
        assert(self.adj.entries_at(node).map(|p: (T, i64)| p.0) =~= Set::<T>::empty());
    }
}

impl<T: Vertex> IGraphEdgeWeightedMut for WeightedGraph<T> {
    fn insert_edge_weighted(&mut self, from: T, to: T, weight: i64) {
        self.adj.add_entry(&from, (to, weight));
    }

    fn remove_edge_weighted(&mut self, from: T, to: T, weight: i64) {
        self.adj.remove_entry(&from, &(to, weight));
        assert(Set::<(T, i64)>::empty().remove((to, weight)) =~= Set::<(T, i64)>::empty());
    }
}

} // verus!

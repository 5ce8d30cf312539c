use vstd::prelude::*;

use crate::graph::{IDefiniteGraph, IGraph, IGraphEdgeMut, IGraphMut, node_set};
use crate::table::AdjTable;
use crate::vertex::Vertex;

verus! {

/// An undirected graph: an edge is recorded at both of its ends, and every
/// change to an edge changes both ends together.
#[derive(Clone, Debug)]
pub struct UndirectedGraph<T> {
    adj: AdjTable<T, T>,
}

impl<T: Vertex> UndirectedGraph<T> {
    pub fn new() -> (r: Self)
        ensures
            r.wf(),
            forall|n: T| !r.holds(n),
            forall|n: T| #[trigger] r.adj_of(n) == Set::<T>::empty(),
    {
        UndirectedGraph { adj: AdjTable::new() }
    }

    /// Every edge is recorded at both ends.
    pub closed spec fn symmetric(&self) -> bool {
        forall|n: T, m: T| #[trigger]
            self.adj.entries_at(n).contains(m) ==> self.adj.entries_at(m).contains(n)
    }

    /// The adjacency of every node, one entry per node.
    pub fn get_inner(self) -> (r: Vec<(T, Vec<T>)>)
        requires
            self.wf(),
        ensures
            forall|i: int, j: int| 0 <= i < j < r@.len() ==> r@[i].0 != r@[j].0,
            forall|n: T| self.holds(n) <==> exists|i: int| 0 <= i < r@.len() && (#[trigger] r@[i]).0 == n,
            forall|i: int| 0 <= i < r@.len() ==> (#[trigger] r@[i]).1@.no_duplicates() && r@[i].1@.to_set()
                == self.adj_of(r@[i].0),
    {
        let keys = self.adj.key_list();
        let mut r: Vec<(T, Vec<T>)> = Vec::new();
        let mut i: usize = 0;
        while i < keys.len()
            invariant
                self.wf(),
                keys@ == self.adj.keys@,
                i <= keys@.len(),
                r@.len() == i,
                forall|t: int| 0 <= t < i ==> (#[trigger] r@[t]).0 == keys@[t],
                forall|t: int| 0 <= t < i ==> (#[trigger] r@[t]).1@.no_duplicates() && r@[t].1@.to_set()
                    == self.adj_of(r@[t].0),
            decreases keys@.len() - i,
        {
            let list = self.adj.entries_of(&keys[i]);
            r.push((keys[i].duplicate(), list));
            i += 1;
        }
        proof {
            assert forall|n: T| self.holds(n) implies exists|t: int|
                0 <= t < r@.len() && (#[trigger] r@[t]).0 == n by {
                let t = keys@.index_of(n);
                assert(r@[t].0 == n);
            }
            assert forall|n: T| (exists|t: int| 0 <= t < r@.len() && (#[trigger] r@[t]).0 == n) implies self.holds(n) by {
                let t = choose|t: int| 0 <= t < r@.len() && (#[trigger] r@[t]).0 == n;
                assert(keys@[t] == n);
            }
        }
        r
    }

    /// The adjacency store, handed over whole.
    pub(crate) fn into_table(self) -> (t: AdjTable<T, T>)
        requires
            self.wf(),
        ensures
            t.wf(),
            forall|n: T| self.holds(n) == t.view().contains_key(n),
            forall|n: T| #[trigger] self.adj_of(n) == t.entries_at(n),
    {
        self.adj
    }

    fn inner_insert_edge(&mut self, from: &T, to: &T)
        requires
            old(self).adj.wf(),
        ensures
            final(self).adj.wf(),
            final(self).adj.view().dom() == old(self).adj.view().dom(),
            forall|n: T| #[trigger]
                final(self).adj.entries_at(n) == if n == *from && old(self).adj.view().contains_key(*from) {
                    old(self).adj.entries_at(n).insert(*to)
                } else {
                    old(self).adj.entries_at(n)
                },
    {
        self.adj.add_entry(from, to.duplicate());
    }

    fn inner_remove_edge(&mut self, from: &T, to: &T)
        requires
            old(self).adj.wf(),
        ensures
            final(self).adj.wf(),
            final(self).adj.view().dom() == old(self).adj.view().dom(),
            forall|n: T| #[trigger]
                final(self).adj.entries_at(n) == if n == *from {
                    old(self).adj.entries_at(n).remove(*to)
                } else {
                    old(self).adj.entries_at(n)
                },
    {
        self.adj.remove_entry(from, to);
        assert(Set::<T>::empty().remove(*to) =~= Set::<T>::empty());
        assert(self.adj.view().dom() =~= old(self).adj.view().dom());
    }
}

impl<T: Vertex> IGraph for UndirectedGraph<T> {
    type Node = T;

    closed spec fn wf(&self) -> bool {
        self.adj.wf() && self.symmetric()
    }

    closed spec fn adj_of(&self, n: T) -> Set<T> {
        self.adj.entries_at(n)
    }

    closed spec fn holds(&self, n: T) -> bool {
        self.adj.view().contains_key(n)
    }

    closed spec fn span(&self) -> Seq<T> {
        self.adj.keys@ + self.adj.all_entries()
    }

    proof fn lemma_span(&self) {
        assert forall|n: T| #[trigger] self.holds(n) implies self.span().contains(n) by {
            let i = self.adj.keys@.index_of(n);
            assert(self.span()[i] == n);
        }
        assert forall|n: T, m: T| #[trigger]
            self.adj_of(n).contains(m) implies self.span().contains(m) && self.holds(n) by {
            self.adj.lemma_entries_in_all(n, m);
            let i = self.adj.all_entries().index_of(m);
            assert(self.span()[self.adj.keys@.len() + i] == m);
        }
    }

    fn get_adj(&self, node: &T) -> (r: Vec<T>) {
        self.adj.entries_of(node)
    }

    fn contains(&self, item: &T) -> (r: bool) {
        self.adj.find(item).is_some()
    }
}

impl<T: Vertex> IDefiniteGraph for UndirectedGraph<T> {
    fn get_all(&self) -> (r: Vec<T>) {
        self.adj.key_list()
    }

    fn len(&self) -> (r: usize) {
        assert(node_set(self) =~= self.adj.view().dom());
        self.adj.len()
    }
}

impl<T: Vertex> IGraphMut for UndirectedGraph<T> {
    /// Every other node keeps its edges but those to `node`, which leave at
    /// both ends.
    open spec fn node_inserted(&self, after: &Self, node: T) -> bool {
        forall|n: T| n != node ==> #[trigger] after.adj_of(n) == self.adj_of(n).remove(node)
    }

    /// Every other node keeps its edges but those to `node`.
    open spec fn node_removed(&self, after: &Self, node: T) -> bool {
        forall|n: T| n != node ==> #[trigger] after.adj_of(n) == self.adj_of(n).remove(node)
    }

    fn insert_node(&mut self, node: T) {
        let ghost pre = *self;
        self.remove_node(node.duplicate());
        let ghost mid = *self;
        assert(mid.adj.wf() && mid.symmetric());
        self.adj.insert_key(node);
        proof {
            assert forall|n: T, m: T| #[trigger]
                self.adj.entries_at(n).contains(m) implies self.adj.entries_at(m).contains(n) by {
                assert(self.adj.entries_at(node) =~= Set::<T>::empty());
                assert(n != node);
                assert(mid.adj.entries_at(n) == mid.adj_of(n));
                assert(mid.adj_of(n) == pre.adj_of(n).remove(node));
                assert(m != node);
                assert(mid.adj.entries_at(n).contains(m));
                assert(mid.adj.entries_at(m).contains(n));
            }
            assert(self.adj.entries_at(node) =~= Set::<T>::empty());
            assert forall|n: T| n != node implies #[trigger] self.adj_of(n) == pre.adj_of(n).remove(node) by {
                assert(self.adj.entries_at(n) == mid.adj.entries_at(n));
                assert(mid.adj_of(n) == pre.adj_of(n).remove(node));
            }
        }
    }

    fn remove_node(&mut self, node: T) {
        let ghost pre = *self;
        let adj = self.adj.entries_of(&node);
        let mut i: usize = 0;
        while i < adj.len()
            invariant
                self.adj.wf(),
                pre.wf(),
                adj@.to_set() == pre.adj_of(node),
                adj@.no_duplicates(),
                i <= adj@.len(),
                self.adj.view().dom() == pre.adj.view().dom(),
                forall|n: T| #[trigger]
                    self.adj.entries_at(n) == if adj@.subrange(0, i as int).contains(n) {
                        pre.adj.entries_at(n).remove(node)
                    } else {
                        pre.adj.entries_at(n)
                    },
            decreases adj@.len() - i,
        {
            let ghost mid = self.adj;
            assert(forall|n: T| #[trigger]
                mid.entries_at(n) == if adj@.subrange(0, i as int).contains(n) {
                    pre.adj.entries_at(n).remove(node)
                } else {
                    pre.adj.entries_at(n)
                });
            let neighbor = &adj[i];
            if let Some(_) = self.adj.find(neighbor) {
                self.adj.remove_entry(neighbor, &node);
            }
            proof {
                assert(Set::<T>::empty().remove(node) =~= Set::<T>::empty());
                assert forall|n: T| #[trigger]
                    self.adj.entries_at(n) == if adj@.subrange(0, i + 1).contains(n) {
                        pre.adj.entries_at(n).remove(node)
                    } else {
                        pre.adj.entries_at(n)
                    } by {
                    assert(self.adj.entries_at(n) == if n == adj@[i as int] {
                        mid.entries_at(n).remove(node)
                    } else {
                        mid.entries_at(n)
                    });
                    if n == adj@[i as int] {
                        assert(adj@.subrange(0, i + 1)[i as int] == n);
                        if adj@.subrange(0, i as int).contains(n) {
                            let t = adj@.subrange(0, i as int).index_of(n);
                            assert(adj@[t] == n);
                        }
                        assert(pre.adj.entries_at(n).remove(node).remove(node) =~= pre.adj.entries_at(n).remove(node));
                    } else {
                        if adj@.subrange(0, i + 1).contains(n) {
                            let t = adj@.subrange(0, i + 1).index_of(n);
                            assert(adj@.subrange(0, i as int)[t] == n);
                        }
                        if adj@.subrange(0, i as int).contains(n) {
                            let t = adj@.subrange(0, i as int).index_of(n);
                            assert(adj@.subrange(0, i + 1)[t] == n);
                        }
                    }
                }
                assert(self.adj.view().dom() =~= pre.adj.view().dom());
            }
            i += 1;
        }
        let ghost last = self.adj;
        assert(forall|n: T| #[trigger]
            last.entries_at(n) == if adj@.subrange(0, adj@.len() as int).contains(n) {
                pre.adj.entries_at(n).remove(node)
            } else {
                pre.adj.entries_at(n)
            });
        self.adj.remove_key(&node);
        proof {
            assert(adj@.subrange(0, adj@.len() as int) == adj@);
            assert(forall|n: T| n != node ==> #[trigger] self.adj.entries_at(n) == last.entries_at(n));
            assert forall|n: T| n != node implies #[trigger] self.adj_of(n) == pre.adj_of(n).remove(node) by {
                if !adj@.contains(n) {
                    if pre.adj.entries_at(n).contains(node) {
                        assert(pre.adj.entries_at(node).contains(n));
                        assert(adj@.to_set().contains(n));
                    }
                    assert(pre.adj.entries_at(n).remove(node) =~= pre.adj.entries_at(n));
                }
            }
            assert forall|n: T, m: T| #[trigger]
                self.adj.entries_at(n).contains(m) implies self.adj.entries_at(m).contains(n) by {
                assert(self.adj.entries_at(node) =~= Set::<T>::empty());
                assert(n != node);
                assert(self.adj_of(n) == pre.adj_of(n).remove(node));
                assert(pre.adj.entries_at(n).contains(m));
                assert(pre.adj.entries_at(m).contains(n));
                assert(self.adj_of(m) == pre.adj_of(m).remove(node));
            }
            assert(self.adj.entries_at(node) =~= Set::<T>::empty());
        }
    }
}

impl<T: Vertex> IGraphEdgeMut for UndirectedGraph<T> {
    /// Where both ends are held, each joins the edges of the other; nothing
    /// else changes.
    open spec fn edge_inserted(&self, after: &Self, from: T, to: T) -> bool {
        forall|n: T| #[trigger]
            after.adj_of(n) == if self.holds(from) && self.holds(to) && n == from {
                self.adj_of(n).insert(to)
            } else if self.holds(from) && self.holds(to) && n == to {
                self.adj_of(n).insert(from)
            } else {
                self.adj_of(n)
            }
    }

    /// Each end leaves the edges of the other; nothing else changes.
    open spec fn edge_removed(&self, after: &Self, from: T, to: T) -> bool {
        forall|n: T| #[trigger]
            after.adj_of(n) == if n == from {
                self.adj_of(n).remove(to)
            } else if n == to {
                self.adj_of(n).remove(from)
            } else {
                self.adj_of(n)
            }
    }

    fn insert_edge(&mut self, left: T, right: T) {
        let ghost pre = *self;
        if self.adj.find(&left).is_some() && self.adj.find(&right).is_some() {
            self.inner_insert_edge(&left, &right);
            self.inner_insert_edge(&right, &left);
            proof {
                if left == right {
                    assert(pre.adj_of(left).insert(right).insert(left) =~= pre.adj_of(left).insert(right));
                }
            }
        }
    }

    fn remove_edge(&mut self, left: T, right: T) {
        let ghost pre = *self;
        self.inner_remove_edge(&left, &right);
        self.inner_remove_edge(&right, &left);
        proof {
            if left == right {
                assert(pre.adj_of(left).remove(right).remove(left) =~= pre.adj_of(left).remove(right));
            }
        }
    }
}

} // verus!

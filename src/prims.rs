//! Prim's minimum spanning tree.

use vstd::prelude::*;

use crate::graph::{
    node_set,
    IGraph, IGraphEdgeWeightedMut, IGraphMut, IWeightedGraph, is_path_between, reachable,
};
use crate::vertex::{Vertex, find_in};
use crate::weighted_graph::WeightedGraph;

verus! {

/// The index of a lightest frontier edge; the first among equals.
fn find_lightest<N>(frontier: &Vec<(N, N, i64)>) -> (r: usize)
    requires
        frontier@.len() > 0,
    ensures
        r < frontier@.len(),
        forall|j: int| 0 <= j < frontier@.len() ==> frontier@[r as int].2 <= frontier@[j].2,
{
    let mut best: usize = 0;
    let mut i: usize = 1;
    while i < frontier.len()
        invariant
            frontier@.len() > 0,
            best < frontier@.len(),
            1 <= i <= frontier@.len(),
            forall|j: int| 0 <= j < i ==> frontier@[best as int].2 <= frontier@[j].2,
        decreases frontier@.len() - i,
    {
        if frontier[i].2 < frontier[best].2 {
            best = i;
        }
        i += 1;
    }
    best
}

/// The edges of `t`, as (source, target, weight) triples.
pub open spec fn tree_edges<N: Vertex>(t: &WeightedGraph<N>) -> Set<(N, N, i64)> {
    Set::new(|e: (N, N, i64)| t.wadj_of(e.0).contains((e.1, e.2)))
}

/// Adds the weight of an edge to a running sum.
pub open spec fn add_weight<N>(acc: int, e: (N, N, i64)) -> int {
    acc + e.2
}

/// The sum of the weights of `edges`.
pub open spec fn weight_sum<N>(edges: Set<(N, N, i64)>) -> int {
    edges.fold(0, |acc: int, e: (N, N, i64)| add_weight(acc, e))
}

proof fn lemma_weight_sum_insert<N>(edges: Set<(N, N, i64)>, e: (N, N, i64))
    requires
        edges.finite(),
        !edges.contains(e),
    ensures
        weight_sum(edges.insert(e)) == weight_sum(edges) + e.2,
{
    let f = |acc: int, e: (N, N, i64)| add_weight(acc, e);
    assert(vstd::set::fold::is_fun_commutative(f)) by {
        assert forall|a1: (N, N, i64), a2: (N, N, i64), b: int| #[trigger] f(f(b, a2), a1) == f(f(b, a1), a2) by {}
    }
    vstd::set::fold::lemma_fold_insert(edges, 0, f, e);
}

/// Some edge of `t` ends at `v`.
pub open spec fn has_edge_into<G: IWeightedGraph>(t: &G, v: G::Node) -> bool {
    exists|u: G::Node, w: i64| #[trigger] t.wadj_of(u).contains((v, w))
}

/// The shape of a tree grown from `origin` in `graph`: its edges are edges
/// of `graph` between its nodes, no edge ends at `origin`, and every other
/// node has exactly one edge into it.
pub open spec fn is_tree_of<G: IWeightedGraph>(t: &WeightedGraph<G::Node>, graph: &G, origin: G::Node) -> bool {
    &&& t.holds(origin)
    &&& forall|u: G::Node, v: G::Node, w: i64| #[trigger] t.wadj_of(u).contains((v, w)) ==>
        graph.wadj_of(u).contains((v, w)) && t.holds(u) && t.holds(v) && v != origin
    &&& forall|v: G::Node| #[trigger] t.holds(v) && v != origin ==> has_edge_into(t, v)
    &&& forall|u1: G::Node, w1: i64, u2: G::Node, w2: i64, v: G::Node|
        #[trigger] t.wadj_of(u1).contains((v, w1)) && #[trigger] t.wadj_of(u2).contains((v, w2)) ==> u1 == u2 && w1 == w2
}

proof fn lemma_tree_bound<G: IGraph>(graph: &G, origin: G::Node, tree: Seq<G::Node>)
    requires
        tree.no_duplicates(),
        forall|n: G::Node| #[trigger] tree.contains(n) ==> n == origin || graph.span().contains(n),
    ensures
        tree.len() <= graph.span().to_set().insert(origin).len(),
{
    let s = graph.span().to_set().insert(origin);
    tree.unique_seq_to_set();
    assert(tree.to_set().subset_of(s));
    vstd::set_lib::lemma_len_subset(tree.to_set(), s);
}

/// A walk stays a walk in a graph with more edges.
proof fn lemma_walk_grows<G: IGraph>(g1: &G, g2: &G, p: Seq<G::Node>)
    requires
        forall|n: G::Node, m: G::Node| g1.adj_of(n).contains(m) ==> #[trigger] g2.adj_of(n).contains(m),
        crate::graph::is_walk(g1, p),
    ensures
        crate::graph::is_walk(g2, p),
{
    assert forall|i: int| 0 <= i < p.len() - 1 implies g2.adj_of(#[trigger] p[i]).contains(p[i + 1]) by {
        assert(g1.adj_of(p[i]).contains(p[i + 1]));
    }
}

/// Adds `to`, reached by the edge `from -> to` of weight `w`, to the tree.
fn attach<G: IWeightedGraph>(
    graph: &G,
    origin: &G::Node,
    res: &mut WeightedGraph<G::Node>,
    tree: &mut Vec<G::Node>,
    frontier: &mut Vec<(G::Node, G::Node, i64)>,
    total: &mut i128,
    from: G::Node,
    to: G::Node,
    w: i64,
)
    requires
        graph.wf(),
        old(res).wf(),
        is_tree_of(old(res), graph, *origin),
        forall|n: G::Node| old(res).holds(n) <==> old(tree)@.contains(n),
        old(tree)@.no_duplicates(),
        old(tree)@.len() >= 1,
        forall|n: G::Node| #[trigger] old(tree)@.contains(n) ==> reachable(graph, *origin, n),
        forall|n: G::Node| #[trigger] old(tree)@.contains(n) ==> n == *origin || graph.span().contains(n),
        forall|q: int| 0 <= q < old(frontier)@.len() ==> old(tree)@.contains((#[trigger] old(frontier)@[q]).0)
            && graph.wadj_of(old(frontier)@[q].0).contains((old(frontier)@[q].1, old(frontier)@[q].2)),
        forall|u: G::Node, v: G::Node, x: i64| old(tree)@.contains(u) && #[trigger] graph.wadj_of(u).contains((v, x))
            ==> old(tree)@.contains(v) || old(frontier)@.contains((u, v, x)) || (u, v, x) == (from, to, w),
        -(old(tree)@.len() * 0x8000_0000_0000_0000) <= *old(total) <= old(tree)@.len() * 0x8000_0000_0000_0000,
        tree_edges(old(res)).finite(),
        *old(total) == weight_sum(tree_edges(old(res))),
        tree_edges(old(res)).len() + 1 == old(tree)@.len(),
        forall|n: G::Node| #[trigger] old(tree)@.contains(n) ==> reachable(old(res), *origin, n),
        old(tree)@.contains(from),
        graph.wadj_of(from).contains((to, w)),
        !old(tree)@.contains(to),
    ensures
        final(res).wf(),
        is_tree_of(final(res), graph, *origin),
        forall|n: G::Node| final(res).holds(n) <==> final(tree)@.contains(n),
        final(tree)@.no_duplicates(),
        final(tree)@ == old(tree)@.push(to),
        forall|n: G::Node| #[trigger] final(tree)@.contains(n) ==> reachable(graph, *origin, n),
        forall|n: G::Node| #[trigger] final(tree)@.contains(n) ==> n == *origin || graph.span().contains(n),
        forall|q: int| 0 <= q < final(frontier)@.len() ==> final(tree)@.contains((#[trigger] final(frontier)@[q]).0)
            && graph.wadj_of(final(frontier)@[q].0).contains((final(frontier)@[q].1, final(frontier)@[q].2)),
        forall|u: G::Node, v: G::Node, x: i64| final(tree)@.contains(u) && #[trigger] graph.wadj_of(u).contains((v, x))
            ==> final(tree)@.contains(v) || final(frontier)@.contains((u, v, x)),
        -(final(tree)@.len() * 0x8000_0000_0000_0000) <= *final(total) <= final(tree)@.len() * 0x8000_0000_0000_0000,
        tree_edges(final(res)).finite(),
        *final(total) == weight_sum(tree_edges(final(res))),
        tree_edges(final(res)).len() + 1 == final(tree)@.len(),
        forall|n: G::Node| #[trigger] final(tree)@.contains(n) ==> reachable(final(res), *origin, n),
        forall|n: G::Node, e: (G::Node, i64)| #[trigger] old(res).wadj_of(n).contains(e) ==> final(res).wadj_of(n).contains(e),
        final(res).wadj_of(from).contains((to, w)),
{
    let ghost r0 = *res;
    let ghost t0 = tree@;
    let ghost f0 = frontier@;
    proof {
        graph.lemma_span();
        graph.lemma_weighted();
        assert(graph.adj_of(from).contains(to));
        assert(graph.span().contains(to));
    }
    res.insert_node(to.duplicate());
    let ghost r1 = *res;
    res.insert_edge_weighted(from.duplicate(), to.duplicate(), w);
    let tl = tree.len();
    proof {
        assert(tl as int == t0.len());
        assert(tl as int * 0x8000_0000_0000_0000 <= 0xffff_ffff_ffff_ffff * 0x8000_0000_0000_0000);
    }
    *total = *total + w as i128;
    tree.push(to.duplicate());
    add_edges(graph, &to, frontier);
    proof {
        let t1 = tree@;
        assert(t1 == t0.push(to));
        assert forall|n: G::Node| #[trigger] t1.contains(n) <==> t0.contains(n) || n == to by {
            if t1.contains(n) && n != to {
                let k = t1.index_of(n);
                assert(t0[k] == n);
            }
            if t0.contains(n) {
                let k = t0.index_of(n);
                assert(t1[k] == n);
            }
            if n == to {
                assert(t1[t0.len() as int] == to);
            }
        }
        assert forall|a: int, b: int| 0 <= a < b < t1.len() implies t1[a] != t1[b] by {
            if b == t0.len() {
                assert(t0.contains(t0[a]));
            }
        }
        // the result graph
        assert(forall|n: G::Node| n != to ==> #[trigger] r1.wadj_of(n) == r0.wadj_of(n));
        assert(r1.wadj_of(to) == Set::<(G::Node, i64)>::empty());
        assert(r1.holds(from));
        assert(forall|n: G::Node| #[trigger] res.wadj_of(n) == if n == from { r1.wadj_of(n).insert((to, w)) } else { r1.wadj_of(n) });
        assert(*origin != to) by {
            assert(r0.holds(*origin));
        }
        assert forall|u: G::Node| !(#[trigger] r0.wadj_of(u)).contains((to, w)) by {
            if r0.wadj_of(u).contains((to, w)) {
                assert(r0.holds(to));
            }
        }
        assert forall|u: G::Node, v: G::Node, x: i64| #[trigger] res.wadj_of(u).contains((v, x)) implies
            graph.wadj_of(u).contains((v, x)) && res.holds(u) && res.holds(v) && v != *origin by {
            if u == from && (v, x) == (to, w) {
            } else if u == to {
                assert(r1.wadj_of(to).contains((v, x)));
            } else {
                assert(r0.wadj_of(u).contains((v, x)));
            }
        }
        assert forall|v: G::Node| #[trigger] res.holds(v) && v != *origin implies has_edge_into(res, v) by {
            if v == to {
                assert(res.wadj_of(from).contains((to, w)));
            } else {
                assert(r0.holds(v));
                assert(has_edge_into(&r0, v));
                let (u, x) = choose|u: G::Node, x: i64| #[trigger] r0.wadj_of(u).contains((v, x));
                if u == to {
                    assert(r0.holds(to));
                }
                assert(res.wadj_of(u).contains((v, x)));
            }
        }
        assert forall|u1: G::Node, w1: i64, u2: G::Node, w2: i64, v: G::Node|
            #[trigger] res.wadj_of(u1).contains((v, w1)) && #[trigger] res.wadj_of(u2).contains((v, w2)) implies u1 == u2 && w1 == w2 by {
            if u1 == to {
                assert(r1.wadj_of(to).contains((v, w1)));
            }
            if u2 == to {
                assert(r1.wadj_of(to).contains((v, w2)));
            }
            let old1 = r0.wadj_of(u1).contains((v, w1));
            let old2 = r0.wadj_of(u2).contains((v, w2));
            if old1 && old2 {
            } else if !old1 && !old2 {
            } else if !old1 {
                assert(v == to);
                assert(r0.holds(v));
            } else {
                assert(v == to);
                assert(r0.holds(v));
            }
        }
        assert(is_tree_of(res, graph, *origin));
        assert(!tree_edges(&r0).contains((from, to, w))) by {
            if r0.wadj_of(from).contains((to, w)) {
                assert(r0.holds(to));
            }
        }
        assert(tree_edges(res) =~= tree_edges(&r0).insert((from, to, w))) by {
            assert forall|e: (G::Node, G::Node, i64)| tree_edges(res).contains(e) <==> tree_edges(&r0).insert((from, to, w)).contains(e) by {
                if e.0 == to {
                    if r0.wadj_of(to).contains((e.1, e.2)) {
                        assert(r0.holds(to));
                    }
                }
            }
        }
        lemma_weight_sum_insert(tree_edges(&r0), (from, to, w));
        assert(tree_edges(res).len() == tree_edges(&r0).len() + 1);
        assert forall|n: G::Node, e: (G::Node, i64)| #[trigger] r0.wadj_of(n).contains(e) implies res.wadj_of(n).contains(e) by {
            if n == to {
                assert(e == (e.0, e.1));
                assert(r0.wadj_of(to).contains((e.0, e.1)));
                assert(r0.holds(to));
            }
        }
        r0.lemma_weighted();
        res.lemma_weighted();
        assert forall|n: G::Node, m: G::Node| r0.adj_of(n).contains(m) implies #[trigger] res.adj_of(n).contains(m) by {
            let x = choose|x: i64| r0.wadj_of(n).contains((m, x));
            if n == to {
                assert(r0.holds(to));
            }
            assert(res.wadj_of(n).contains((m, x)));
        }
        assert forall|n: G::Node| #[trigger] t1.contains(n) implies reachable(res, *origin, n) by {
            if n == to {
                assert(reachable(&r0, *origin, from));
                let p = choose|p: Seq<G::Node>| is_path_between(&r0, p, *origin, from);
                lemma_walk_grows(&r0, res, p);
                let q = p.push(to);
                assert(res.wadj_of(from).contains((to, w)));
                assert(res.adj_of(from).contains(to));
                assert forall|k: int| 0 <= k < q.len() - 1 implies res.adj_of(#[trigger] q[k]).contains(q[k + 1]) by {
                    if k < p.len() - 1 {
                        assert(q[k] == p[k] && q[k + 1] == p[k + 1]);
                    } else {
                        assert(q[k] == from);
                    }
                }
                assert(is_path_between(res, q, *origin, to));
            } else {
                assert(t0.contains(n));
                let p = choose|p: Seq<G::Node>| is_path_between(&r0, p, *origin, n);
                lemma_walk_grows(&r0, res, p);
                assert(is_path_between(res, p, *origin, n));
            }
        }
        assert forall|n: G::Node| res.holds(n) <==> t1.contains(n) by {}
        assert forall|n: G::Node| #[trigger] t1.contains(n) implies reachable(graph, *origin, n) by {
            if n == to {
                assert(reachable(graph, *origin, from));
                let p = choose|p: Seq<G::Node>| is_path_between(graph, p, *origin, from);
                let q = p.push(to);
                assert forall|k: int| 0 <= k < q.len() - 1 implies graph.adj_of(#[trigger] q[k]).contains(q[k + 1]) by {
                    if k < p.len() - 1 {
                        assert(q[k] == p[k] && q[k + 1] == p[k + 1]);
                    } else {
                        assert(q[k] == from);
                    }
                }
                assert(is_path_between(graph, q, *origin, to));
            }
        }
        let f1 = frontier@;
        assert forall|q: int| 0 <= q < f1.len() implies t1.contains((#[trigger] f1[q]).0)
            && graph.wadj_of(f1[q].0).contains((f1[q].1, f1[q].2)) by {
            if q < f0.len() {
                assert(f1[q] == f0[q]);
            }
        }
        assert forall|u: G::Node, v: G::Node, x: i64| t1.contains(u) && #[trigger] graph.wadj_of(u).contains((v, x))
            implies t1.contains(v) || f1.contains((u, v, x)) by {
            if u != to && !t1.contains(v) {
                assert(t0.contains(u));
                assert(f0.contains((u, v, x)));
                let k = f0.index_of((u, v, x));
                assert(f1[k] == (u, v, x));
            }
        }
    }
}

proof fn lemma_frontier_removed<G: IWeightedGraph>(
    graph: &G,
    tree: Seq<G::Node>,
    f0: Seq<(G::Node, G::Node, i64)>,
    f1: Seq<(G::Node, G::Node, i64)>,
    i: int,
)
    requires
        0 <= i < f0.len(),
        f1 == f0.remove(i),
        forall|q: int| 0 <= q < f0.len() ==> tree.contains((#[trigger] f0[q]).0)
            && graph.wadj_of(f0[q].0).contains((f0[q].1, f0[q].2)),
        forall|u: G::Node, v: G::Node, x: i64| tree.contains(u) && #[trigger] graph.wadj_of(u).contains((v, x))
            ==> tree.contains(v) || f0.contains((u, v, x)),
    ensures
        tree.contains(f0[i].0),
        graph.wadj_of(f0[i].0).contains((f0[i].1, f0[i].2)),
        forall|q: int| 0 <= q < f1.len() ==> tree.contains((#[trigger] f1[q]).0)
            && graph.wadj_of(f1[q].0).contains((f1[q].1, f1[q].2)),
        forall|u: G::Node, v: G::Node, x: i64| tree.contains(u) && #[trigger] graph.wadj_of(u).contains((v, x))
            ==> tree.contains(v) || f1.contains((u, v, x)) || (u, v, x) == f0[i],
{
    assert forall|q: int| 0 <= q < f1.len() implies tree.contains((#[trigger] f1[q]).0)
        && graph.wadj_of(f1[q].0).contains((f1[q].1, f1[q].2)) by {
        let q0 = if q < i { q } else { q + 1 };
        assert(f1[q] == f0[q0]);
    }
    assert forall|u: G::Node, v: G::Node, x: i64| tree.contains(u) && #[trigger] graph.wadj_of(u).contains((v, x))
        implies tree.contains(v) || f1.contains((u, v, x)) || (u, v, x) == f0[i] by {
        if !tree.contains(v) && (u, v, x) != f0[i] {
            let q0 = f0.index_of((u, v, x));
            assert(q0 != i);
            let q = if q0 < i { q0 } else { q0 - 1 };
            assert(f1[q] == (u, v, x));
        }
    }
}

/// Where every edge leaving the tree ends in it, the tree holds every node
/// that `origin` reaches.
proof fn lemma_tree_complete<G: IWeightedGraph>(graph: &G, origin: G::Node, tree: Seq<G::Node>)
    requires
        graph.wf(),
        tree.contains(origin),
        forall|u: G::Node, v: G::Node, x: i64| tree.contains(u) && #[trigger] graph.wadj_of(u).contains((v, x))
            ==> tree.contains(v),
    ensures
        forall|n: G::Node| reachable(graph, origin, n) ==> tree.contains(n),
{
    graph.lemma_weighted();
    assert forall|n: G::Node| reachable(graph, origin, n) implies tree.contains(n) by {
        let p = choose|p: Seq<G::Node>| is_path_between(graph, p, origin, n);
        lemma_tree_walk(graph, tree, p, p.len() - 1);
    }
}

proof fn lemma_tree_walk<G: IWeightedGraph>(graph: &G, tree: Seq<G::Node>, p: Seq<G::Node>, k: int)
    requires
        graph.wf(),
        forall|u: G::Node, v: G::Node, x: i64| tree.contains(u) && #[trigger] graph.wadj_of(u).contains((v, x))
            ==> tree.contains(v),
        crate::graph::is_walk(graph, p),
        p.len() > 0,
        tree.contains(p[0]),
        0 <= k < p.len(),
    ensures
        tree.contains(p[k]),
    decreases k,
{
    if k > 0 {
        lemma_tree_walk(graph, tree, p, k - 1);
        graph.lemma_weighted();
        assert(graph.adj_of(p[k - 1]).contains(p[k]));
        let x = choose|x: i64| #[trigger] graph.wadj_of(p[k - 1]).contains((p[k], x));
    }
}

/// `w` is at most the weight of every edge of `graph` that leaves the
/// nodes of `inside`.
pub open spec fn cheapest_leaving<G: IWeightedGraph>(graph: &G, inside: Seq<G::Node>, w: i64) -> bool {
    forall|x: G::Node, y: G::Node, w2: i64|
        inside.contains(x) && !inside.contains(y) && #[trigger] graph.wadj_of(x).contains((y, w2)) ==> w <= w2
}

/// The node at `i` of `order` joins `t` by an edge from an earlier node,
/// and that edge is a lightest edge of `graph` leaving the earlier nodes.
pub open spec fn joined_greedily<G: IWeightedGraph>(t: &WeightedGraph<G::Node>, graph: &G, order: Seq<G::Node>, i: int) -> bool {
    exists|u: G::Node, w: i64|
        order.subrange(0, i).contains(u) && #[trigger] t.wadj_of(u).contains((order[i], w)) && cheapest_leaving(
            graph,
            order.subrange(0, i),
            w,
        )
}

/// `t` grew from `origin` one node at a time, in `order`, each node joining
/// by a lightest edge that leaves the nodes before it: the greedy choice
/// on which the minimality of the tree rests.
pub open spec fn grown_greedily<G: IWeightedGraph>(
    t: &WeightedGraph<G::Node>,
    graph: &G,
    origin: G::Node,
    order: Seq<G::Node>,
) -> bool {
    &&& order.len() > 0
    &&& order[0] == origin
    &&& order.no_duplicates()
    &&& forall|n: G::Node| t.holds(n) <==> order.contains(n)
    &&& forall|i: int| 1 <= i < order.len() ==> #[trigger] joined_greedily(t, graph, order, i)
}

proof fn lemma_greedy_extend<G: IWeightedGraph>(
    r0: &WeightedGraph<G::Node>,
    r1: &WeightedGraph<G::Node>,
    graph: &G,
    t0: Seq<G::Node>,
    from: G::Node,
    to: G::Node,
    w: i64,
)
    requires
        forall|i: int| 1 <= i < t0.len() ==> #[trigger] joined_greedily(r0, graph, t0, i),
        forall|n: G::Node, e: (G::Node, i64)| #[trigger] r0.wadj_of(n).contains(e) ==> r1.wadj_of(n).contains(e),
        r1.wadj_of(from).contains((to, w)),
        t0.contains(from),
        cheapest_leaving(graph, t0, w),
    ensures
        forall|i: int| 1 <= i < t0.push(to).len() ==> #[trigger] joined_greedily(r1, graph, t0.push(to), i),
{
    let t1 = t0.push(to);
    assert forall|i: int| 1 <= i < t1.len() implies #[trigger] joined_greedily(r1, graph, t1, i) by {
        if i < t0.len() {
            assert(joined_greedily(r0, graph, t0, i));
            let (u, x) = choose|u: G::Node, x: i64|
                t0.subrange(0, i).contains(u) && #[trigger] r0.wadj_of(u).contains((t0[i], x)) && cheapest_leaving(
                    graph,
                    t0.subrange(0, i),
                    x,
                );
            assert(t1.subrange(0, i) =~= t0.subrange(0, i));
            assert(t1[i] == t0[i]);
            assert(r1.wadj_of(u).contains((t1[i], x)));
        } else {
            assert(t1.subrange(0, i) =~= t0);
            assert(t1[i] == to);
            assert(r1.wadj_of(from).contains((t1[i], w)));
        }
    }
}

/// Grows a minimum spanning tree from `origin` over the part of `graph` that
/// `origin` reaches, always adding the lightest edge that leaves the tree.
/// Returns the tree, as a graph of its own, and its total weight.
pub fn prims<G: IWeightedGraph>(graph: &G, origin: G::Node) -> (r: (WeightedGraph<G::Node>, i128))
    requires
        graph.wf(),
    ensures
        r.0.wf(),
        is_tree_of(&r.0, graph, origin),
        forall|n: G::Node| r.0.holds(n) <==> reachable(graph, origin, n),
        tree_edges(&r.0).finite(),
        r.1 == weight_sum(tree_edges(&r.0)),
        tree_edges(&r.0).len() + 1 == node_set(&r.0).len(),
        forall|n: G::Node| r.0.holds(n) ==> reachable(&r.0, origin, n),
        exists|order: Seq<G::Node>| #[trigger] grown_greedily(&r.0, graph, origin, order),
{
    let mut res: WeightedGraph<G::Node> = WeightedGraph::new();
    res.insert_node(origin.duplicate());
    let mut tree: Vec<G::Node> = vec![origin.duplicate()];
    let mut frontier: Vec<(G::Node, G::Node, i64)> = Vec::new();
    let mut total: i128 = 0;
    proof {
        graph.lemma_span();
        graph.lemma_weighted();
        assert(is_path_between(graph, seq![origin], origin, origin));
        assert forall|n: G::Node| res.holds(n) <==> tree@.contains(n) by {
            if n == origin {
                assert(tree@[0] == origin);
            }
        }
        assert(tree_edges(&res) =~= Set::<(G::Node, G::Node, i64)>::empty());
        assert(tree_edges(&res).len() == 0);
        assert forall|n: G::Node| #[trigger] tree@.contains(n) implies reachable(&res, origin, n) by {
            assert(tree@ == seq![origin]);
            assert(is_path_between(&res, seq![origin], origin, origin));
        }
        vstd::set::fold::lemma_fold_empty(0, |acc: int, e: (G::Node, G::Node, i64)| add_weight(acc, e));
    }
    add_edges(graph, &origin, &mut frontier);
    while frontier.len() > 0
        invariant
            graph.wf(),
            res.wf(),
            is_tree_of(&res, graph, origin),
            forall|n: G::Node| res.holds(n) <==> tree@.contains(n),
            tree@.no_duplicates(),
            tree@.len() >= 1,
            forall|n: G::Node| #[trigger] tree@.contains(n) ==> reachable(graph, origin, n),
            forall|n: G::Node| #[trigger] tree@.contains(n) ==> n == origin || graph.span().contains(n),
            forall|q: int| 0 <= q < frontier@.len() ==> tree@.contains((#[trigger] frontier@[q]).0)
                && graph.wadj_of(frontier@[q].0).contains((frontier@[q].1, frontier@[q].2)),
            forall|u: G::Node, v: G::Node, w: i64| tree@.contains(u) && #[trigger] graph.wadj_of(u).contains((v, w))
                ==> tree@.contains(v) || frontier@.contains((u, v, w)),
            -(tree@.len() * 0x8000_0000_0000_0000) <= total <= tree@.len() * 0x8000_0000_0000_0000,
            tree_edges(&res).finite(),
            total == weight_sum(tree_edges(&res)),
            tree_edges(&res).len() + 1 == tree@.len(),
            forall|n: G::Node| #[trigger] tree@.contains(n) ==> reachable(&res, origin, n),
            forall|i: int| 1 <= i < tree@.len() ==> #[trigger] joined_greedily(&res, graph, tree@, i),
            tree@[0] == origin,
        decreases graph.span().to_set().insert(origin).len() - tree@.len(), frontier@.len(),
    {
        let i = find_lightest(&frontier);
        let ghost f0 = frontier@;
        let edge = frontier.remove(i);
        let from = edge.0;
        let to = edge.1;
        let w = edge.2;
        proof {
            lemma_frontier_removed(graph, tree@, f0, frontier@, i as int);
        }
        if !res.contains(&to) {
            let ghost r0 = res;
            let ghost t0 = tree@;
            proof {
                assert forall|x: G::Node, y: G::Node, w2: i64|
                    t0.contains(x) && !t0.contains(y) && #[trigger] graph.wadj_of(x).contains((y, w2)) implies w <= w2 by {
                    assert(f0.contains((x, y, w2)));
                    let q = f0.index_of((x, y, w2));
                    assert(f0[i as int].2 <= f0[q].2);
                }
                assert(cheapest_leaving(graph, t0, w));
            }
            attach(graph, &origin, &mut res, &mut tree, &mut frontier, &mut total, from, to, w);
            proof {
                lemma_tree_bound(graph, origin, tree@);
                lemma_greedy_extend(&r0, &res, graph, t0, from, to, w);
                assert(tree@[0] == t0[0]);
            }
        }
    }
    proof {
        lemma_tree_complete(graph, origin, tree@);
        assert(node_set(&res) =~= tree@.to_set());
        tree@.unique_seq_to_set();
        assert(grown_greedily(&res, graph, origin, tree@));
    }
    (res, total)
}

/// Appends every weighted edge leaving `node` to `frontier`.
fn add_edges<G: IWeightedGraph>(graph: &G, node: &G::Node, frontier: &mut Vec<(G::Node, G::Node, i64)>)
    requires
        graph.wf(),
    ensures
        final(frontier)@.len() >= old(frontier)@.len(),
        final(frontier)@.subrange(0, old(frontier)@.len() as int) == old(frontier)@,
        forall|q: int| old(frontier)@.len() <= q < final(frontier)@.len() ==> (#[trigger] final(frontier)@[q]).0 == *node
            && graph.wadj_of(*node).contains((final(frontier)@[q].1, final(frontier)@[q].2)),
        forall|v: G::Node, w: i64| #[trigger] graph.wadj_of(*node).contains((v, w)) ==> final(frontier)@.contains((*node, v, w)),
{
    let adj = graph.get_adj_weighted(node);
    let ghost f0 = frontier@;
    let mut a: usize = 0;
    while a < adj.len()
        invariant
            adj@.to_set() == graph.wadj_of(*node),
            a <= adj@.len(),
            frontier@.len() == f0.len() + a,
            frontier@.subrange(0, f0.len() as int) == f0,
            forall|q: int| 0 <= q < a ==> #[trigger] frontier@[f0.len() + q] == (*node, adj@[q].0, adj@[q].1),
        decreases adj@.len() - a,
    {
        frontier.push((node.duplicate(), adj[a].0.duplicate(), adj[a].1));
        proof {
            assert(frontier@.subrange(0, f0.len() as int) =~= f0);
        }
        a += 1;
    }
    proof {
        assert forall|q: int| f0.len() <= q < frontier@.len() implies (#[trigger] frontier@[q]).0 == *node
            && graph.wadj_of(*node).contains((frontier@[q].1, frontier@[q].2)) by {
            let t = q - f0.len();
            assert(frontier@[f0.len() + t] == (*node, adj@[t].0, adj@[t].1));
            assert(adj@.to_set().contains(adj@[t]));
        }
        assert forall|v: G::Node, w: i64| #[trigger] graph.wadj_of(*node).contains((v, w)) implies frontier@.contains((*node, v, w)) by {
            assert(adj@.to_set().contains((v, w)));
            let t = adj@.index_of((v, w));
            assert(frontier@[f0.len() + t] == (*node, v, w));
        }
    }
}

} // verus!

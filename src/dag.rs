//! Shortest paths on an acyclic weighted graph, by relaxing edges in
//! topological order.

use vstd::prelude::*;

use crate::bfs::is_key;
use crate::dfs::{has_cycle, is_topological, reached_from_held, search_all};
use crate::dijkstras::{dist_index, dist_within, keys_of, set_prev, weight_bound};
use crate::shortest::{is_shortest, is_shortest_path, is_weighted_walk, lemma_walk_extend, lemma_walk_prefix, weight_of};
use crate::graph::{IDefiniteGraph, IGraph, IWeightedGraph, is_path_between, is_walk, reachable};
use crate::paths::{backtrack, prev_sound};
use crate::vertex::{Vertex, find_key};

verus! {

/// Along a walk, positions in a topological order that holds the walk's
/// first node strictly increase.
proof fn lemma_walk_ascends<G: IGraph>(g: &G, order: Seq<G::Node>, p: Seq<G::Node>, k: int)
    requires
        order.no_duplicates(),
        is_topological(g, order),
        forall|i: int, v: G::Node| 0 <= i < order.len() && #[trigger] g.adj_of(order[i]).contains(v) ==> order.contains(v),
        is_walk(g, p),
        order.contains(p[0]),
        1 <= k < p.len(),
    ensures
        order.contains(p[k]),
        order.index_of(p[0]) < order.index_of(p[k]),
    decreases k,
{
    let i0 = order.index_of(p[0]);
    if k == 1 {
        assert(g.adj_of(order[i0]).contains(p[1]));
        let i1 = order.index_of(p[1]);
        assert(g.adj_of(order[i0]).contains(order[i1]));
    } else {
        lemma_walk_ascends(g, order, p, k - 1);
        let a = order.index_of(p[k - 1]);
        assert(g.adj_of(p[k - 1]).contains(p[k]));
        assert(g.adj_of(order[a]).contains(p[k]));
        let b = order.index_of(p[k]);
        assert(g.adj_of(order[a]).contains(order[b]));
    }
}

/// What holds once the first `j` nodes of `order` are processed, but for
/// the bounds on weights and the edges relaxed: `weights` holds the best
/// distance found to each node reached from `origin`, `preds` the node
/// before it.
pub open spec fn dag_core<G: IGraph>(
    g: &G,
    origin: G::Node,
    order: Seq<G::Node>,
    j: int,
    found: bool,
    weights: Seq<(G::Node, i128)>,
    preds: Seq<(G::Node, G::Node)>,
) -> bool {
    &&& 0 <= j <= order.len()
    &&& forall|a: int, b: int| 0 <= a < b < weights.len() ==> weights[a].0 != weights[b].0
    &&& found <==> order.subrange(0, j).contains(origin)
    &&& !found ==> weights.len() == 0 && preds.len() == 0
    &&& found ==> is_key(weights, origin)
    &&& forall|n: G::Node| #[trigger] is_key(weights, n) ==> order.contains(n)
    &&& prev_sound(g, preds, order, keys_of(weights), origin)
}

/// Every weight lies within `m` times the largest edge weight.
pub open spec fn bounded<N>(weights: Seq<(N, i128)>, m: int) -> bool {
    forall|q: int| 0 <= q < weights.len() ==> -(m * weight_bound()) <= #[trigger] weights[q].1 <= m * weight_bound()
}

/// Every edge leaving a reached node among the first `c` of `order` ends at
/// a reached node.
pub open spec fn relaxed_upto<G: IGraph>(g: &G, order: Seq<G::Node>, weights: Seq<(G::Node, i128)>, c: int) -> bool {
    forall|q: int, v: G::Node|
        0 <= q < c && is_key(weights, order[q]) && #[trigger] g.adj_of(order[q]).contains(v) ==> is_key(weights, v)
}

/// The order facts that the search of the whole graph gives.
pub open spec fn topo_order<G: IGraph>(g: &G, order: Seq<G::Node>) -> bool {
    &&& order.no_duplicates()
    &&& is_topological(g, order)
    &&& forall|i: int, v: G::Node| 0 <= i < order.len() && #[trigger] g.adj_of(order[i]).contains(v) ==> order.contains(v)
}

/// Relaxes every edge leaving `node`, the node at `j` in topological
/// order, reached at distance `cur`.
fn relax_dag<G: IWeightedGraph>(
    graph: &G,
    origin: &G::Node,
    order: &Vec<G::Node>,
    j: usize,
    node: &G::Node,
    cur: i128,
    weights: &mut Vec<(G::Node, i128)>,
    preds: &mut Vec<(G::Node, G::Node)>,
)
    requires
        graph.wf(),
        topo_order(graph, order@),
        j < order@.len(),
        order@[j as int] == *node,
        dag_core(graph, *origin, order@, j + 1, true, old(weights)@, old(preds)@),
        bounded(old(weights)@, j as int),
        relaxed_upto(graph, order@, old(weights)@, j as int),
        is_key(old(weights)@, *node),
        -(j * weight_bound()) <= cur <= j * weight_bound(),
        dag_ok(graph, *origin, order@, j as int, j + 1, old(weights)@, old(preds)@),
        wval(old(weights)@, *node) == cur,
    ensures
        dag_core(graph, *origin, order@, j + 1, true, final(weights)@, final(preds)@),
        bounded(final(weights)@, j + 1),
        relaxed_upto(graph, order@, final(weights)@, j + 1),
        dag_ok(graph, *origin, order@, j + 1, j + 1, final(weights)@, final(preds)@),
{
    proof {
        graph.lemma_weighted();
    }
    let adj = graph.get_adj_weighted(node);
    let mut a: usize = 0;
    while a < adj.len()
        invariant
            graph.wf(),
            topo_order(graph, order@),
            j < order@.len(),
            order@[j as int] == *node,
            dag_core(graph, *origin, order@, j + 1, true, weights@, preds@),
            bounded(weights@, j + 1),
            relaxed_upto(graph, order@, weights@, j as int),
            is_key(weights@, *node),
            -(j * weight_bound()) <= cur <= j * weight_bound(),
            adj@.to_set() == graph.wadj_of(*node),
            a <= adj@.len(),
            forall|t: int| 0 <= t < a ==> is_key(weights@, (#[trigger] adj@[t]).0),
            dag_ok(graph, *origin, order@, j as int, j + 1, weights@, preds@),
            wval(weights@, *node) == cur,
            forall|t: int| 0 <= t < a ==> dist_within(weights@, (#[trigger] adj@[t]).0, cur + adj@[t].1),
        decreases adj@.len() - a,
    {
        let ghost w0 = weights@;
        let ghost p0 = preds@;
        let target = &adj[a].0;
        let w = adj[a].1;
        let ol = order.len();
        proof {
            graph.lemma_weighted();
            assert(adj@.to_set().contains(adj@[a as int]));
            assert(graph.wadj_of(*node).contains((*target, w)));
            assert(graph.adj_of(order@[j as int]).contains(*target));
            assert(order@.contains(*target));
            let ti = order@.index_of(*target);
            assert(graph.adj_of(order@[j as int]).contains(order@[ti]));
            assert(j < ti);
            if *target == *origin {
                let oi = order@.subrange(0, j + 1).index_of(*origin);
                assert(order@[oi] == *origin);
                crate::table::lemma_index_of_unique(order@, oi);
            }
            assert(*target != *origin);
            assert(ol as int == order@.len());
            assert(j * weight_bound() <= 0xffff_ffff_ffff_ffff * weight_bound());
        }
        let nd: i128 = cur + w as i128;
        record(weights, preds, target, nd, node);
        proof {
            lemma_relax_dag_step(graph, *origin, order@, j as int, *node, w0, p0, weights@, preds@, *target, nd);
            lemma_dag_relax_ok(graph, *origin, order@, j as int, w0, p0, weights@, preds@, *node, *target, w, nd);
            assert forall|t: int| 0 <= t < a + 1 implies dist_within(weights@, (#[trigger] adj@[t]).0, cur + adj@[t].1) by {
                if t < a {
                    assert(dist_within(w0, adj@[t].0, cur + adj@[t].1));
                }
            }
            assert forall|t: int| 0 <= t < a + 1 implies is_key(weights@, (#[trigger] adj@[t]).0) by {
                if t < a {
                    assert(is_key(w0, adj@[t].0));
                }
            }
        }
        a += 1;
    }
    proof {
        assert forall|y: G::Node, x: i64| #[trigger] graph.wadj_of(order@[j as int]).contains((y, x)) implies dist_within(weights@, y, cur + x) by {
            assert(adj@.to_set().contains((y, x)));
            let t = adj@.index_of((y, x));
            assert(adj@[t] == (y, x));
        }
        lemma_dag_close(graph, *origin, order@, j as int, weights@, preds@, cur as int);
        assert forall|q: int, v: G::Node|
            0 <= q < j + 1 && is_key(weights@, order@[q]) && #[trigger] graph.adj_of(order@[q]).contains(v) implies is_key(weights@, v) by {
            if q == j {
                let w = choose|w: i64| graph.wadj_of(*node).contains((v, w));
                assert(adj@.to_set().contains((v, w)));
                let t = adj@.index_of((v, w));
                assert(is_key(weights@, adj@[t].0));
            }
        }
    }
}

/// The weight recorded for `v`.
pub open spec fn wval<N>(weights: Seq<(N, i128)>, v: N) -> int {
    weights[dist_index(weights, v)].1 as int
}

/// What one call of `record` did.
pub open spec fn record_effect<N>(
    w0: Seq<(N, i128)>,
    p0: Seq<(N, N)>,
    w1: Seq<(N, i128)>,
    p1: Seq<(N, N)>,
    target: N,
    nd: i128,
    node: N,
) -> bool {
    ||| exists|k: int|
        0 <= k < w0.len() && w0[k].0 == target && nd < w0[k].1 && w1 == w0.update(k, (target, nd)) && p1.contains(
            (target, node),
        )
    ||| !is_key(w0, target) && w1 == w0.push((target, nd)) && p1.contains((target, node))
    ||| exists|k: int| 0 <= k < w0.len() && w0[k].0 == target && w0[k].1 <= nd && w1 == w0 && p1 == p0
}

/// What makes the weights right: `origin` weighs 0; every edge leaving one
/// of the first `c` nodes of `order` that was reached has been relaxed; and
/// each predecessor record is an edge from one of the first `m` nodes that
/// yields the weight recorded.
#[verifier::opaque]
pub open spec fn dag_ok<G: IWeightedGraph>(
    g: &G,
    origin: G::Node,
    order: Seq<G::Node>,
    c: int,
    m: int,
    weights: Seq<(G::Node, i128)>,
    preds: Seq<(G::Node, G::Node)>,
) -> bool {
    &&& forall|t: int| 0 <= t < weights.len() && (#[trigger] weights[t]).0 == origin ==> weights[t].1 == 0
    &&& forall|q: int, y: G::Node, w: i64|
        0 <= q < c && is_key(weights, order[q]) && #[trigger] g.wadj_of(order[q]).contains((y, w)) ==> dist_within(
            weights,
            y,
            wval(weights, order[q]) + w,
        )
    &&& forall|i: int| 0 <= i < preds.len() ==> is_key(weights, (#[trigger] preds[i]).0) && is_key(weights, preds[i].1)
    &&& forall|i: int|
        0 <= i < preds.len() ==> order.subrange(0, m).contains((#[trigger] preds[i]).1) && exists|w: i64|
            #[trigger] g.wadj_of(preds[i].1).contains((preds[i].0, w)) && wval(weights, preds[i].0) == wval(weights, preds[i].1) + w
}

/// Gives `target` the weight `nd` and the predecessor `node`, unless it
/// already has a weight no larger.
fn record<N: Vertex>(
    weights: &mut Vec<(N, i128)>,
    preds: &mut Vec<(N, N)>,
    target: &N,
    nd: i128,
    node: &N,
)
    requires
        forall|a: int, b: int| 0 <= a < b < old(weights)@.len() ==> old(weights)@[a].0 != old(weights)@[b].0,
        forall|a: int, b: int| 0 <= a < b < old(preds)@.len() ==> old(preds)@[a].0 != old(preds)@[b].0,
    ensures
        forall|a: int, b: int| 0 <= a < b < final(weights)@.len() ==> final(weights)@[a].0 != final(weights)@[b].0,
        forall|a: int, b: int| 0 <= a < b < final(preds)@.len() ==> final(preds)@[a].0 != final(preds)@[b].0,
        forall|x: N| #[trigger] is_key(final(weights)@, x) <==> is_key(old(weights)@, x) || x == *target,
        forall|e: (N, i128)| #[trigger] final(weights)@.contains(e) ==> old(weights)@.contains(e) || e == (*target, nd),
        forall|e: (N, N)| #[trigger] final(preds)@.contains(e) ==> old(preds)@.contains(e) || e == (*target, *node),
        forall|e: (N, N)| e.0 != *target ==> (#[trigger] old(preds)@.contains(e) ==> final(preds)@.contains(e)),
        forall|n: N| #[trigger] is_key(old(preds)@, n) ==> is_key(final(preds)@, n),
        is_key(final(preds)@, *target) || (is_key(old(weights)@, *target) && final(preds)@ == old(preds)@),
        record_effect(old(weights)@, old(preds)@, final(weights)@, final(preds)@, *target, nd, *node),
{
    let ghost w0 = weights@;
    let ghost p0 = preds@;
    match find_key(weights, target) {
        Some(k) => {
            if nd < weights[k].1 {
                weights.set(k, (target.duplicate(), nd));
                set_prev(preds, target.duplicate(), node.duplicate());
                proof {
                    let w1 = weights@;
                    assert forall|x: N| #[trigger] is_key(w1, x) <==> is_key(w0, x) || x == *target by {
                        if is_key(w0, x) {
                            let i = choose|i: int| 0 <= i < w0.len() && w0[i].0 == x;
                            assert(w1[i].0 == x);
                        }
                        if is_key(w1, x) {
                            let i = choose|i: int| 0 <= i < w1.len() && w1[i].0 == x;
                            assert(w1[i].0 == w0[i].0);
                        }
                    }
                    assert forall|e: (N, i128)| #[trigger] w1.contains(e) implies w0.contains(e) || e == (*target, nd) by {
                        let t = w1.index_of(e);
                        if t != k {
                            assert(w0[t] == e);
                        }
                    }
                    assert forall|a: int, b: int| 0 <= a < b < w1.len() implies w1[a].0 != w1[b].0 by {
                        assert(w1[a].0 == w0[a].0 && w1[b].0 == w0[b].0);
                    }
                    let i = choose|i: int| 0 <= i < preds@.len() && preds@[i] == (*target, *node);
                    assert(preds@[i].0 == *target);
                    assert(preds@.contains(preds@[i]));
                    assert(0 <= k < w0.len() && w0[k as int].0 == *target && nd < w0[k as int].1 && w1 == w0.update(k as int, (*target, nd)));
                }
            } else {
                proof {
                    assert(is_key(w0, *target)) by {
                        assert(w0[k as int].0 == *target);
                    }
                    assert forall|x: N| #[trigger] is_key(w0, x) <==> is_key(w0, x) || x == *target by {}
                    assert(0 <= k < w0.len() && w0[k as int].0 == *target && w0[k as int].1 <= nd && weights@ == w0 && preds@ == p0);
                }
            }
        },
        None => {
            weights.push((target.duplicate(), nd));
            set_prev(preds, target.duplicate(), node.duplicate());
            proof {
                let w1 = weights@;
                let n0 = w0.len() as int;
                assert(w1[n0] == (*target, nd));
                assert forall|x: N| #[trigger] is_key(w1, x) <==> is_key(w0, x) || x == *target by {
                    if is_key(w0, x) {
                        let i = choose|i: int| 0 <= i < w0.len() && w0[i].0 == x;
                        assert(w1[i].0 == x);
                    }
                    if is_key(w1, x) {
                        let i = choose|i: int| 0 <= i < w1.len() && w1[i].0 == x;
                        if i < n0 {
                            assert(w1[i].0 == w0[i].0);
                        }
                    }
                    if x == *target {
                        assert(w1[n0].0 == x);
                    }
                }
                assert forall|e: (N, i128)| #[trigger] w1.contains(e) implies w0.contains(e) || e == (*target, nd) by {
                    let t = w1.index_of(e);
                    if t < n0 {
                        assert(w0[t] == e);
                    }
                }
                assert forall|a: int, b: int| 0 <= a < b < w1.len() implies w1[a].0 != w1[b].0 by {
                    if b == n0 {
                        assert(w1[a].0 == w0[a].0);
                        assert(is_key(w0, w0[a].0));
                    } else {
                        assert(w1[a].0 == w0[a].0 && w1[b].0 == w0[b].0);
                    }
                }
                let i = choose|i: int| 0 <= i < preds@.len() && preds@[i] == (*target, *node);
                assert(preds@[i].0 == *target);
                assert(preds@.contains(preds@[i]));
                assert(!is_key(w0, *target)) by {
                    if is_key(w0, *target) {
                        let j = choose|j: int| 0 <= j < w0.len() && w0[j].0 == *target;
                    }
                }
            }
        },
    }
}

/// With distinct keys, the weight of a key is that of its entry.
proof fn lemma_wval<N>(weights: Seq<(N, i128)>, t: int)
    requires
        forall|a: int, b: int| 0 <= a < b < weights.len() ==> weights[a].0 != weights[b].0,
        0 <= t < weights.len(),
    ensures
        wval(weights, weights[t].0) == weights[t].1,
{
    let q = dist_index(weights, weights[t].0);
    assert(0 <= q < weights.len() && weights[q].0 == weights[t].0);
}

/// Relaxing the edge `u -> target` keeps the weights right.
proof fn lemma_dag_relax_ok<G: IWeightedGraph>(
    g: &G,
    origin: G::Node,
    order: Seq<G::Node>,
    j: int,
    w0: Seq<(G::Node, i128)>,
    p0: Seq<(G::Node, G::Node)>,
    w1: Seq<(G::Node, i128)>,
    p1: Seq<(G::Node, G::Node)>,
    u: G::Node,
    target: G::Node,
    w: i64,
    nd: i128,
)
    requires
        order.no_duplicates(),
        0 <= j < order.len(),
        order[j] == u,
        dag_ok(g, origin, order, j, j + 1, w0, p0),
        forall|a: int, b: int| 0 <= a < b < w0.len() ==> w0[a].0 != w0[b].0,
        forall|a: int, b: int| 0 <= a < b < w1.len() ==> w1[a].0 != w1[b].0,
        forall|a: int, b: int| 0 <= a < b < p1.len() ==> p1[a].0 != p1[b].0,
        is_key(w0, u),
        nd == wval(w0, u) + w,
        order.contains(target),
        j < order.index_of(target),
        target != origin,
        record_effect(w0, p0, w1, p1, target, nd, u),
        forall|e: (G::Node, G::Node)| #[trigger] p1.contains(e) ==> p0.contains(e) || e == (target, u),
        g.wadj_of(u).contains((target, w)),
    ensures
        dag_ok(g, origin, order, j, j + 1, w1, p1),
        dist_within(w1, target, wval(w0, u) + w),
        forall|y: G::Node, c: int| #[trigger] dist_within(w0, y, c) ==> dist_within(w1, y, c),
        wval(w1, u) == wval(w0, u),
{
    reveal(dag_ok);
    assert(forall|i: int| 0 <= i < p0.len() ==> is_key(w0, (#[trigger] p0[i]).0) && is_key(w0, p0[i].1));
    let ti = order.index_of(target);
    assert(order[ti] == target);
    assert(u != target) by {
        crate::table::lemma_index_of_unique(order, j);
    }
    if exists|k: int| 0 <= k < w0.len() && w0[k].0 == target && w0[k].1 <= nd && w1 == w0 && p1 == p0 {
        let k = choose|k: int| 0 <= k < w0.len() && w0[k].0 == target && w0[k].1 <= nd && w1 == w0 && p1 == p0;
        lemma_wval(w0, k);
        assert(dist_within(w1, target, wval(w0, u) + w)) by {
            assert(w1[k].0 == target && w1[k].1 <= nd);
        }
        assert forall|y: G::Node, c: int| #[trigger] dist_within(w0, y, c) implies dist_within(w1, y, c) by {}
        return;
    }
    // the entry of `target` now holds `nd`; every other entry is as it was
    let k = if is_key(w0, target) {
        choose|k: int| 0 <= k < w0.len() && w0[k].0 == target && nd < w0[k].1 && w1 == w0.update(k, (target, nd)) && p1.contains((target, u))
    } else {
        w0.len() as int
    };
    assert(p1.contains((target, u)));
    assert(w1[k] == (target, nd));
    assert forall|t: int| 0 <= t < w0.len() && t != k implies #[trigger] w1[t] == w0[t] by {}
    assert forall|v: G::Node| v != target && is_key(w0, v) implies #[trigger] wval(w1, v) == wval(w0, v) by {
        let t = choose|t: int| 0 <= t < w0.len() && w0[t].0 == v;
        lemma_wval(w0, t);
        assert(t != k);
        lemma_wval(w1, t);
    }
    lemma_wval(w1, k);
    assert(wval(w1, target) == nd);
    assert forall|q: int, y: G::Node, x: i64|
        0 <= q < j && is_key(w1, order[q]) && #[trigger] g.wadj_of(order[q]).contains((y, x)) implies dist_within(
            w1,
            y,
            wval(w1, order[q]) + x,
        ) by {
        assert(order[q] != target) by {
            crate::table::lemma_index_of_unique(order, q);
        }
        let t1 = choose|t: int| 0 <= t < w1.len() && w1[t].0 == order[q];
        assert(t1 != k);
        assert(w0[t1] == w1[t1]);
        assert(is_key(w0, order[q]));
        let t = choose|t: int| 0 <= t < w0.len() && w0[t].0 == y && w0[t].1 <= wval(w0, order[q]) + x;
        if t == k {
            assert(w1[k].0 == y && w1[k].1 <= wval(w1, order[q]) + x);
        } else {
            assert(w1[t] == w0[t]);
        }
    }
    assert forall|i: int|
        0 <= i < p1.len() implies order.subrange(0, j + 1).contains((#[trigger] p1[i]).1) && exists|x: i64|
            #[trigger] g.wadj_of(p1[i].1).contains((p1[i].0, x)) && wval(w1, p1[i].0) == wval(w1, p1[i].1) + x by {
        assert(p1.contains(p1[i]));
        if p1[i].0 == target {
            let b = p1.index_of((target, u));
            assert(p1[b] == (target, u));
            assert(p1[i] == (target, u));
            assert(order.subrange(0, j + 1)[j] == u);
            assert(wval(w1, u) == wval(w0, u));
            assert(g.wadj_of(p1[i].1).contains((p1[i].0, w)) && wval(w1, p1[i].0) == wval(w1, p1[i].1) + w);
        } else {
            assert(p0.contains(p1[i]));
            let i0 = p0.index_of(p1[i]);
            assert(p0[i0] == p1[i]);
            let x = choose|x: i64| #[trigger] g.wadj_of(p0[i0].1).contains((p0[i0].0, x)) && wval(w0, p0[i0].0) == wval(w0, p0[i0].1) + x;
            let src = p1[i].1;
            assert(order.subrange(0, j + 1).contains(src));
            let si = order.subrange(0, j + 1).index_of(src);
            assert(order[si] == src);
            assert(src != target) by {
                crate::table::lemma_index_of_unique(order, si);
            }
            assert(is_key(w0, p0[i0].0));
            assert(is_key(w0, src));
            assert(wval(w1, src) == wval(w0, src));
            assert(wval(w1, p1[i].0) == wval(w0, p1[i].0));
            assert(g.wadj_of(p1[i].1).contains((p1[i].0, x)) && wval(w1, p1[i].0) == wval(w1, p1[i].1) + x);
        }
    }
    assert forall|t: int| 0 <= t < w1.len() && (#[trigger] w1[t]).0 == origin implies w1[t].1 == 0 by {
        assert(t != k);
    }
    assert forall|x: G::Node| #[trigger] is_key(w0, x) implies is_key(w1, x) by {
        let t = choose|t: int| 0 <= t < w0.len() && w0[t].0 == x;
        if t != k {
            assert(w1[t].0 == x);
        } else {
            assert(w1[k].0 == x);
        }
    }
    assert(is_key(w1, target)) by {
        assert(w1[k].0 == target);
    }
    assert forall|i: int| 0 <= i < p1.len() implies is_key(w1, (#[trigger] p1[i]).0) && is_key(w1, p1[i].1) by {
        assert(p1.contains(p1[i]));
        if p1[i] != (target, u) {
            let i0 = p0.index_of(p1[i]);
            assert(p0[i0] == p1[i]);
        }
    }
    assert forall|y: G::Node, c: int| #[trigger] dist_within(w0, y, c) implies dist_within(w1, y, c) by {
        let t = choose|t: int| 0 <= t < w0.len() && w0[t].0 == y && w0[t].1 <= c;
        if t == k {
            assert(w1[k].0 == y && w1[k].1 <= c);
        } else {
            assert(w1[t] == w0[t]);
        }
    }
    assert(dist_within(w1, target, wval(w0, u) + w)) by {
        assert(w1[k].0 == target && w1[k].1 <= nd);
    }
}

proof fn lemma_dag_start<G: IWeightedGraph>(g: &G, origin: G::Node, order: Seq<G::Node>, j: int, weights: Seq<(G::Node, i128)>)
    requires
        order.no_duplicates(),
        0 <= j < order.len(),
        order[j] == origin,
        weights == seq![(origin, 0i128)],
    ensures
        dag_ok(g, origin, order, j, j + 1, weights, Seq::empty()),
        wval(weights, origin) == 0,
{
    reveal(dag_ok);
    lemma_wval(weights, 0);
    assert forall|q: int| 0 <= q < j implies !is_key(weights, #[trigger] order[q]) by {
        crate::table::lemma_index_of_unique(order, q);
        crate::table::lemma_index_of_unique(order, j);
        if is_key(weights, order[q]) {
            assert(weights[0].0 == order[q]);
        }
    }
}

/// Allowing predecessors from one more node keeps the state.
proof fn lemma_dag_widen<G: IWeightedGraph>(
    g: &G,
    origin: G::Node,
    order: Seq<G::Node>,
    c: int,
    m: int,
    weights: Seq<(G::Node, i128)>,
    preds: Seq<(G::Node, G::Node)>,
)
    requires
        dag_ok(g, origin, order, c, m, weights, preds),
        0 <= m < order.len(),
    ensures
        dag_ok(g, origin, order, c, m + 1, weights, preds),
{
    reveal(dag_ok);
    assert forall|i: int| 0 <= i < preds.len() implies order.subrange(0, m + 1).contains((#[trigger] preds[i]).1) by {
        let t = order.subrange(0, m).index_of(preds[i].1);
        assert(order.subrange(0, m + 1)[t] == preds[i].1);
    }
}

/// Passing over a node that was not reached keeps the state.
proof fn lemma_dag_skip<G: IWeightedGraph>(
    g: &G,
    origin: G::Node,
    order: Seq<G::Node>,
    j: int,
    weights: Seq<(G::Node, i128)>,
    preds: Seq<(G::Node, G::Node)>,
)
    requires
        dag_ok(g, origin, order, j, j, weights, preds),
        0 <= j < order.len(),
        !is_key(weights, order[j]),
    ensures
        dag_ok(g, origin, order, j + 1, j + 1, weights, preds),
{
    lemma_dag_widen(g, origin, order, j, j, weights, preds);
    reveal(dag_ok);
}

/// Once every edge of the node at `j` is relaxed, it counts as relaxed.
proof fn lemma_dag_close<G: IWeightedGraph>(
    g: &G,
    origin: G::Node,
    order: Seq<G::Node>,
    j: int,
    weights: Seq<(G::Node, i128)>,
    preds: Seq<(G::Node, G::Node)>,
    cur: int,
)
    requires
        dag_ok(g, origin, order, j, j + 1, weights, preds),
        0 <= j < order.len(),
        wval(weights, order[j]) == cur,
        forall|y: G::Node, w: i64| #[trigger] g.wadj_of(order[j]).contains((y, w)) ==> dist_within(weights, y, cur + w),
    ensures
        dag_ok(g, origin, order, j + 1, j + 1, weights, preds),
{
    reveal(dag_ok);
}

/// In a state where every reached node is relaxed, no weighted walk from
/// `origin` to a reached node weighs less than its recorded weight.
proof fn lemma_dag_lower<G: IWeightedGraph>(
    g: &G,
    origin: G::Node,
    order: Seq<G::Node>,
    weights: Seq<(G::Node, i128)>,
    preds: Seq<(G::Node, G::Node)>,
    q: Seq<G::Node>,
    vs: Seq<i64>,
)
    requires
        dag_ok(g, origin, order, order.len() as int, order.len() as int, weights, preds),
        forall|a: int, b: int| 0 <= a < b < weights.len() ==> weights[a].0 != weights[b].0,
        forall|n: G::Node| #[trigger] is_key(weights, n) ==> order.contains(n),
        is_key(weights, origin),
        is_weighted_walk(g, q, vs),
        q[0] == origin,
        forall|k: int| 0 <= k < q.len() ==> is_key(weights, #[trigger] q[k]),
    ensures
        weight_of(vs) >= wval(weights, q.last()),
    decreases q.len(),
{
    reveal(dag_ok);
    if vs.len() == 0 {
        let t = choose|t: int| 0 <= t < weights.len() && weights[t].0 == origin;
        lemma_wval(weights, t);
        assert(q.last() == q[0]);
    } else {
        lemma_walk_prefix(g, q, vs);
        let x = q[q.len() - 2];
        let v = q.last();
        assert(q.drop_last().last() == x);
        assert(q.drop_last()[0] == origin);
        assert forall|k: int| 0 <= k < q.drop_last().len() implies is_key(weights, #[trigger] q.drop_last()[k]) by {
            assert(q.drop_last()[k] == q[k]);
        }
        lemma_dag_lower(g, origin, order, weights, preds, q.drop_last(), vs.drop_last());
        assert(is_key(weights, x));
        let xi = order.index_of(x);
        assert(order[xi] == x);
        assert(g.wadj_of(order[xi]).contains((v, vs.last())));
        assert(dist_within(weights, v, wval(weights, x) + vs.last()));
        let t = choose|t: int| 0 <= t < weights.len() && weights[t].0 == v && weights[t].1 <= wval(weights, x) + vs.last();
        lemma_wval(weights, t);
    }
}

/// The weights along the predecessors add up to the recorded weight.
proof fn lemma_dag_chain<G: IWeightedGraph>(
    g: &G,
    origin: G::Node,
    order: Seq<G::Node>,
    weights: Seq<(G::Node, i128)>,
    preds: Seq<(G::Node, G::Node)>,
    p: Seq<G::Node>,
    k: int,
) -> (ws: Seq<i64>)
    requires
        dag_ok(g, origin, order, order.len() as int, order.len() as int, weights, preds),
        forall|a: int, b: int| 0 <= a < b < weights.len() ==> weights[a].0 != weights[b].0,
        is_key(weights, origin),
        p.len() > 0,
        p[0] == origin,
        forall|j: int| 0 <= j < p.len() - 1 ==> preds.contains((#[trigger] p[j + 1], p[j])),
        0 <= k < p.len(),
    ensures
        is_weighted_walk(g, p.subrange(0, k + 1), ws),
        weight_of(ws) == wval(weights, p[k]),
    decreases k,
{
    reveal(dag_ok);
    if k == 0 {
        let t = choose|t: int| 0 <= t < weights.len() && weights[t].0 == origin;
        lemma_wval(weights, t);
        assert(p.subrange(0, 1) =~= seq![origin]);
        Seq::<i64>::empty()
    } else {
        let ws0 = lemma_dag_chain(g, origin, order, weights, preds, p, k - 1);
        assert(preds.contains((p[k], p[k - 1])));
        let i = preds.index_of((p[k], p[k - 1]));
        assert(preds[i] == (p[k], p[k - 1]));
        let w = choose|w: i64| #[trigger] g.wadj_of(preds[i].1).contains((preds[i].0, w)) && wval(weights, preds[i].0) == wval(weights, preds[i].1) + w;
        assert(p.subrange(0, k).last() == p[k - 1]);
        lemma_walk_extend(g, p.subrange(0, k), ws0, p[k], w);
        assert(p.subrange(0, k).push(p[k]) =~= p.subrange(0, k + 1));
        ws0.push(w)
    }
}

/// One relaxation keeps the state: `target`, a node after `node` in
/// topological order, now has a weight and a predecessor.
proof fn lemma_relax_dag_step<G: IGraph>(
    g: &G,
    origin: G::Node,
    order: Seq<G::Node>,
    j: int,
    node: G::Node,
    w0: Seq<(G::Node, i128)>,
    p0: Seq<(G::Node, G::Node)>,
    w1: Seq<(G::Node, i128)>,
    p1: Seq<(G::Node, G::Node)>,
    target: G::Node,
    nd: i128,
)
    requires
        topo_order(g, order),
        0 <= j < order.len(),
        order[j] == node,
        dag_core(g, origin, order, j + 1, true, w0, p0),
        bounded(w0, j + 1),
        relaxed_upto(g, order, w0, j),
        is_key(w0, node),
        g.adj_of(node).contains(target),
        order.contains(target),
        j < order.index_of(target),
        target != origin,
        -((j + 1) * weight_bound()) <= nd <= (j + 1) * weight_bound(),
        forall|a: int, b: int| 0 <= a < b < w1.len() ==> w1[a].0 != w1[b].0,
        forall|a: int, b: int| 0 <= a < b < p1.len() ==> p1[a].0 != p1[b].0,
        forall|x: G::Node| #[trigger] is_key(w1, x) <==> is_key(w0, x) || x == target,
        forall|e: (G::Node, i128)| #[trigger] w1.contains(e) ==> w0.contains(e) || e == (target, nd),
        forall|e: (G::Node, G::Node)| #[trigger] p1.contains(e) ==> p0.contains(e) || e == (target, node),
        forall|e: (G::Node, G::Node)| e.0 != target ==> (#[trigger] p0.contains(e) ==> p1.contains(e)),
        forall|n: G::Node| #[trigger] is_key(p0, n) ==> is_key(p1, n),
        is_key(p1, target) || (is_key(w0, target) && p1 == p0),
    ensures
        dag_core(g, origin, order, j + 1, true, w1, p1),
        bounded(w1, j + 1),
        relaxed_upto(g, order, w1, j),
        is_key(w1, node),
{
    let r0 = keys_of(w0);
    let r1 = keys_of(w1);
    crate::dijkstras::lemma_keys_of_all(w0);
    crate::dijkstras::lemma_keys_of_all(w1);
    assert forall|q: int| 0 <= q < w1.len() implies -((j + 1) * weight_bound()) <= #[trigger] w1[q].1 <= (j + 1) * weight_bound() by {
        assert(w1.contains(w1[q]));
        if w0.contains(w1[q]) {
            let t = w0.index_of(w1[q]);
            assert(w0[t] == w1[q]);
        }
    }
    assert(prev_sound(g, p1, order, r1, origin)) by {
        assert forall|i: int|
            0 <= i < p1.len() implies g.adj_of((#[trigger] p1[i]).1).contains(p1[i].0) && order.contains(p1[i].1)
                && r1.contains(p1[i].1) && p1[i].0 != origin by {
            assert(p1.contains(p1[i]));
            if p1[i] != (target, node) {
                let t = p0.index_of(p1[i]);
                assert(p0[t] == p1[i]);
            }
        }
        assert forall|i: int|
            0 <= i < p1.len() && order.contains((#[trigger] p1[i]).0) implies order.index_of(p1[i].1) < order.index_of(
                p1[i].0,
            ) by {
            assert(p1.contains(p1[i]));
            if p1[i] != (target, node) {
                let t = p0.index_of(p1[i]);
                assert(p0[t] == p1[i]);
            } else {
                crate::table::lemma_index_of_unique(order, j);
            }
        }
        assert forall|n: G::Node| #[trigger] r1.contains(n) && n != origin implies exists|i: int|
            0 <= i < p1.len() && p1[i].0 == n by {
            if n == target {
                if !is_key(p1, target) {
                    assert(r0.contains(target));
                    let i = choose|i: int| 0 <= i < p0.len() && p0[i].0 == target;
                    assert(p1[i].0 == target);
                }
            } else {
                assert(r0.contains(n));
                let i = choose|i: int| 0 <= i < p0.len() && p0[i].0 == n;
                assert(p0.contains(p0[i]));
                assert(p1.contains(p0[i]));
                let t = p1.index_of(p0[i]);
                assert(p1[t].0 == n);
            }
        }
    }
    let oi = order.subrange(0, j + 1).index_of(origin);
    assert(order.subrange(0, j + 1)[oi] == origin);
    assert(order.subrange(0, j + 1).contains(origin));
}

proof fn lemma_reach_step<G: IGraph>(g: &G, u: G::Node, v: G::Node)
    requires
        reached_from_held(g, u),
        g.adj_of(u).contains(v),
    ensures
        reached_from_held(g, v),
{
    let h = choose|h: G::Node| g.holds(h) && reachable(g, h, u);
    let p = choose|p: Seq<G::Node>| is_path_between(g, p, h, u);
    let q = p.push(v);
    assert forall|i: int| 0 <= i < q.len() - 1 implies g.adj_of(#[trigger] q[i]).contains(q[i + 1]) by {
        if i < p.len() - 1 {
            assert(q[i] == p[i] && q[i + 1] == p[i + 1]);
        } else {
            assert(q[i] == u);
        }
    }
    assert(is_path_between(g, q, h, v));
}

/// A walk that starts at a reached node, where every edge from a reached
/// node ends at one, meets only reached nodes.
proof fn lemma_reached_walk<G: IGraph>(g: &G, weights: Seq<(G::Node, i128)>, p: Seq<G::Node>, k: int)
    requires
        forall|u: G::Node, v: G::Node| is_key(weights, u) && #[trigger] g.adj_of(u).contains(v) ==> is_key(weights, v),
        is_walk(g, p),
        p.len() > 0,
        is_key(weights, p[0]),
        0 <= k < p.len(),
    ensures
        is_key(weights, p[k]),
    decreases k,
{
    if k > 0 {
        lemma_reached_walk(g, weights, p, k - 1);
        assert(g.adj_of(p[k - 1]).contains(p[k]));
    }
}

/// Where the graph does not hold `origin`, the walk of `origin` alone is
/// the only one from it, and the shortest.
proof fn lemma_lone_origin<G: IWeightedGraph>(g: &G, origin: G::Node, p: Seq<G::Node>)
    requires
        g.wf(),
        !g.holds(origin),
        p == seq![origin],
    ensures
        is_shortest_path(g, p, origin, origin),
{
    g.lemma_span();
    g.lemma_weighted();
    let ws = Seq::<i64>::empty();
    assert forall|q: Seq<G::Node>, vs: Seq<i64>|
        #[trigger] is_weighted_walk(g, q, vs) && q[0] == origin && q.last() == origin implies weight_of(ws) <= weight_of(vs) by {
        if vs.len() > 0 {
            assert(g.wadj_of(q[0]).contains((q[1], vs[0])));
            assert(g.adj_of(origin).contains(q[1]));
        }
    }
    assert(is_shortest(g, p, ws, origin, origin));
}

/// The path read off the predecessors of a reached target is shortest.
proof fn lemma_dag_result<G: IWeightedGraph>(
    g: &G,
    origin: G::Node,
    target: G::Node,
    order: Seq<G::Node>,
    weights: Seq<(G::Node, i128)>,
    preds: Seq<(G::Node, G::Node)>,
    p: Seq<G::Node>,
)
    requires
        g.wf(),
        dag_ok(g, origin, order, order.len() as int, order.len() as int, weights, preds),
        forall|a: int, b: int| 0 <= a < b < weights.len() ==> weights[a].0 != weights[b].0,
        forall|n: G::Node| #[trigger] is_key(weights, n) ==> order.contains(n),
        forall|u: G::Node, v: G::Node| is_key(weights, u) && #[trigger] g.adj_of(u).contains(v) ==> is_key(weights, v),
        is_key(weights, origin),
        is_key(weights, target),
        is_path_between(g, p, origin, target),
        forall|k: int| 0 <= k < p.len() - 1 ==> preds.contains((#[trigger] p[k + 1], p[k])),
    ensures
        is_shortest_path(g, p, origin, target),
{
    g.lemma_weighted();
    let ws = lemma_dag_chain(g, origin, order, weights, preds, p, p.len() - 1);
    assert(p.subrange(0, p.len() as int) =~= p);
    assert forall|q: Seq<G::Node>, vs: Seq<i64>|
        #[trigger] is_weighted_walk(g, q, vs) && q[0] == origin && q.last() == target implies weight_of(ws) <= weight_of(vs) by {
        assert(crate::graph::is_walk(g, q)) by {
            assert forall|i: int| 0 <= i < q.len() - 1 implies g.adj_of(#[trigger] q[i]).contains(q[i + 1]) by {
                assert(g.wadj_of(q[i]).contains((q[i + 1], vs[i])));
            }
        }
        assert forall|k: int| 0 <= k < q.len() implies is_key(weights, #[trigger] q[k]) by {
            lemma_reached_walk(g, weights, q, k);
        }
        lemma_dag_lower(g, origin, order, weights, preds, q, vs);
    }
    assert(is_shortest(g, p, ws, origin, target));
}

/// A shortest path from `origin` to `target`, both included, on a graph
/// without cycles, or `None` where no walk leads from `origin` to `target`.
/// The graph must have no cycle.
pub fn dag<G: IDefiniteGraph + IWeightedGraph>(graph: G, origin: &G::Node, target: &G::Node) -> (r: Option<Vec<G::Node>>)
    requires
        graph.wf(),
        !has_cycle(&graph),
    ensures
        r is Some <==> reachable(&graph, *origin, *target),
        r matches Some(p) ==> is_path_between(&graph, p@, *origin, *target),
        r matches Some(p) ==> p@.no_duplicates(),
        r matches Some(p) ==> is_shortest_path(&graph, p@, *origin, *target),
{
    let (_, order, _) = search_all(&graph);
    proof {
        graph.lemma_span();
        assert forall|i: int, v: G::Node| 0 <= i < order@.len() && #[trigger] graph.adj_of(order@[i]).contains(v) implies order@.contains(v) by {
            assert(order@.contains(order@[i]));
            lemma_reach_step(&graph, order@[i], v);
        }
        assert(topo_order(&graph, order@));
        assert(!order@.subrange(0, 0).contains(*origin));
        assert(keys_of(Seq::<(G::Node, i128)>::empty()) =~= Seq::<G::Node>::empty());
    }
    let mut weights: Vec<(G::Node, i128)> = Vec::new();
    let mut preds: Vec<(G::Node, G::Node)> = Vec::new();
    let mut found = false;
    let mut j: usize = 0;
    proof {
        reveal(dag_ok);
    }
    while j < order.len()
        invariant
            dag_ok(&graph, *origin, order@, j as int, j as int, weights@, preds@),
            graph.wf(),
            topo_order(&graph, order@),
            forall|n: G::Node| #[trigger] order@.contains(n) <==> reached_from_held(&graph, n),
            dag_core(&graph, *origin, order@, j as int, found, weights@, preds@),
            bounded(weights@, j as int),
            relaxed_upto(&graph, order@, weights@, j as int),
            !found ==> forall|q: int| 0 <= q < j ==> order@[q] != *target,
        decreases order@.len() - j,
    {
        let node = &order[j];
        let ghost sub0 = order@.subrange(0, j as int);
        let ghost sub1 = order@.subrange(0, j + 1);
        proof {
            assert(sub1 == sub0.push(order@[j as int]));
            assert forall|x: G::Node| sub1.contains(x) <==> sub0.contains(x) || x == order@[j as int] by {
                if sub1.contains(x) {
                    let t = sub1.index_of(x);
                    if t < j {
                        assert(sub0[t] == x);
                    }
                }
                if sub0.contains(x) {
                    let t = sub0.index_of(x);
                    assert(sub1[t] == x);
                }
                if x == order@[j as int] {
                    assert(sub1[j as int] == x);
                }
            }
        }
        if node.same(origin) {
            proof {
                if found {
                    let t = sub0.index_of(*origin);
                    assert(order@[t] == *origin);
                    assert(t != j);
                }
                assert(!found);
            }
            weights.push((origin.duplicate(), 0));
            found = true;
            proof {
                let w = weights@;
                assert(w.len() == 1 && w[0] == (*origin, 0i128));
                assert forall|x: G::Node| #[trigger] is_key(w, x) <==> x == *origin by {
                    if x == *origin {
                        assert(w[0].0 == x);
                    }
                }
                assert(keys_of(w) =~= seq![*origin]);
                assert forall|q: int, v: G::Node|
                    0 <= q < j && is_key(w, order@[q]) && #[trigger] graph.adj_of(order@[q]).contains(v) implies is_key(w, v) by {
                    crate::table::lemma_index_of_unique(order@, q);
                    crate::table::lemma_index_of_unique(order@, j as int);
                }
                assert(order@.contains(*origin)) by {
                    assert(order@[j as int] == *origin);
                }
            }
            proof {
                assert(weights@ =~= seq![(*origin, 0i128)]);
                assert(preds@.len() == 0);
                assert(preds@ =~= Seq::<(G::Node, G::Node)>::empty());
                lemma_dag_start(&graph, *origin, order@, j as int, weights@);
            }
            relax_dag(&graph, origin, &order, j, node, 0, &mut weights, &mut preds);
        } else if found {
            match find_key(&weights, node) {
                Some(k) => {
                    let cur = weights[k].1;
                    proof {
                        assert(is_key(weights@, *node)) by {
                            assert(weights@[k as int].0 == *node);
                        }
                    }
                    proof {
                        lemma_dag_widen(&graph, *origin, order@, j as int, j as int, weights@, preds@);
                        lemma_wval(weights@, k as int);
                    }
                    relax_dag(&graph, origin, &order, j, node, cur, &mut weights, &mut preds);
                },
                None => {
                    proof {
                        assert forall|q: int| 0 <= q < weights@.len() implies -((j + 1) * weight_bound()) <= #[trigger] weights@[q].1 <= (j + 1) * weight_bound() by {
                        }
                        lemma_dag_skip(&graph, *origin, order@, j as int, weights@, preds@);
                    }
                },
            }
        } else if node.same(target) {
            proof {
                if reachable(&graph, *origin, *target) {
                    let p = choose|p: Seq<G::Node>| is_path_between(&graph, p, *origin, *target);
                    assert(p.len() >= 2);
                    graph.lemma_span();
                    assert(graph.adj_of(p[0]).contains(p[1]));
                    assert(graph.holds(*origin));
                    assert(is_path_between(&graph, seq![*origin], *origin, *origin));
                    assert(reached_from_held(&graph, *origin));
                    assert(order@.contains(*origin));
                    lemma_walk_ascends(&graph, order@, p, p.len() - 1);
                    crate::table::lemma_index_of_unique(order@, j as int);
                    let oi = order@.index_of(*origin);
                    if oi < j {
                        assert(sub0[oi] == *origin);
                    }
                }
            }
            return None;
        } else {
            proof {
                assert forall|q: int| 0 <= q < weights@.len() implies -((j + 1) * weight_bound()) <= #[trigger] weights@[q].1 <= (j + 1) * weight_bound() by {
                }
                lemma_dag_skip(&graph, *origin, order@, j as int, weights@, preds@);
            }
        }
        j += 1;
    }
    if !found {
        proof {
            assert(!order@.contains(*origin)) by {
                assert(order@.subrange(0, order@.len() as int) =~= order@);
            }
            assert(!graph.holds(*origin)) by {
                if graph.holds(*origin) {
                    assert(is_path_between(&graph, seq![*origin], *origin, *origin));
                }
            }
        }
        if origin.same(target) {
            let r = vec![origin.duplicate()];
            proof {
                assert(is_path_between(&graph, r@, *origin, *target));
                assert(r@ =~= seq![*origin]);
                lemma_lone_origin(&graph, *origin, r@);
            }
            return Some(r);
        }
        proof {
            graph.lemma_span();
            if reachable(&graph, *origin, *target) {
                let p = choose|p: Seq<G::Node>| is_path_between(&graph, p, *origin, *target);
                assert(graph.adj_of(p[0]).contains(p[1]));
            }
        }
        return None;
    }
    proof {
        assert forall|u: G::Node, v: G::Node| is_key(weights@, u) && #[trigger] graph.adj_of(u).contains(v) implies is_key(weights@, v) by {
            let q = order@.index_of(u);
            assert(order@[q] == u);
        }
    }
    let tk = find_key(&weights, target);
    if tk.is_none() {
        proof {
            if reachable(&graph, *origin, *target) {
                let p = choose|p: Seq<G::Node>| is_path_between(&graph, p, *origin, *target);
                lemma_reached_walk(&graph, weights@, p, p.len() - 1);
            }
        }
        return None;
    }
    proof {
        crate::dijkstras::lemma_keys_of_all(weights@);
        let k = tk.unwrap();
        assert(weights@[k as int].0 == *target);
        assert(is_key(weights@, *target));
        assert(order@.contains(*target));
    }
    let path = backtrack(&graph, &preds, origin, target, Ghost(order@), Ghost(keys_of(weights@)));
    proof {
        lemma_dag_result(&graph, *origin, *target, order@, weights@, preds@, path@);
    }
    Some(path)
}

} // verus!

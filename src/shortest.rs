//! Weighted walks and what makes one shortest.

use vstd::prelude::*;

use crate::graph::{IGraph, IWeightedGraph};

verus! {

/// The sum of `ws`.
pub open spec fn weight_of(ws: Seq<i64>) -> int
    decreases ws.len(),
{
    if ws.len() == 0 {
        0
    } else {
        weight_of(ws.drop_last()) + ws.last()
    }
}

/// `p` is a walk of `g` whose steps take edges of weights `ws`, in order.
pub open spec fn is_weighted_walk<G: IWeightedGraph>(g: &G, p: Seq<G::Node>, ws: Seq<i64>) -> bool {
    &&& p.len() == ws.len() + 1
    &&& forall|i: int| 0 <= i < ws.len() ==> g.wadj_of(#[trigger] p[i]).contains((p[i + 1], ws[i]))
}

/// No edge of `g` has a negative weight.
pub open spec fn nonneg_weights<G: IWeightedGraph>(g: &G) -> bool {
    forall|n: G::Node, m: G::Node, w: i64| #[trigger] g.wadj_of(n).contains((m, w)) ==> w >= 0
}

/// `p`, taking edges of weights `ws`, leads from `a` to `b`, and no weighted
/// walk from `a` to `b` weighs less.
pub open spec fn is_shortest<G: IWeightedGraph>(g: &G, p: Seq<G::Node>, ws: Seq<i64>, a: G::Node, b: G::Node) -> bool {
    &&& is_weighted_walk(g, p, ws)
    &&& p[0] == a
    &&& p.last() == b
    &&& forall|q: Seq<G::Node>, vs: Seq<i64>|
        #[trigger] is_weighted_walk(g, q, vs) && q[0] == a && q.last() == b ==> weight_of(ws) <= weight_of(vs)
}

/// Some choice of edge weights makes `p` a shortest walk from `a` to `b`.
pub open spec fn is_shortest_path<G: IWeightedGraph>(g: &G, p: Seq<G::Node>, a: G::Node, b: G::Node) -> bool {
    exists|ws: Seq<i64>| is_shortest(g, p, ws, a, b)
}

/// Dropping the last step of a weighted walk leaves a weighted walk.
pub proof fn lemma_walk_prefix<G: IWeightedGraph>(g: &G, p: Seq<G::Node>, ws: Seq<i64>)
    requires
        is_weighted_walk(g, p, ws),
        ws.len() > 0,
    ensures
        is_weighted_walk(g, p.drop_last(), ws.drop_last()),
        g.wadj_of(p[p.len() - 2]).contains((p.last(), ws.last())),
{
    assert forall|i: int| 0 <= i < ws.drop_last().len() implies g.wadj_of(#[trigger] p.drop_last()[i]).contains(
        (p.drop_last()[i + 1], ws.drop_last()[i]),
    ) by {
        assert(p.drop_last()[i] == p[i]);
        assert(p.drop_last()[i + 1] == p[i + 1]);
    }
    assert(g.wadj_of(p[ws.len() - 1]).contains((p[ws.len() as int], ws[ws.len() - 1])));
}

/// A weighted walk extended by one edge is a weighted walk.
pub proof fn lemma_walk_extend<G: IWeightedGraph>(g: &G, p: Seq<G::Node>, ws: Seq<i64>, v: G::Node, w: i64)
    requires
        is_weighted_walk(g, p, ws),
        g.wadj_of(p.last()).contains((v, w)),
    ensures
        is_weighted_walk(g, p.push(v), ws.push(w)),
        weight_of(ws.push(w)) == weight_of(ws) + w,
{
    let q = p.push(v);
    let vs = ws.push(w);
    assert forall|i: int| 0 <= i < vs.len() implies g.wadj_of(#[trigger] q[i]).contains((q[i + 1], vs[i])) by {
        if i < ws.len() {
            assert(q[i] == p[i] && q[i + 1] == p[i + 1] && vs[i] == ws[i]);
        } else {
            assert(q[i] == p.last());
        }
    }
    assert(vs.drop_last() == ws);
}

/// Shortest paths agree on weight. `dijkstras` (on a graph without negative
/// weights) and `dag` (on a graph without cycles) both return shortest
/// paths, and both return one exactly when the target is reachable; so on an
/// acyclic graph without negative weights they agree on reachability, and
/// the paths they return weigh the same.
pub proof fn lemma_shortest_paths_agree<G: IWeightedGraph>(
    g: &G,
    origin: G::Node,
    target: G::Node,
    p: Seq<G::Node>,
    ws: Seq<i64>,
    q: Seq<G::Node>,
    vs: Seq<i64>,
)
    requires
        is_shortest(g, p, ws, origin, target),
        is_shortest(g, q, vs, origin, target),
    ensures
        weight_of(ws) == weight_of(vs),
{
    assert(is_weighted_walk(g, q, vs));
    assert(is_weighted_walk(g, p, ws));
}

} // verus!

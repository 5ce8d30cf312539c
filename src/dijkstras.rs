//! Dijkstra's single-source shortest path.

use vstd::prelude::*;

use crate::bfs::is_key;
use crate::graph::{IGraph, IWeightedGraph, is_path_between, is_walk, reachable};
use crate::paths::{backtrack, prev_sound};
use crate::shortest::{is_shortest, is_shortest_path, is_weighted_walk, lemma_walk_extend, lemma_walk_prefix, nonneg_weights, weight_of};
use crate::vertex::{Vertex, find_in, find_key};

verus! {

/// The largest magnitude of an edge weight.
pub open spec fn weight_bound() -> int {
    0x8000_0000_0000_0000
}

/// The nodes that `s` maps.
pub open spec fn keys_of<N, V>(s: Seq<(N, V)>) -> Seq<N> {
    s.map_values(|e: (N, V)| e.0)
}

/// The index of an entry of `dist` with the least distance, if any.
pub(crate) fn find_min<N>(dist: &Vec<(N, i128)>) -> (r: Option<usize>)
    ensures
        r is None <==> dist@.len() == 0,
        r matches Some(i) ==> i < dist@.len() && forall|j: int| 0 <= j < dist@.len() ==> dist@[i as int].1 <= dist@[j].1,
{
    if dist.len() == 0 {
        return None;
    }
    let mut best: usize = 0;
    let mut i: usize = 1;
    while i < dist.len()
        invariant
            dist@.len() > 0,
            best < dist@.len(),
            1 <= i <= dist@.len(),
            forall|j: int| 0 <= j < i ==> dist@[best as int].1 <= dist@[j].1,
        decreases dist@.len() - i,
    {
        if dist[i].1 < dist[best].1 {
            best = i;
        }
        i += 1;
    }
    Some(best)
}

/// Records `u` as the predecessor of `v`.
pub(crate) fn set_prev<N: Vertex>(prev: &mut Vec<(N, N)>, v: N, u: N)
    requires
        forall|i: int, j: int| 0 <= i < j < old(prev)@.len() ==> old(prev)@[i].0 != old(prev)@[j].0,
    ensures
        forall|i: int, j: int| 0 <= i < j < final(prev)@.len() ==> final(prev)@[i].0 != final(prev)@[j].0,
        exists|i: int| 0 <= i < final(prev)@.len() && final(prev)@[i] == (v, u),
        forall|e: (N, N)| e.0 != v ==> (final(prev)@.contains(e) <==> old(prev)@.contains(e)),
        forall|e: (N, N)| #[trigger] final(prev)@.contains(e) ==> e.0 == v || old(prev)@.contains(e),
        forall|n: N| #[trigger] is_key(old(prev)@, n) ==> is_key(final(prev)@, n),
{
    let ghost p0 = prev@;
    match find_key(prev, &v) {
        Some(k) => {
            prev.set(k, (v, u));
            proof {
                let p1 = prev@;
                assert(p1[k as int] == (v, u));
                assert forall|e: (N, N)| e.0 != v implies (p1.contains(e) <==> p0.contains(e)) by {
                    if p1.contains(e) {
                        let t = p1.index_of(e);
                        assert(p0[t] == e);
                    }
                    if p0.contains(e) {
                        let t = p0.index_of(e);
                        assert(t != k);
                        assert(p1[t] == e);
                    }
                }
                assert forall|e: (N, N)| #[trigger] p1.contains(e) implies e.0 == v || p0.contains(e) by {
                    let t = p1.index_of(e);
                    if t != k {
                        assert(p0[t] == e);
                    }
                }
                assert forall|n: N| #[trigger] is_key(p0, n) implies is_key(p1, n) by {
                    let i = choose|i: int| 0 <= i < p0.len() && p0[i].0 == n;
                    assert(p1[i].0 == n);
                }
            }
        },
        None => {
            prev.push((v, u));
            proof {
                let p1 = prev@;
                assert(p1[p0.len() as int] == (v, u));
                assert forall|e: (N, N)| e.0 != v implies (p1.contains(e) <==> p0.contains(e)) by {
                    if p1.contains(e) {
                        let t = p1.index_of(e);
                        assert(p0[t] == e);
                    }
                    if p0.contains(e) {
                        let t = p0.index_of(e);
                        assert(p1[t] == e);
                    }
                }
                assert forall|e: (N, N)| #[trigger] p1.contains(e) implies e.0 == v || p0.contains(e) by {
                    let t = p1.index_of(e);
                    if t < p0.len() {
                        assert(p0[t] == e);
                    }
                }
                assert forall|n: N| #[trigger] is_key(p0, n) implies is_key(p1, n) by {
                    let i = choose|i: int| 0 <= i < p0.len() && p0[i].0 == n;
                    assert(p1[i].0 == n);
                }
            }
        },
    }
}

proof fn lemma_keys_of<N, V>(s: Seq<(N, V)>, n: N)
    ensures
        keys_of(s).contains(n) <==> is_key(s, n),
{
    if keys_of(s).contains(n) {
        let t = keys_of(s).index_of(n);
        assert(s[t].0 == n);
    }
    if is_key(s, n) {
        let i = choose|i: int| 0 <= i < s.len() && s[i].0 == n;
        assert(keys_of(s)[i] == n);
    }
}

pub proof fn lemma_keys_of_all<N, V>(s: Seq<(N, V)>)
    ensures
        forall|n: N| #[trigger] keys_of(s).contains(n) <==> is_key(s, n),
{
    assert forall|n: N| #[trigger] keys_of(s).contains(n) <==> is_key(s, n) by {
        lemma_keys_of(s, n);
    }
}

/// `dist` gives `y` a tentative distance of at most `c`.
pub open spec fn dist_within<N>(dist: Seq<(N, i128)>, y: N, c: int) -> bool {
    exists|t: int| 0 <= t < dist.len() && dist[t].0 == y && dist[t].1 <= c
}

/// The position of `v` among the tentative distances.
pub open spec fn dist_index<N>(dist: Seq<(N, i128)>, v: N) -> int {
    choose|q: int| 0 <= q < dist.len() && dist[q].0 == v
}

/// The distance recorded for `v`: final where it is finalized, else
/// tentative.
pub open spec fn val_of<N>(known: Seq<N>, dist: Seq<(N, i128)>, fin: Map<N, int>, v: N) -> int {
    if known.contains(v) {
        fin[v]
    } else {
        dist[dist_index(dist, v)].1 as int
    }
}

/// What makes the distances right, on a graph without negative weights:
/// `fin` holds the final distance of each finalized node, which no weighted
/// walk from `origin` undercuts; each predecessor record is an edge that
/// yields the distance recorded; every edge leaving a finalized node (but
/// `pending`, whose edges are being relaxed) has been relaxed; and no
/// tentative distance is below a final one.
#[verifier::opaque]
pub open spec fn dist_ok<G: IWeightedGraph>(
    g: &G,
    origin: G::Node,
    known: Seq<G::Node>,
    dist: Seq<(G::Node, i128)>,
    prev: Seq<(G::Node, G::Node)>,
    fin: Map<G::Node, int>,
    pending: Option<G::Node>,
) -> bool {
    &&& forall|n: G::Node| #[trigger] fin.dom().contains(n) <==> known.contains(n)
    &&& forall|q: int| 0 <= q < dist.len() && (#[trigger] dist[q]).0 == origin ==> dist[q].1 == 0
    &&& known.contains(origin) ==> fin[origin] == 0
    &&& forall|i: int| 0 <= i < prev.len() ==> known.contains((#[trigger] prev[i]).0) || is_key(dist, prev[i].0)
    &&& forall|i: int|
        0 <= i < prev.len() ==> known.contains((#[trigger] prev[i]).1) && exists|w: i64|
            #[trigger] g.wadj_of(prev[i].1).contains((prev[i].0, w)) && val_of(known, dist, fin, prev[i].0) == fin[prev[i].1] + w
    &&& forall|q: Seq<G::Node>, vs: Seq<i64>|
        #[trigger] is_weighted_walk(g, q, vs) && q[0] == origin && known.contains(q.last()) ==> weight_of(vs) >= fin[q.last()]
    &&& forall|x: G::Node, y: G::Node, w: i64|
        known.contains(x) && Some(x) != pending && #[trigger] g.wadj_of(x).contains((y, w)) && !known.contains(y) ==> exists|t: int|
            0 <= t < dist.len() && dist[t].0 == y && dist[t].1 <= fin[x] + w
    &&& forall|x: G::Node, t: int| #![trigger fin[x], dist[t]] known.contains(x) && 0 <= t < dist.len() ==> fin[x] <= dist[t].1
    &&& pending matches Some(u) ==> known.contains(u) && forall|x: G::Node| #[trigger] known.contains(x) ==> fin[x] <= fin[u]
}

/// Every weighted walk from `origin` to a node not finalized weighs at
/// least the least tentative distance `dmin`.
proof fn lemma_exit_bound<G: IWeightedGraph>(
    g: &G,
    origin: G::Node,
    known: Seq<G::Node>,
    dist: Seq<(G::Node, i128)>,
    prev: Seq<(G::Node, G::Node)>,
    fin: Map<G::Node, int>,
    q: Seq<G::Node>,
    vs: Seq<i64>,
    dmin: int,
)
    requires
        nonneg_weights(g),
        dist_ok(g, origin, known, dist, prev, fin, None),
        known.contains(origin),
        is_weighted_walk(g, q, vs),
        q[0] == origin,
        !known.contains(q.last()),
        forall|t: int| 0 <= t < dist.len() ==> dmin <= #[trigger] dist[t].1,
    ensures
        weight_of(vs) >= dmin,
    decreases q.len(),
{
    reveal(dist_ok);
    if vs.len() == 0 {
        assert(q.last() == q[0]);
    } else {
        lemma_walk_prefix(g, q, vs);
        let x = q[q.len() - 2];
        let w = vs.last();
        assert(q.drop_last().last() == x);
        assert(q.drop_last()[0] == origin);
        if known.contains(x) {
            assert(is_weighted_walk(g, q.drop_last(), vs.drop_last()));
            assert(weight_of(vs.drop_last()) >= fin[x]);
            assert(g.wadj_of(x).contains((q.last(), w)));
            let t = choose|t: int| 0 <= t < dist.len() && dist[t].0 == q.last() && dist[t].1 <= fin[x] + w;
            assert(dmin <= dist[t].1);
        } else {
            lemma_exit_bound(g, origin, known, dist, prev, fin, q.drop_last(), vs.drop_last(), dmin);
            assert(w >= 0);
        }
    }
}

/// The weights along a chain of predecessors add up to the final distance
/// of its last node.
proof fn lemma_chain_weights<G: IWeightedGraph>(
    g: &G,
    origin: G::Node,
    known: Seq<G::Node>,
    dist: Seq<(G::Node, i128)>,
    prev: Seq<(G::Node, G::Node)>,
    fin: Map<G::Node, int>,
    p: Seq<G::Node>,
    k: int,
) -> (ws: Seq<i64>)
    requires
        dist_ok(g, origin, known, dist, prev, fin, None),
        known.contains(origin),
        p.len() > 0,
        p[0] == origin,
        forall|j: int| 0 <= j < p.len() ==> known.contains(#[trigger] p[j]),
        forall|j: int| 0 <= j < p.len() - 1 ==> prev.contains((#[trigger] p[j + 1], p[j])),
        0 <= k < p.len(),
    ensures
        is_weighted_walk(g, p.subrange(0, k + 1), ws),
        weight_of(ws) == fin[p[k]],
    decreases k,
{
    reveal(dist_ok);
    if k == 0 {
        let ws = Seq::<i64>::empty();
        assert(p.subrange(0, 1) =~= seq![origin]);
        ws
    } else {
        let ws0 = lemma_chain_weights(g, origin, known, dist, prev, fin, p, k - 1);
        assert(prev.contains((p[k], p[k - 1])));
        let i = prev.index_of((p[k], p[k - 1]));
        assert(prev[i] == (p[k], p[k - 1]));
        let w = choose|w: i64| #[trigger] g.wadj_of(prev[i].1).contains((prev[i].0, w)) && val_of(known, dist, fin, prev[i].0) == fin[prev[i].1] + w;
        assert(known.contains(p[k]));
        assert(p.subrange(0, k).last() == p[k - 1]);
        lemma_walk_extend(g, p.subrange(0, k), ws0, p[k], w);
        assert(p.subrange(0, k).push(p[k]) =~= p.subrange(0, k + 1));
        ws0.push(w)
    }
}

/// A weighted walk on a graph without negative weights weighs at least 0.
proof fn lemma_weight_nonneg<G: IWeightedGraph>(g: &G, q: Seq<G::Node>, vs: Seq<i64>)
    requires
        nonneg_weights(g),
        is_weighted_walk(g, q, vs),
    ensures
        weight_of(vs) >= 0,
    decreases vs.len(),
{
    if vs.len() > 0 {
        lemma_walk_prefix(g, q, vs);
        lemma_weight_nonneg(g, q.drop_last(), vs.drop_last());
    }
}

/// With distinct keys, `dist_index` finds the one entry of a key.
proof fn lemma_dist_index<N>(dist: Seq<(N, i128)>, t: int)
    requires
        forall|a: int, b: int| 0 <= a < b < dist.len() ==> dist[a].0 != dist[b].0,
        0 <= t < dist.len(),
    ensures
        dist_index(dist, dist[t].0) == t,
{
    let q = dist_index(dist, dist[t].0);
    assert(0 <= q < dist.len() && dist[q].0 == dist[t].0);
}

proof fn lemma_take_ok<G: IWeightedGraph>(
    g: &G,
    origin: G::Node,
    k0: Seq<G::Node>,
    d0: Seq<(G::Node, i128)>,
    prev: Seq<(G::Node, G::Node)>,
    fin0: Map<G::Node, int>,
    i: int,
)
    requires
        nonneg_weights(g),
        dist_ok(g, origin, k0, d0, prev, fin0, None),
        forall|a: int, b: int| 0 <= a < b < d0.len() ==> d0[a].0 != d0[b].0,
        forall|n: G::Node| !(k0.contains(n) && #[trigger] is_key(d0, n)),
        0 <= i < d0.len(),
        forall|j: int| 0 <= j < d0.len() ==> d0[i].1 <= d0[j].1,
        k0.len() == 0 ==> d0[i].0 == origin,
        k0.len() > 0 ==> k0[0] == origin,
    ensures
        dist_ok(g, origin, k0.push(d0[i].0), d0.remove(i), prev, fin0.insert(d0[i].0, d0[i].1 as int), Some(d0[i].0)),
{
    reveal(dist_ok);
    let node = d0[i].0;
    let d = d0[i].1 as int;
    let k1 = k0.push(node);
    let d1 = d0.remove(i);
    let fin1 = fin0.insert(node, d);
    assert(is_key(d0, node));
    assert(!k0.contains(node));
    assert forall|n: G::Node| #[trigger] k1.contains(n) <==> k0.contains(n) || n == node by {
        if k1.contains(n) && n != node {
            let t = k1.index_of(n);
            assert(k0[t] == n);
        }
        if k0.contains(n) {
            let t = k0.index_of(n);
            assert(k1[t] == n);
        }
        if n == node {
            assert(k1[k0.len() as int] == node);
        }
    }
    assert forall|a: int, b: int| 0 <= a < b < d1.len() implies d1[a].0 != d1[b].0 by {
        assert(d1[a] == d0[if a < i { a } else { a + 1 }]);
        assert(d1[b] == d0[if b < i { b } else { b + 1 }]);
    }
    assert forall|x: G::Node| #[trigger] is_key(d1, x) <==> is_key(d0, x) && x != node by {
        if is_key(d1, x) {
            let t1 = choose|t1: int| 0 <= t1 < d1.len() && d1[t1].0 == x;
            let t0 = if t1 < i { t1 } else { t1 + 1 };
            assert(d0[t0].0 == x);
        }
        if is_key(d0, x) && x != node {
            let t0 = choose|t0: int| 0 <= t0 < d0.len() && d0[t0].0 == x;
            assert(t0 != i);
            let t1 = if t0 < i { t0 } else { t0 - 1 };
            assert(d1[t1].0 == x);
        }
    }
    // values of nodes still tentative stay the same
    assert forall|v: G::Node| #[trigger] val_of(k1, d1, fin1, v) == val_of(k0, d0, fin0, v) || !(k0.contains(v) || is_key(d0, v)) by {
        if v == node {
            lemma_dist_index(d0, i);
        } else if k0.contains(v) {
        } else if is_key(d0, v) {
            let t0 = choose|t0: int| 0 <= t0 < d0.len() && d0[t0].0 == v;
            lemma_dist_index(d0, t0);
            let t1 = if t0 < i { t0 } else { t0 - 1 };
            assert(d1[t1] == d0[t0]);
            lemma_dist_index(d1, t1);
        }
    }
    assert forall|j: int| 0 <= j < prev.len() implies k1.contains((#[trigger] prev[j]).0) || is_key(d1, prev[j].0) by {}
    assert forall|j: int|
        0 <= j < prev.len() implies k1.contains((#[trigger] prev[j]).1) && exists|w: i64|
            #[trigger] g.wadj_of(prev[j].1).contains((prev[j].0, w)) && val_of(k1, d1, fin1, prev[j].0) == fin1[prev[j].1] + w by {
        let w = choose|w: i64| #[trigger] g.wadj_of(prev[j].1).contains((prev[j].0, w)) && val_of(k0, d0, fin0, prev[j].0) == fin0[prev[j].1] + w;
        assert(prev[j].1 != node);
        assert(val_of(k1, d1, fin1, prev[j].0) == val_of(k0, d0, fin0, prev[j].0));
    }
    assert forall|q: Seq<G::Node>, vs: Seq<i64>|
        #[trigger] is_weighted_walk(g, q, vs) && q[0] == origin && k1.contains(q.last()) implies weight_of(vs) >= fin1[q.last()] by {
        if q.last() == node {
            if k0.len() == 0 {
                lemma_weight_nonneg(g, q, vs);
                assert(d0[i].0 == origin);
            } else {
                assert(k0.contains(origin)) by {
                    assert(k0[0] == origin);
                }
                assert forall|t: int| 0 <= t < d0.len() implies d <= #[trigger] d0[t].1 by {}
                lemma_exit_bound(g, origin, k0, d0, prev, fin0, q, vs, d);
            }
        }
    }
    assert forall|x: G::Node, y: G::Node, w: i64|
        k1.contains(x) && Some(x) != Some(node) && #[trigger] g.wadj_of(x).contains((y, w)) && !k1.contains(y) implies exists|t: int|
            0 <= t < d1.len() && d1[t].0 == y && d1[t].1 <= fin1[x] + w by {
        assert(k0.contains(x));
        let t0 = choose|t: int| 0 <= t < d0.len() && d0[t].0 == y && d0[t].1 <= fin0[x] + w;
        assert(t0 != i);
        let t1 = if t0 < i { t0 } else { t0 - 1 };
        assert(d1[t1] == d0[t0]);
    }
    assert forall|x: G::Node, t: int| #![trigger fin1[x], d1[t]] k1.contains(x) && 0 <= t < d1.len() implies fin1[x] <= d1[t].1 by {
        let t0 = if t < i { t } else { t + 1 };
        assert(d1[t] == d0[t0]);
        if x != node {
            assert(fin0[x] <= d0[t0].1);
        }
    }
    assert forall|x: G::Node| #[trigger] k1.contains(x) implies fin1[x] <= fin1[node] by {
        if x != node {
            assert(fin0[x] <= d0[i].1);
        }
    }
    if k0.contains(origin) {
        assert(origin != node);
    } else {
        assert(k0.len() == 0) by {
            if k0.len() > 0 {
                assert(k0[0] == origin);
            }
        }
    }
    assert forall|q: int| 0 <= q < d1.len() && (#[trigger] d1[q]).0 == origin implies d1[q].1 == 0 by {
        assert(d1[q] == d0[if q < i { q } else { q + 1 }]);
    }
    assert(dist_ok(g, origin, k1, d1, prev, fin1, Some(node)));
}

/// Relaxing the edge `u -> target` of weight `w` keeps the distances
/// right. `k` is the entry of `target` that changed, or the end of `d0`
/// where `target` is new; `is_set` tells whether anything changed.
proof fn lemma_relax_ok<G: IWeightedGraph>(
    g: &G,
    origin: G::Node,
    known: Seq<G::Node>,
    d0: Seq<(G::Node, i128)>,
    p0: Seq<(G::Node, G::Node)>,
    d1: Seq<(G::Node, i128)>,
    p1: Seq<(G::Node, G::Node)>,
    fin: Map<G::Node, int>,
    u: G::Node,
    target: G::Node,
    w: i64,
    nd: i128,
    k: int,
    is_set: bool,
)
    requires
        nonneg_weights(g),
        dist_ok(g, origin, known, d0, p0, fin, Some(u)),
        forall|a: int, b: int| 0 <= a < b < d0.len() ==> d0[a].0 != d0[b].0,
        forall|a: int, b: int| 0 <= a < b < d1.len() ==> d1[a].0 != d1[b].0,
        forall|a: int, b: int| 0 <= a < b < p1.len() ==> p1[a].0 != p1[b].0,
        known.contains(u),
        g.wadj_of(u).contains((target, w)),
        !known.contains(target),
        target != origin,
        nd == fin[u] + w,
        0 <= k <= d0.len(),
        k < d0.len() ==> d0[k].0 == target,
        k == d0.len() ==> !is_key(d0, target),
        is_set ==> d1 == if k < d0.len() { d0.update(k, (target, nd)) } else { d0.push((target, nd)) },
        is_set ==> k == d0.len() || nd < d0[k].1,
        !is_set ==> k < d0.len() && d0[k].1 <= nd && d1 == d0 && p1 == p0,
        is_set ==> p1.contains((target, u)),
        is_set ==> forall|e: (G::Node, G::Node)| e.0 != target ==> (#[trigger] p1.contains(e) <==> p0.contains(e)),
    ensures
        dist_ok(g, origin, known, d1, p1, fin, Some(u)),
        exists|t: int| 0 <= t < d1.len() && d1[t].0 == target && d1[t].1 <= fin[u] + w,
        forall|y: G::Node, c: int| #[trigger] dist_within(d0, y, c) ==> dist_within(d1, y, c),
{
    reveal(dist_ok);
    if !is_set {
        assert(d1[k].0 == target && d1[k].1 <= fin[u] + w);
        assert forall|y: G::Node, c: int| #[trigger] dist_within(d0, y, c) implies dist_within(d1, y, c) by {}
        return;
    }
    assert(w >= 0);
    assert forall|t: int| 0 <= t < d0.len() && t != k implies #[trigger] d1[t] == d0[t] by {}
    assert(d1[k] == (target, nd));
    assert forall|x: G::Node| x != target implies (#[trigger] is_key(d1, x) <==> is_key(d0, x)) by {
        if is_key(d1, x) {
            let t = choose|t: int| 0 <= t < d1.len() && d1[t].0 == x;
            assert(t != k);
            assert(d0[t].0 == x);
        }
        if is_key(d0, x) {
            let t = choose|t: int| 0 <= t < d0.len() && d0[t].0 == x;
            assert(t != k);
            assert(d1[t].0 == x);
        }
    }
    assert(is_key(d1, target));
    assert forall|v: G::Node| v != target && (known.contains(v) || is_key(d0, v)) implies #[trigger] val_of(known, d1, fin, v) == val_of(known, d0, fin, v) by {
        if !known.contains(v) {
            let t = choose|t: int| 0 <= t < d0.len() && d0[t].0 == v;
            lemma_dist_index(d0, t);
            assert(t != k);
            lemma_dist_index(d1, t);
        }
    }
    lemma_dist_index(d1, k);
    assert(val_of(known, d1, fin, target) == nd);
    assert forall|e: (G::Node, G::Node)| #[trigger] p1.contains(e) && e.0 == target implies e == (target, u) by {
        let a = p1.index_of(e);
        let b = p1.index_of((target, u));
        if a != b {
            if a < b {
            } else {
            }
        }
    }
    assert forall|j: int| 0 <= j < p1.len() implies known.contains((#[trigger] p1[j]).0) || is_key(d1, p1[j].0) by {
        assert(p1.contains(p1[j]));
        if p1[j].0 != target {
            let j0 = p0.index_of(p1[j]);
            assert(p0[j0] == p1[j]);
        }
    }
    assert forall|j: int|
        0 <= j < p1.len() implies known.contains((#[trigger] p1[j]).1) && exists|x: i64|
            #[trigger] g.wadj_of(p1[j].1).contains((p1[j].0, x)) && val_of(known, d1, fin, p1[j].0) == fin[p1[j].1] + x by {
        assert(p1.contains(p1[j]));
        if p1[j].0 == target {
            assert(p1[j] == (target, u));
            assert(g.wadj_of(p1[j].1).contains((p1[j].0, w)) && val_of(known, d1, fin, p1[j].0) == fin[p1[j].1] + w);
        } else {
            let j0 = p0.index_of(p1[j]);
            assert(p0[j0] == p1[j]);
            let x = choose|x: i64| #[trigger] g.wadj_of(p0[j0].1).contains((p0[j0].0, x)) && val_of(known, d0, fin, p0[j0].0) == fin[p0[j0].1] + x;
            assert(known.contains(p0[j0].0) || is_key(d0, p0[j0].0));
            assert(val_of(known, d1, fin, p1[j].0) == val_of(known, d0, fin, p1[j].0));
            assert(g.wadj_of(p1[j].1).contains((p1[j].0, x)) && val_of(known, d1, fin, p1[j].0) == fin[p1[j].1] + x);
        }
    }
    assert forall|x: G::Node, y: G::Node, x_w: i64|
        known.contains(x) && Some(x) != Some(u) && #[trigger] g.wadj_of(x).contains((y, x_w)) && !known.contains(y) implies exists|t: int|
            0 <= t < d1.len() && d1[t].0 == y && d1[t].1 <= fin[x] + x_w by {
        let t = choose|t: int| 0 <= t < d0.len() && d0[t].0 == y && d0[t].1 <= fin[x] + x_w;
        if t == k {
            assert(d1[k].1 == nd);
        } else {
            assert(d1[t] == d0[t]);
        }
    }
    assert forall|x: G::Node, t: int| #![trigger fin[x], d1[t]] known.contains(x) && 0 <= t < d1.len() implies fin[x] <= d1[t].1 by {
        if t == k {
            assert(fin[x] <= fin[u]);
        } else {
            assert(d1[t] == d0[t]);
        }
    }
    assert forall|q: int| 0 <= q < d1.len() && (#[trigger] d1[q]).0 == origin implies d1[q].1 == 0 by {
        assert(q != k);
        assert(d1[q] == d0[q]);
    }
    assert forall|y: G::Node, c: int| #[trigger] dist_within(d0, y, c) implies dist_within(d1, y, c) by {
        let t = choose|t: int| 0 <= t < d0.len() && d0[t].0 == y && d0[t].1 <= c;
        if t == k {
            assert(d1[k].0 == y && d1[k].1 <= c);
        } else {
            assert(d1[t] == d0[t]);
        }
    }
    assert(d1[k].0 == target && d1[k].1 <= fin[u] + w);
}

/// Once every edge of `u` is relaxed, nothing is pending.
proof fn lemma_relax_done<G: IWeightedGraph>(
    g: &G,
    origin: G::Node,
    known: Seq<G::Node>,
    dist: Seq<(G::Node, i128)>,
    prev: Seq<(G::Node, G::Node)>,
    fin: Map<G::Node, int>,
    u: G::Node,
)
    requires
        dist_ok(g, origin, known, dist, prev, fin, Some(u)),
        forall|y: G::Node, w: i64| #[trigger] g.wadj_of(u).contains((y, w)) && !known.contains(y) ==> exists|t: int|
            0 <= t < dist.len() && dist[t].0 == y && dist[t].1 <= fin[u] + w,
    ensures
        dist_ok(g, origin, known, dist, prev, fin, None),
{
    reveal(dist_ok);
}

/// Whether `n` is finalized or has a tentative distance.
pub open spec fn discovered<N>(known: Seq<N>, dist: Seq<(N, i128)>, n: N) -> bool {
    known.contains(n) || is_key(dist, n)
}

/// What holds between steps: `known` lists the finalized nodes in the order
/// they were finalized, `dist` the tentative distances of the others found so
/// far, `prev` the predecessor of every node found but `origin`.
pub open spec fn search_state<G: IGraph>(
    g: &G,
    origin: G::Node,
    known: Seq<G::Node>,
    dist: Seq<(G::Node, i128)>,
    prev: Seq<(G::Node, G::Node)>,
) -> bool {
    &&& known.no_duplicates()
    &&& forall|i: int, j: int| 0 <= i < j < dist.len() ==> dist[i].0 != dist[j].0
    &&& forall|n: G::Node| !(known.contains(n) && #[trigger] is_key(dist, n))
    &&& known.len() > 0 ==> known[0] == origin
    &&& discovered(known, dist, origin)
    &&& prev_sound(g, prev, known, known + keys_of(dist), origin)
    &&& forall|n: G::Node| #[trigger] discovered(known, dist, n) ==> n == origin || g.span().contains(n)
    &&& forall|i: int| 0 <= i < dist.len() ==> -(known.len() * weight_bound()) <= #[trigger] dist[i].1 <= known.len() * weight_bound()
}

/// Every edge from a finalized node but `except` ends at a node found.
pub open spec fn edges_found<G: IGraph>(g: &G, known: Seq<G::Node>, dist: Seq<(G::Node, i128)>, except: Option<G::Node>) -> bool {
    forall|u: G::Node, v: G::Node|
        known.contains(u) && except != Some(u) && #[trigger] g.adj_of(u).contains(v) ==> discovered(known, dist, v)
}

/// Relaxes every edge leaving `node`, the node just finalized at distance `d`.
fn relax_from<G: IWeightedGraph>(
    graph: &G,
    origin: &G::Node,
    node: &G::Node,
    d: i128,
    known: &Vec<G::Node>,
    dist: &mut Vec<(G::Node, i128)>,
    prev: &mut Vec<(G::Node, G::Node)>,
    fin: Ghost<Map<G::Node, int>>,
)
    requires
        graph.wf(),
        search_state(graph, *origin, known@, old(dist)@, old(prev)@),
        known@.len() > 0,
        known@.last() == *node,
        -((known@.len() - 1) * weight_bound()) <= d <= (known@.len() - 1) * weight_bound(),
        edges_found(graph, known@, old(dist)@, Some(*node)),
        nonneg_weights(graph) ==> dist_ok(graph, *origin, known@, old(dist)@, old(prev)@, fin@, Some(*node)),
        d as int == fin@[*node],
    ensures
        search_state(graph, *origin, known@, final(dist)@, final(prev)@),
        edges_found(graph, known@, final(dist)@, None),
        nonneg_weights(graph) ==> dist_ok(graph, *origin, known@, final(dist)@, final(prev)@, fin@, None),
{
    proof {
        graph.lemma_span();
        graph.lemma_weighted();
    }
    let adj = graph.get_adj_weighted(node);
    let mut a: usize = 0;
    while a < adj.len()
        invariant
            graph.wf(),
            search_state(graph, *origin, known@, dist@, prev@),
            known@.len() > 0,
            known@.last() == *node,
            -((known@.len() - 1) * weight_bound()) <= d <= (known@.len() - 1) * weight_bound(),
            edges_found(graph, known@, dist@, Some(*node)),
            adj@.to_set() == graph.wadj_of(*node),
            a <= adj@.len(),
            forall|t: int| 0 <= t < a ==> discovered(known@, dist@, (#[trigger] adj@[t]).0),
            nonneg_weights(graph) ==> dist_ok(graph, *origin, known@, dist@, prev@, fin@, Some(*node)),
            nonneg_weights(graph) ==> forall|t: int| 0 <= t < a ==> known@.contains((#[trigger] adj@[t]).0)
                || dist_within(dist@, adj@[t].0, fin@[*node] + adj@[t].1),
            d as int == fin@[*node],
        decreases adj@.len() - a,
    {
        let ghost d0 = dist@;
        let ghost p0 = prev@;
        let ghost mut kk: int = 0;
        let ghost mut changed = false;
        let target = &adj[a].0;
        let w = adj[a].1;
        proof {
            graph.lemma_span();
            graph.lemma_weighted();
            assert(adj@.to_set().contains(adj@[a as int]));
            assert(graph.wadj_of(*node).contains((*target, w)));
            assert(graph.adj_of(*node).contains(*target));
            assert(known@.contains(*node));
        }
        let kl = known.len();
        proof {
            assert(kl as int == known@.len());
            assert(kl as int * weight_bound() <= 0xffff_ffff_ffff_ffff * weight_bound());
            assert(-weight_bound() <= w <= weight_bound());
        }
        let nd: i128 = d + w as i128;
        assert(-(known@.len() * weight_bound()) <= nd <= known@.len() * weight_bound());
        if find_in(known, target).is_none() {
            match find_key(dist, target) {
                Some(k) => {
                    proof {
                        kk = k as int;
                    }
                    if nd < dist[k].1 {
                        dist.set(k, (target.duplicate(), nd));
                        set_prev(prev, target.duplicate(), node.duplicate());
                        proof {
                            changed = true;
                        }
                    }
                },
                None => {
                    dist.push((target.duplicate(), nd));
                    set_prev(prev, target.duplicate(), node.duplicate());
                    proof {
                        kk = d0.len() as int;
                        changed = true;
                    }
                },
            }
            proof {
                let d1 = dist@;
                let p1 = prev@;
                assert(*target != *origin);
                assert forall|x: G::Node| #[trigger] is_key(d0, x) implies is_key(d1, x) by {
                    let i = choose|i: int| 0 <= i < d0.len() && d0[i].0 == x;
                    assert(d1[i].0 == x);
                }
                assert forall|x: G::Node| #[trigger] is_key(d1, x) implies is_key(d0, x) || x == *target by {
                    let i = choose|i: int| 0 <= i < d1.len() && d1[i].0 == x;
                    if i < d0.len() {
                        assert(d0[i].0 == x);
                    }
                }
                assert(is_key(d1, *target)) by {
                    if is_key(d0, *target) {
                    } else {
                        assert(d1[d0.len() as int].0 == *target);
                    }
                }
                assert forall|i: int, j: int| 0 <= i < j < d1.len() implies d1[i].0 != d1[j].0 by {
                    if j >= d0.len() {
                        assert(d1[i].0 == d0[i].0);
                        assert(is_key(d0, d0[i].0));
                    } else {
                        assert(d1[i].0 == d0[i].0 && d1[j].0 == d0[j].0);
                    }
                }
                assert forall|i: int| 0 <= i < d1.len() implies -(known@.len() * weight_bound()) <= #[trigger] d1[i].1 <= known@.len() * weight_bound() by {
                    if i < d0.len() && d1[i] == d0[i] {
                    } else {
                        assert(d1[i].1 == nd);
                    }
                }
                let reached0 = known@ + keys_of(d0);
                let reached1 = known@ + keys_of(d1);
                assert forall|x: G::Node| reached0.contains(x) implies reached1.contains(x) by {
                    lemma_keys_of(d0, x);
                    lemma_keys_of(d1, x);
                    if known@.contains(x) {
                        let t = known@.index_of(x);
                        assert(reached1[t] == x);
                    } else {
                        assert(!known@.contains(x)) ;
                        if !keys_of(d0).contains(x) {
                            let t = reached0.index_of(x);
                            assert(t < known@.len() ==> known@[t] == x);
                            assert(t >= known@.len() ==> keys_of(d0)[t - known@.len()] == x);
                        }
                        let t = keys_of(d1).index_of(x);
                        assert(reached1[known@.len() + t] == x);
                    }
                }
                assert forall|x: G::Node| reached1.contains(x) <==> discovered(known@, d1, x) by {
                    lemma_keys_of(d1, x);
                    if reached1.contains(x) {
                        let t = reached1.index_of(x);
                        if t >= known@.len() {
                            assert(keys_of(d1)[t - known@.len()] == x);
                        }
                    }
                    if known@.contains(x) {
                        let t = known@.index_of(x);
                        assert(reached1[t] == x);
                    } else if keys_of(d1).contains(x) {
                        let t = keys_of(d1).index_of(x);
                        assert(reached1[known@.len() + t] == x);
                    }
                }
                assert forall|x: G::Node| reached0.contains(x) <==> discovered(known@, d0, x) by {
                    lemma_keys_of(d0, x);
                    if reached0.contains(x) {
                        let t = reached0.index_of(x);
                        if t >= known@.len() {
                            assert(keys_of(d0)[t - known@.len()] == x);
                        }
                    }
                    if known@.contains(x) {
                        let t = known@.index_of(x);
                        assert(reached0[t] == x);
                    } else if keys_of(d0).contains(x) {
                        let t = keys_of(d0).index_of(x);
                        assert(reached0[known@.len() + t] == x);
                    }
                }
                assert(prev_sound(graph, p1, known@, reached1, *origin)) by {
                    assert forall|i: int, j: int| 0 <= i < j < p1.len() implies p1[i].0 != p1[j].0 by {}
                    assert forall|i: int| 0 <= i < p1.len() implies graph.adj_of((#[trigger] p1[i]).1).contains(p1[i].0)
                        && known@.contains(p1[i].1) && reached1.contains(p1[i].1) && p1[i].0 != *origin by {
                        assert(p1.contains(p1[i]));
                        if p1[i].0 == *target && !p0.contains(p1[i]) {
                        } else if p1[i].0 != *target {
                            let t = p0.index_of(p1[i]);
                            assert(p0[t] == p1[i]);
                            assert(known@.contains(p0[t].1));
                            let q = known@.index_of(p1[i].1);
                            assert(reached1[q] == p1[i].1);
                        } else {
                            let t = p0.index_of(p1[i]);
                            assert(p0[t] == p1[i]);
                        }
                        if known@.contains(p1[i].1) {
                            let q = known@.index_of(p1[i].1);
                            assert(reached1[q] == p1[i].1);
                        }
                    }
                    assert forall|i: int| 0 <= i < p1.len() && known@.contains((#[trigger] p1[i]).0) implies known@.index_of(p1[i].1) < known@.index_of(p1[i].0) by {
                        assert(p1.contains(p1[i]));
                        assert(p1[i].0 != *target);
                        let t = p0.index_of(p1[i]);
                        assert(p0[t] == p1[i]);
                    }
                    assert forall|n: G::Node| #[trigger] reached1.contains(n) && n != *origin implies exists|i: int| 0 <= i < p1.len() && p1[i].0 == n by {
                        if n == *target {
                        } else {
                            assert(discovered(known@, d1, n));
                            assert(discovered(known@, d0, n));
                            assert(reached0.contains(n));
                            let i0 = choose|i: int| 0 <= i < p0.len() && p0[i].0 == n;
                            assert(p0.contains(p0[i0]));
                            assert(p1.contains(p0[i0]));
                            let i1 = p1.index_of(p0[i0]);
                            assert(p1[i1].0 == n);
                        }
                    }
                }
                assert forall|n: G::Node| #[trigger] discovered(known@, d1, n) implies n == *origin || graph.span().contains(n) by {
                    if n != *target {
                        assert(discovered(known@, d0, n));
                    }
                }
                assert forall|n: G::Node| !(known@.contains(n) && #[trigger] is_key(d1, n)) by {
                    if known@.contains(n) && is_key(d1, n) && n != *target {
                        assert(is_key(d0, n));
                    }
                }
                assert(edges_found(graph, known@, d1, Some(*node))) by {
                    assert forall|u: G::Node, v: G::Node|
                        known@.contains(u) && Some(*node) != Some(u) && #[trigger] graph.adj_of(u).contains(v) implies discovered(known@, d1, v) by {
                        assert(discovered(known@, d0, v));
                        if is_key(d0, v) {
                            let i = choose|i: int| 0 <= i < d0.len() && d0[i].0 == v;
                            assert(d1[i].0 == v);
                        }
                    }
                }
                assert forall|t: int| 0 <= t < a + 1 implies discovered(known@, d1, (#[trigger] adj@[t]).0) by {
                    if t < a {
                        assert(discovered(known@, d0, adj@[t].0));
                        if is_key(d0, adj@[t].0) {
                            let i = choose|i: int| 0 <= i < d0.len() && d0[i].0 == adj@[t].0;
                            assert(d1[i].0 == adj@[t].0);
                        }
                    }
                }
            }
            proof {
                if nonneg_weights(graph) {
                    let d1 = dist@;
                    let p1 = prev@;
                    if changed {
                        let q = choose|q: int| 0 <= q < p1.len() && p1[q] == (*target, *node);
                        assert(p1.contains(p1[q]));
                    }
                    lemma_relax_ok(graph, *origin, known@, d0, p0, d1, p1, fin@, *node, *target, w, nd, kk, changed);
                    assert forall|t: int| 0 <= t < a + 1 implies known@.contains((#[trigger] adj@[t]).0)
                        || dist_within(d1, adj@[t].0, fin@[*node] + adj@[t].1) by {
                        if t < a && !known@.contains(adj@[t].0) {
                            assert(dist_within(d0, adj@[t].0, fin@[*node] + adj@[t].1));
                        }
                    }
                }
            }
        }
        a += 1;
    }
    proof {
        if nonneg_weights(graph) {
            assert forall|y: G::Node, x: i64| #[trigger] graph.wadj_of(*node).contains((y, x)) && !known@.contains(y) implies exists|t: int|
                0 <= t < dist@.len() && dist@[t].0 == y && dist@[t].1 <= fin@[*node] + x by {
                assert(adj@.to_set().contains((y, x)));
                let t = adj@.index_of((y, x));
                assert(adj@[t] == (y, x));
                assert(dist_within(dist@, adj@[t].0, fin@[*node] + adj@[t].1));
            }
            lemma_relax_done(graph, *origin, known@, dist@, prev@, fin@, *node);
        }
        assert(edges_found(graph, known@, dist@, None)) by {
            assert forall|u: G::Node, v: G::Node|
                known@.contains(u) && None::<G::Node> != Some(u) && #[trigger] graph.adj_of(u).contains(v) implies discovered(known@, dist@, v) by {
                if u == *node {
                    let w = choose|w: i64| graph.wadj_of(*node).contains((v, w));
                    assert(adj@.to_set().contains((v, w)));
                    let t = adj@.index_of((v, w));
                    assert(discovered(known@, dist@, adj@[t].0));
                } else {
                    assert(Some(*node) != Some(u));
                }
            }
        }
    }
}

proof fn lemma_take_keys<G: IGraph>(
    graph: &G,
    origin: G::Node,
    k0: Seq<G::Node>,
    d0: Seq<(G::Node, i128)>,
    prev: Seq<(G::Node, G::Node)>,
    i: int,
    node: G::Node,
)
    requires
        graph.wf(),
        search_state(graph, origin, k0, d0, prev),
        0 <= i < d0.len(),
        d0[i].0 == node,
        k0.push(node).no_duplicates(),
    ensures
        forall|x: G::Node| #[trigger] is_key(d0.remove(i), x) <==> is_key(d0, x) && x != node,
        forall|x: G::Node| #[trigger] discovered(k0.push(node), d0.remove(i), x) <==> discovered(k0, d0, x),
        forall|x: G::Node| (k0.push(node) + keys_of(d0.remove(i))).contains(x) <==> (k0 + keys_of(d0)).contains(x),
        k0.push(node)[0] == origin,
        forall|a: int, b: int| 0 <= a < b < d0.remove(i).len() ==> d0.remove(i)[a].0 != d0.remove(i)[b].0,
        forall|n: G::Node| !(k0.push(node).contains(n) && #[trigger] is_key(d0.remove(i), n)),
{
        let k1 = k0.push(node);
        let d1 = d0.remove(i);
        assert forall|x: G::Node| #[trigger] is_key(d1, x) implies is_key(d0, x) && x != node by {
            let j = choose|j: int| 0 <= j < d1.len() && d1[j].0 == x;
            let j0 = if j < i { j } else { j + 1 };
            assert(d0[j0].0 == x);
            if x == node {
                assert(j0 != i);
            }
        }
        assert forall|x: G::Node| #[trigger] is_key(d0, x) && x != node implies is_key(d1, x) by {
            let j0 = choose|j: int| 0 <= j < d0.len() && d0[j].0 == x;
            assert(j0 != i);
            let j = if j0 < i { j0 } else { j0 - 1 };
            assert(d1[j].0 == x);
        }
        assert forall|x: G::Node| #[trigger] discovered(k1, d1, x) <==> discovered(k0, d0, x) by {
            if k1.contains(x) && x != node {
                let t = k1.index_of(x);
                assert(k0[t] == x);
            }
            if k0.contains(x) {
                let t = k0.index_of(x);
                assert(k1[t] == x);
            }
            if x == node {
                assert(k1[k0.len() as int] == node);
            }
        }
        assert forall|a: int, b: int| 0 <= a < b < d1.len() implies d1[a].0 != d1[b].0 by {
            let a0 = if a < i { a } else { a + 1 };
            let b0 = if b < i { b } else { b + 1 };
            assert(d1[a] == d0[a0] && d1[b] == d0[b0]);
        }
        assert forall|n: G::Node| !(k1.contains(n) && #[trigger] is_key(d1, n)) by {
            if k1.contains(n) && is_key(d1, n) {
                if n != node {
                    let t = k1.index_of(n);
                    assert(k0[t] == n);
                }
            }
        }
        if k0.len() == 0 {
            assert(node == origin) by {
                if node != origin {
                    assert(discovered(k0, d0, origin));
                    let j0 = choose|j: int| 0 <= j < d0.len() && d0[j].0 == origin;
                    assert(discovered(k0, d0, node));
                    assert(node == origin || graph.span().contains(node));
                    assert((k0 + keys_of(d0)).contains(node)) by {
                        assert(keys_of(d0)[i as int] == node);
                    }
                    let q = choose|q: int| 0 <= q < prev.len() && prev[q].0 == node;
                    assert(k0.contains(prev[q].1));
                }
            }
        }
        assert(k1[0] == origin);
        assert(discovered(k1, d1, origin));
        assert forall|x: G::Node| (k1 + keys_of(d1)).contains(x) <==> (k0 + keys_of(d0)).contains(x) by {
            lemma_keys_of(d1, x);
            lemma_keys_of(d0, x);
            let r1 = k1 + keys_of(d1);
            let r0 = k0 + keys_of(d0);
            if r1.contains(x) {
                let t = r1.index_of(x);
                if t >= k1.len() {
                    assert(keys_of(d1)[t - k1.len()] == x);
                } else {
                    assert(k1.contains(x));
                }
                assert(discovered(k1, d1, x));
                assert(discovered(k0, d0, x));
                if k0.contains(x) {
                    let q = k0.index_of(x);
                    assert(r0[q] == x);
                } else {
                    let q = keys_of(d0).index_of(x);
                    assert(r0[k0.len() + q] == x);
                }
            }
            if r0.contains(x) {
                let t = r0.index_of(x);
                if t >= k0.len() {
                    assert(keys_of(d0)[t - k0.len()] == x);
                } else {
                    assert(k0.contains(x));
                }
                assert(discovered(k0, d0, x));
                assert(discovered(k1, d1, x));
                if k1.contains(x) {
                    let q = k1.index_of(x);
                    assert(r1[q] == x);
                } else {
                    let q = keys_of(d1).index_of(x);
                    assert(r1[k1.len() + q] == x);
                }
            }
        }
}

proof fn lemma_take_prev<G: IGraph>(
    graph: &G,
    origin: G::Node,
    k0: Seq<G::Node>,
    d0: Seq<(G::Node, i128)>,
    prev: Seq<(G::Node, G::Node)>,
    i: int,
    node: G::Node,
)
    requires
        graph.wf(),
        search_state(graph, origin, k0, d0, prev),
        edges_found(graph, k0, d0, None),
        0 <= i < d0.len(),
        d0[i].0 == node,
        k0.push(node).no_duplicates(),
        forall|x: G::Node| #[trigger] discovered(k0.push(node), d0.remove(i), x) <==> discovered(k0, d0, x),
        forall|x: G::Node| (k0.push(node) + keys_of(d0.remove(i))).contains(x) <==> (k0 + keys_of(d0)).contains(x),
    ensures
        prev_sound(graph, prev, k0.push(node), k0.push(node) + keys_of(d0.remove(i)), origin),
        forall|j: int| 0 <= j < d0.remove(i).len() ==> -(k0.push(node).len() * weight_bound()) <= #[trigger] d0.remove(i)[j].1 <= k0.push(node).len() * weight_bound(),
        -(k0.len() * weight_bound()) <= d0[i].1 <= k0.len() * weight_bound(),
        edges_found(graph, k0.push(node), d0.remove(i), Some(node)),
{
        let k1 = k0.push(node);
        let d1 = d0.remove(i);
        let r1 = k1 + keys_of(d1);
        assert(prev_sound(graph, prev, k1, r1, origin)) by {
            let p = prev;
            assert forall|q: int| 0 <= q < p.len() implies graph.adj_of((#[trigger] p[q]).1).contains(p[q].0)
                && k1.contains(p[q].1) && r1.contains(p[q].1) && p[q].0 != origin by {
                let t = k0.index_of(p[q].1);
                assert(k1[t] == p[q].1);
            }
            assert forall|q: int| 0 <= q < p.len() && k1.contains((#[trigger] p[q]).0) implies k1.index_of(p[q].1) < k1.index_of(p[q].0) by {
                let t = k0.index_of(p[q].1);
                assert(k1[t] == p[q].1);
                crate::table::lemma_index_of_unique(k1, t);
                if p[q].0 == node {
                    crate::table::lemma_index_of_unique(k1, k0.len() as int);
                } else {
                    let t2 = k1.index_of(p[q].0);
                    assert(k0[t2] == p[q].0);
                    crate::table::lemma_index_of_unique(k1, t2);
                }
            }
            assert forall|n: G::Node| #[trigger] r1.contains(n) && n != origin implies exists|q: int| 0 <= q < p.len() && p[q].0 == n by {
                assert((k0 + keys_of(d0)).contains(n));
            }
        }
        assert forall|j: int| 0 <= j < d1.len() implies -(k1.len() * weight_bound()) <= #[trigger] d1[j].1 <= k1.len() * weight_bound() by {
            let j0 = if j < i { j } else { j + 1 };
            assert(d1[j] == d0[j0]);
        }
        assert(-(k0.len() * weight_bound()) <= d0[i as int].1 <= k0.len() * weight_bound());
        assert(edges_found(graph, k1, d1, Some(node))) by {
            assert forall|u: G::Node, v: G::Node|
                k1.contains(u) && Some(node) != Some(u) && #[trigger] graph.adj_of(u).contains(v) implies discovered(k1, d1, v) by {
                let t = k1.index_of(u);
                assert(k0[t] == u);
                assert(discovered(k0, d0, v));
            }
        }
}

/// Moves the entry at `i`, the least tentative distance, to the finalized
/// nodes, and returns it.
fn take_nearest<G: IWeightedGraph>(
    graph: &G,
    origin: &G::Node,
    i: usize,
    known: &mut Vec<G::Node>,
    dist: &mut Vec<(G::Node, i128)>,
    prev: &Vec<(G::Node, G::Node)>,
) -> (r: (G::Node, i128))
    requires
        graph.wf(),
        search_state(graph, *origin, old(known)@, old(dist)@, prev@),
        edges_found(graph, old(known)@, old(dist)@, None),
        i < old(dist)@.len(),
    ensures
        search_state(graph, *origin, final(known)@, final(dist)@, prev@),
        edges_found(graph, final(known)@, final(dist)@, Some(r.0)),
        final(known)@ == old(known)@.push(r.0),
        final(dist)@ == old(dist)@.remove(i as int),
        r == old(dist)@[i as int],
        final(known)@.len() <= graph.span().to_set().insert(*origin).len(),
        -((final(known)@.len() - 1) * weight_bound()) <= r.1 <= (final(known)@.len() - 1) * weight_bound(),
{
    let ghost d0 = dist@;
    let ghost k0 = known@;
    let entry = dist.remove(i);
    let node = entry.0;
    let d = entry.1;
    proof {
        graph.lemma_span();
        assert(is_key(d0, node)) by {
            assert(d0[i as int].0 == node);
        }
        assert(discovered(k0, d0, node));
        assert forall|a: int, b: int| 0 <= a < b < k0.len() + 1 implies k0.push(node)[a] != k0.push(node)[b] by {
            if b == k0.len() {
                assert(k0.push(node)[a] == k0[a]);
            }
        }
        // the finalized nodes stay within a finite set
        let s = graph.span().to_set().insert(*origin);
        assert forall|x: G::Node| k0.push(node).contains(x) implies s.contains(x) by {
            if x != node {
                let t = k0.push(node).index_of(x);
                assert(k0[t] == x);
                assert(discovered(k0, d0, x));
            }
        }
        k0.push(node).unique_seq_to_set();
        assert(k0.push(node).to_set().subset_of(s));
        vstd::set_lib::lemma_len_subset(k0.push(node).to_set(), s);
    }
    known.push(node.duplicate());
    proof {
        lemma_take_keys(graph, *origin, k0, d0, prev@, i as int, node);
        lemma_take_prev(graph, *origin, k0, d0, prev@, i as int, node);
    }
    (node, d)
}

/// The path read off the predecessors of a finalized target is shortest.
proof fn lemma_shortest_result<G: IWeightedGraph>(
    g: &G,
    origin: G::Node,
    target: G::Node,
    known: Seq<G::Node>,
    dist: Seq<(G::Node, i128)>,
    prev: Seq<(G::Node, G::Node)>,
    fin: Map<G::Node, int>,
    p: Seq<G::Node>,
)
    requires
        dist_ok(g, origin, known, dist, prev, fin, None),
        known.len() > 0,
        known[0] == origin,
        known.contains(target),
        is_path_between(g, p, origin, target),
        forall|k: int| 0 <= k < p.len() - 1 ==> prev.contains((#[trigger] p[k + 1], p[k])),
    ensures
        is_shortest_path(g, p, origin, target),
{
    reveal(dist_ok);
    assert(known.contains(origin));
    assert forall|j: int| 0 <= j < p.len() implies known.contains(#[trigger] p[j]) by {
        if j < p.len() - 1 {
            assert(prev.contains((p[j + 1], p[j])));
            let i = prev.index_of((p[j + 1], p[j]));
            assert(prev[i] == (p[j + 1], p[j]));
        } else {
            assert(p[j] == p.last());
        }
    }
    let ws = lemma_chain_weights(g, origin, known, dist, prev, fin, p, p.len() - 1);
    assert(p.subrange(0, p.len() as int) =~= p);
    assert forall|q: Seq<G::Node>, vs: Seq<i64>|
        #[trigger] is_weighted_walk(g, q, vs) && q[0] == origin && q.last() == target implies weight_of(ws) <= weight_of(vs) by {
    }
    assert(is_shortest(g, p, ws, origin, target));
}

/// A walk from a finalized node, where every edge from a finalized node ends
/// at a finalized node, stays among finalized nodes.
proof fn lemma_known_closed<G: IGraph>(g: &G, known: Seq<G::Node>, p: Seq<G::Node>, k: int)
    requires
        forall|u: G::Node, v: G::Node| known.contains(u) && #[trigger] g.adj_of(u).contains(v) ==> known.contains(v),
        is_walk(g, p),
        p.len() > 0,
        known.contains(p[0]),
        0 <= k < p.len(),
    ensures
        known.contains(p[k]),
    decreases k,
{
    if k > 0 {
        lemma_known_closed(g, known, p, k - 1);
        assert(g.adj_of(p[k - 1]).contains(p[k]));
    }
}

/// A shortest path from `origin` to `target`, both included, or `None`
/// where no walk of the graph leads from `origin` to `target`. The nodes are
/// finalized in order of distance, so weights are meant to be non-negative;
/// among nodes at equal distance the one found first is finalized first.
pub fn dijkstras<G: IWeightedGraph>(graph: &G, origin: &G::Node, target: &G::Node) -> (r: Option<Vec<G::Node>>)
    requires
        graph.wf(),
    ensures
        r is Some <==> reachable(graph, *origin, *target),
        r matches Some(p) ==> is_path_between(graph, p@, *origin, *target),
        r matches Some(p) ==> p@.no_duplicates(),
        nonneg_weights(graph) ==> (r matches Some(p) ==> is_shortest_path(graph, p@, *origin, *target)),
{
    let mut dist: Vec<(G::Node, i128)> = Vec::new();
    let mut prev: Vec<(G::Node, G::Node)> = Vec::new();
    let mut known: Vec<G::Node> = Vec::new();
    dist.push((origin.duplicate(), 0));
    proof {
        assert(is_key(dist@, *origin)) by {
            assert(dist@[0].0 == *origin);
        }
        assert forall|n: G::Node| #[trigger] is_key(dist@, n) implies n == *origin by {
            let i = choose|i: int| 0 <= i < dist@.len() && dist@[i].0 == n;
        }
        assert forall|n: G::Node| #[trigger] (known@ + keys_of(dist@)).contains(n) implies n == *origin by {
            let t = (known@ + keys_of(dist@)).index_of(n);
            assert(keys_of(dist@)[t] == dist@[t].0);
        }
    }
    let ghost mut fin: Map<G::Node, int> = Map::empty();
    proof {
        reveal(dist_ok);
        assert(fin.dom() =~= Set::<G::Node>::empty());
    }
    while find_in(&known, target).is_none()
        invariant
            graph.wf(),
            search_state(graph, *origin, known@, dist@, prev@),
            edges_found(graph, known@, dist@, None),
            nonneg_weights(graph) ==> dist_ok(graph, *origin, known@, dist@, prev@, fin, None),
        decreases graph.span().to_set().insert(*origin).len() - known@.len(),
    {
        match find_min(&dist) {
            None => {
                proof {
                    assert(known@.contains(*origin)) by {
                        if !known@.contains(*origin) {
                            let i = choose|i: int| 0 <= i < dist@.len() && dist@[i].0 == *origin;
                        }
                    }
                    assert forall|u: G::Node, v: G::Node| known@.contains(u) && #[trigger] graph.adj_of(u).contains(v) implies known@.contains(v) by {
                        assert(discovered(known@, dist@, v));
                        if is_key(dist@, v) {
                            let i = choose|i: int| 0 <= i < dist@.len() && dist@[i].0 == v;
                        }
                    }
                    if reachable(graph, *origin, *target) {
                        let p = choose|p: Seq<G::Node>| is_path_between(graph, p, *origin, *target);
                        lemma_known_closed(graph, known@, p, p.len() - 1);
                    }
                }
                return None;
            },
            Some(i) => {
                let ghost k0 = known@;
                let ghost d0 = dist@;
                let ghost fin0 = fin;
                let (node, d) = take_nearest(graph, origin, i, &mut known, &mut dist, &prev);
                proof {
                    fin = fin0.insert(node, d as int);
                    if nonneg_weights(graph) {
                        assert(known@[0] == *origin);
                        if k0.len() > 0 {
                            assert(k0[0] == known@[0]);
                        }
                        lemma_take_ok(graph, *origin, k0, d0, prev@, fin0, i as int);
                    }
                }
                relax_from(graph, origin, &node, d, &known, &mut dist, &mut prev, Ghost(fin));
            },
        }
    }
    proof {
        assert(known@.contains(*target));
        assert((known@ + keys_of(dist@)).contains(*target)) by {
            let t = known@.index_of(*target);
            assert((known@ + keys_of(dist@))[t] == *target);
        }
    }
    let path = backtrack(graph, &prev, origin, target, Ghost(known@), Ghost(known@ + keys_of(dist@)));
    proof {
        if nonneg_weights(graph) {
            lemma_shortest_result(graph, *origin, *target, known@, dist@, prev@, fin, path@);
            assert(is_shortest_path(graph, path@, *origin, *target));
        }
    }
    Some(path)
}

} // verus!

//! Breadth-first search: a shortest path, by edge count, to every node
//! reachable from an origin.

use vstd::prelude::*;

use crate::graph::{IGraph, is_path_between, is_walk, reachable};
use crate::vertex::{Vertex, copy_all, find_key};

verus! {

/// `known` maps some node to `n`.
pub open spec fn is_key<N, V>(known: Seq<(N, V)>, n: N) -> bool {
    exists|i: int| 0 <= i < known.len() && known[i].0 == n
}

/// Every entry of `known` is a node with a path to it from `origin`: the
/// nodes before it on a walk of `g`.
#[verifier::opaque]
pub open spec fn paths_valid<G: IGraph>(g: &G, origin: G::Node, known: Seq<(G::Node, Vec<G::Node>)>) -> bool {
    forall|i: int| 0 <= i < known.len() ==> is_path_between(g, (#[trigger] known[i]).1@.push(known[i].0), origin, known[i].0)
}

/// The keys of `known` are distinct.
pub open spec fn keys_distinct<N, V>(known: Seq<(N, V)>) -> bool {
    forall|i: int, j: int| 0 <= i < j < known.len() ==> known[i].0 != known[j].0
}

proof fn lemma_keys_bound<G: IGraph>(g: &G, origin: G::Node, known: Seq<(G::Node, Vec<G::Node>)>)
    requires
        g.wf(),
        keys_distinct(known),
        forall|i: int| 0 <= i < known.len() ==> (#[trigger] known[i]).0 == origin || g.span().contains(known[i].0),
    ensures
        known.len() <= g.span().to_set().insert(origin).len(),
{
    let keys = known.map_values(|e: (G::Node, Vec<G::Node>)| e.0);
    assert forall|a: int, b: int| 0 <= a < b < keys.len() implies keys[a] != keys[b] by {
        assert(keys[a] == known[a].0 && keys[b] == known[b].0);
    }
    assert forall|x: G::Node| keys.contains(x) implies g.span().to_set().insert(origin).contains(x) by {
        let t = keys.index_of(x);
        assert(keys[t] == known[t].0);
    }
    keys.unique_seq_to_set();
    assert(keys.to_set().subset_of(g.span().to_set().insert(origin)));
    vstd::set_lib::lemma_len_subset(keys.to_set(), g.span().to_set().insert(origin));
}

/// A walk from a node of a set of keys closed under edges stays among them.
proof fn lemma_keys_closed_walk<G: IGraph>(g: &G, known: Seq<(G::Node, Vec<G::Node>)>, p: Seq<G::Node>, k: int)
    requires
        forall|u: G::Node, v: G::Node| is_key(known, u) && #[trigger] g.adj_of(u).contains(v) ==> is_key(known, v),
        is_walk(g, p),
        p.len() > 0,
        is_key(known, p[0]),
        0 <= k < p.len(),
    ensures
        is_key(known, p[k]),
    decreases k,
{
    if k > 0 {
        lemma_keys_closed_walk(g, known, p, k - 1);
        assert(g.adj_of(p[k - 1]).contains(p[k]));
    }
}

/// Every edge from a key ends at a key, but for keys still in `pending`.
#[verifier::opaque]
pub open spec fn closed_except<G: IGraph>(g: &G, known: Seq<(G::Node, Vec<G::Node>)>, pending: Seq<G::Node>) -> bool {
    forall|u: G::Node, v: G::Node|
        is_key(known, u) && !pending.contains(u) && #[trigger] g.adj_of(u).contains(v) ==> is_key(known, v)
}

proof fn lemma_expand_closed<G: IGraph>(
    g: &G,
    k0: Seq<(G::Node, Vec<G::Node>)>,
    k1: Seq<(G::Node, Vec<G::Node>)>,
    node: G::Node,
    rest: Seq<G::Node>,
    nf0: Seq<G::Node>,
    nf1: Seq<G::Node>,
)
    requires
        closed_except(g, k0, seq![node] + rest + nf0),
        forall|x: G::Node| #[trigger] is_key(k0, x) ==> is_key(k1, x),
        forall|x: G::Node| #[trigger] is_key(k1, x) && !is_key(k0, x) ==> nf1.contains(x),
        forall|x: G::Node| #[trigger] nf0.contains(x) ==> nf1.contains(x),
        forall|v: G::Node| #[trigger] g.adj_of(node).contains(v) ==> is_key(k1, v),
    ensures
        closed_except(g, k1, rest + nf1),
{
    reveal(closed_except);
    assert forall|u: G::Node, v: G::Node|
        is_key(k1, u) && !(rest + nf1).contains(u) && #[trigger] g.adj_of(u).contains(v) implies is_key(k1, v) by {
        if u != node {
            if !is_key(k0, u) {
                assert(nf1.contains(u));
                let t = nf1.index_of(u);
                assert((rest + nf1)[rest.len() + t] == u);
            } else {
                let p0 = seq![node] + rest + nf0;
                if p0.contains(u) {
                    let t = p0.index_of(u);
                    if t == 0 {
                    } else if t < 1 + rest.len() {
                        assert((rest + nf1)[t - 1] == u);
                    } else {
                        assert(nf0[t - 1 - rest.len()] == u);
                        assert(nf0.contains(u));
                        let t2 = nf1.index_of(u);
                        assert((rest + nf1)[rest.len() + t2] == u);
                    }
                }
                assert(is_key(k0, v));
            }
        }
    }
}

/// No walk from `origin` to a key has fewer edges than the path recorded
/// for it.
#[verifier::opaque]
pub open spec fn paths_shortest<G: IGraph>(g: &G, origin: G::Node, known: Seq<(G::Node, Vec<G::Node>)>) -> bool {
    forall|i: int, q: Seq<G::Node>|
        0 <= i < known.len() && #[trigger] is_path_between(g, q, origin, (#[trigger] known[i]).0) ==> known[i].1@.len() + 1
            <= q.len()
}

/// Every node that a walk of at most `d` edges reaches from `origin` is a
/// key.
#[verifier::opaque]
pub open spec fn near_found<G: IGraph>(g: &G, origin: G::Node, known: Seq<(G::Node, Vec<G::Node>)>, d: int) -> bool {
    forall|n: G::Node, q: Seq<G::Node>| #[trigger] is_path_between(g, q, origin, n) && q.len() <= d + 1 ==> is_key(known, n)
}

/// Once a level is expanded, every node within one more edge is a key.
proof fn lemma_next_level<G: IGraph>(
    g: &G,
    origin: G::Node,
    known: Seq<(G::Node, Vec<G::Node>)>,
    nf: Seq<G::Node>,
    base: int,
    d: int,
)
    requires
        d >= 0,
        0 <= base,
        near_found(g, origin, known, d),
        paths_shortest(g, origin, known),
        closed_except(g, known, nf),
        keys_distinct(known),
        known.len() == base + nf.len(),
        forall|t: int| 0 <= t < nf.len() ==> #[trigger] nf[t] == known[base + t].0,
        forall|i: int| base <= i < known.len() ==> (#[trigger] known[i]).1@.len() == d + 1,
    ensures
        near_found(g, origin, known, d + 1),
{
    reveal(near_found);
    reveal(paths_shortest);
    reveal(closed_except);
    assert forall|n: G::Node, q: Seq<G::Node>| #[trigger] is_path_between(g, q, origin, n) && q.len() <= d + 2 implies is_key(known, n) by {
        if q.len() == d + 2 {
            let m = q[d];
            let q1 = q.subrange(0, d + 1);
            assert forall|k: int| 0 <= k < q1.len() - 1 implies g.adj_of(#[trigger] q1[k]).contains(q1[k + 1]) by {
                assert(q1[k] == q[k] && q1[k + 1] == q[k + 1]);
            }
            assert(is_path_between(g, q1, origin, m));
            assert(is_key(known, m));
            if nf.contains(m) {
                let t = nf.index_of(m);
                assert(known[base + t].0 == m);
                assert(known[base + t].1@.len() == d + 1);
                assert(is_path_between(g, q1, origin, known[base + t].0));
            }
            assert(g.adj_of(q[d]).contains(q[d + 1]));
        }
    }
}

/// Records every neighbour of `node` that is not yet known, with `parents`
/// (the path to `node`, `node` included) as its path, and queues it.
fn expand<G: IGraph>(
    graph: &G,
    origin: &G::Node,
    node: &G::Node,
    parents: &Vec<G::Node>,
    known: &mut Vec<(G::Node, Vec<G::Node>)>,
    new_frontier: &mut Vec<G::Node>,
    base: Ghost<int>,
)
    requires
        graph.wf(),
        keys_distinct(old(known)@),
        paths_valid(graph, *origin, old(known)@),
        forall|i: int| 0 <= i < old(known)@.len() ==> (#[trigger] old(known)@[i]).0 == *origin || graph.span().contains(old(known)@[i].0),
        is_path_between(graph, parents@, *origin, *node),
        0 <= base@,
        old(known)@.len() == base@ + old(new_frontier)@.len(),
        forall|t: int| 0 <= t < old(new_frontier)@.len() ==> #[trigger] old(new_frontier)@[t] == old(known)@[base@ + t].0,
        paths_shortest(graph, *origin, old(known)@),
        near_found(graph, *origin, old(known)@, parents@.len() - 1),
    ensures
        paths_shortest(graph, *origin, final(known)@),
        near_found(graph, *origin, final(known)@, parents@.len() - 1),
        forall|i: int| old(known)@.len() <= i < final(known)@.len() ==> (#[trigger] final(known)@[i]).1@.len() == parents@.len(),
        keys_distinct(final(known)@),
        paths_valid(graph, *origin, final(known)@),
        forall|i: int| 0 <= i < final(known)@.len() ==> (#[trigger] final(known)@[i]).0 == *origin || graph.span().contains(final(known)@[i].0),
        old(known)@.len() <= final(known)@.len(),
        final(known)@.subrange(0, old(known)@.len() as int) == old(known)@,
        final(known)@.len() == base@ + final(new_frontier)@.len(),
        forall|t: int| 0 <= t < final(new_frontier)@.len() ==> #[trigger] final(new_frontier)@[t] == final(known)@[base@ + t].0,
        forall|v: G::Node| #[trigger] graph.adj_of(*node).contains(v) ==> is_key(final(known)@, v),
        forall|x: G::Node| is_key(old(known)@, x) ==> is_key(final(known)@, x),
{
    reveal(paths_valid);
    let ghost known0 = known@;
    let adj = graph.get_adj(node);
    let mut a: usize = 0;
    while a < adj.len()
        invariant
            graph.wf(),
            keys_distinct(known@),
            paths_valid(graph, *origin, known@),
            forall|i: int| 0 <= i < known@.len() ==> (#[trigger] known@[i]).0 == *origin || graph.span().contains(known@[i].0),
            is_path_between(graph, parents@, *origin, *node),
            adj@.to_set() == graph.adj_of(*node),
            a <= adj@.len(),
            forall|t: int| 0 <= t < a ==> is_key(known@, #[trigger] adj@[t]),
            known0.len() <= known@.len(),
            known@.subrange(0, known0.len() as int) == known0,
            0 <= base@,
            known@.len() == base@ + new_frontier@.len(),
            forall|t: int| 0 <= t < new_frontier@.len() ==> #[trigger] new_frontier@[t] == known@[base@ + t].0,
            forall|x: G::Node| is_key(known0, x) ==> is_key(known@, x),
            paths_shortest(graph, *origin, known@),
            near_found(graph, *origin, known0, parents@.len() - 1),
            forall|i: int| known0.len() <= i < known@.len() ==> (#[trigger] known@[i]).1@.len() == parents@.len(),
        decreases adj@.len() - a,
    {
        let next = &adj[a];
        let ghost k0 = known@;
        let ghost nf0 = new_frontier@;
        if find_key(known, next).is_none() {
            known.push((next.duplicate(), copy_all(parents)));
            new_frontier.push(next.duplicate());
            proof {
                reveal(paths_valid);
                graph.lemma_span();
                let kn = known@;
                let last = k0.len() as int;
                let path_n = parents@;
                assert(kn[last].0 == *next);
                assert(adj@.to_set().contains(*next));
                assert(graph.adj_of(*node).contains(*next));
                assert(graph.span().contains(*next));
                assert forall|i: int, i2: int| 0 <= i < i2 < kn.len() implies kn[i].0 != kn[i2].0 by {
                    if i2 == last {
                        assert(kn[i] == k0[i]);
                    } else {
                        assert(kn[i] == k0[i] && kn[i2] == k0[i2]);
                    }
                }
                assert forall|i: int| 0 <= i < kn.len() implies is_path_between(graph, (#[trigger] kn[i]).1@.push(kn[i].0), *origin, kn[i].0) by {
                    if i == last {
                        let p = path_n.push(*next);
                        assert(kn[i].1@.push(kn[i].0) == p);
                        assert forall|q: int| 0 <= q < p.len() - 1 implies graph.adj_of(#[trigger] p[q]).contains(p[q + 1]) by {
                            if q < path_n.len() - 1 {
                                assert(p[q] == path_n[q] && p[q + 1] == path_n[q + 1]);
                            } else {
                                assert(p[q] == *node);
                            }
                        }
                    } else {
                        assert(kn[i] == k0[i]);
                    }
                }
                assert forall|x: G::Node| is_key(k0, x) implies is_key(kn, x) by {
                    let i = choose|i: int| 0 <= i < k0.len() && k0[i].0 == x;
                    assert(kn[i] == k0[i]);
                }
                assert forall|t: int| 0 <= t < a + 1 implies is_key(kn, #[trigger] adj@[t]) by {
                    if t == a {
                        assert(kn[last].0 == adj@[t]);
                    } else {
                        assert(is_key(k0, adj@[t]));
                    }
                }
                assert(kn.subrange(0, known0.len() as int) =~= k0.subrange(0, known0.len() as int));
                assert(!is_key(known0, *next)) by {
                    if is_key(known0, *next) {
                        assert(is_key(k0, *next));
                    }
                }
                assert(paths_shortest(graph, *origin, kn)) by {
                    reveal(paths_shortest);
                    reveal(near_found);
                    assert forall|i: int, q: Seq<G::Node>|
                        0 <= i < kn.len() && #[trigger] is_path_between(graph, q, *origin, (#[trigger] kn[i]).0) implies kn[i].1@.len() + 1
                            <= q.len() by {
                        if i == last {
                            if q.len() <= parents@.len() {
                                assert(is_key(known0, *next));
                            }
                        } else {
                            assert(kn[i] == k0[i]);
                        }
                    }
                }
                assert forall|t: int| 0 <= t < new_frontier@.len() implies #[trigger] new_frontier@[t] == kn[base@ + t].0 by {
                    if t < nf0.len() {
                        assert(new_frontier@[t] == nf0[t]);
                        assert(kn[base@ + t] == k0[base@ + t]);
                    }
                }
            }
        } else {
            proof {
                assert(is_key(known@, adj@[a as int]));
            }
        }
        a += 1;
    }
    proof {
        assert forall|v: G::Node| #[trigger] graph.adj_of(*node).contains(v) implies is_key(known@, v) by {
            assert(adj@.to_set().contains(v));
            let t = adj@.index_of(v);
            assert(is_key(known@, adj@[t]));
        }
        reveal(near_found);
    }
}

/// The bookkeeping after one node of the frontier is expanded.
proof fn lemma_after_expand<G: IGraph>(
    g: &G,
    known0: Seq<(G::Node, Vec<G::Node>)>,
    k_before: Seq<(G::Node, Vec<G::Node>)>,
    known: Seq<(G::Node, Vec<G::Node>)>,
    frontier: Seq<G::Node>,
    j: int,
    node: G::Node,
    nf_before: Seq<G::Node>,
    nf: Seq<G::Node>,
    d: int,
)
    requires
        0 <= j < frontier.len(),
        frontier[j] == node,
        k_before.len() <= known.len(),
        known.subrange(0, k_before.len() as int) == k_before,
        k_before.subrange(0, known0.len() as int) == known0,
        known0.len() <= k_before.len(),
        k_before.len() == known0.len() + nf_before.len(),
        known.len() == known0.len() + nf.len(),
        forall|t: int| 0 <= t < nf_before.len() ==> #[trigger] nf_before[t] == k_before[known0.len() + t].0,
        forall|t: int| 0 <= t < nf.len() ==> #[trigger] nf[t] == known[known0.len() + t].0,
        forall|t: int| 0 <= t < frontier.len() ==> is_key(k_before, #[trigger] frontier[t]),
        forall|x: G::Node| is_key(k_before, x) ==> is_key(known, x),
        forall|v: G::Node| #[trigger] g.adj_of(node).contains(v) ==> is_key(known, v),
        closed_except(g, k_before, frontier.subrange(j, frontier.len() as int) + nf_before),
        forall|i: int| known0.len() <= i < k_before.len() ==> (#[trigger] k_before[i]).1@.len() == d + 1,
        forall|i: int| k_before.len() <= i < known.len() ==> (#[trigger] known[i]).1@.len() == d + 1,
    ensures
        forall|t: int| 0 <= t < frontier.len() ==> is_key(known, #[trigger] frontier[t]),
        closed_except(g, known, frontier.subrange(j + 1, frontier.len() as int) + nf),
        forall|i: int| known0.len() <= i < known.len() ==> (#[trigger] known[i]).1@.len() == d + 1,
        known.subrange(0, known0.len() as int) == known0,
{
    assert forall|t: int| 0 <= t < frontier.len() implies is_key(known, #[trigger] frontier[t]) by {
        assert(is_key(k_before, frontier[t]));
    }
    assert forall|x: G::Node| #[trigger] is_key(known, x) && !is_key(k_before, x) implies nf.contains(x) by {
        let i = choose|i: int| 0 <= i < known.len() && known[i].0 == x;
        if i < k_before.len() {
            assert(known[i] == known.subrange(0, k_before.len() as int)[i]);
        }
        let t = i - known0.len();
        assert(nf[t] == x);
    }
    assert forall|x: G::Node| #[trigger] nf_before.contains(x) implies nf.contains(x) by {
        let t = nf_before.index_of(x);
        assert(known[known0.len() + t] == known.subrange(0, k_before.len() as int)[known0.len() + t]);
        assert(nf[t] == x);
    }
    assert forall|x: G::Node| #[trigger] is_key(k_before, x) implies is_key(known, x) by {}
    let rest = frontier.subrange(j, frontier.len() as int);
    let rest1 = frontier.subrange(j + 1, frontier.len() as int);
    assert(rest =~= seq![node] + rest1);
    lemma_expand_closed(g, k_before, known, node, rest1, nf_before, nf);
    assert forall|i: int| known0.len() <= i < known.len() implies (#[trigger] known[i]).1@.len() == d + 1 by {
        if i < k_before.len() {
            assert(known[i] == known.subrange(0, k_before.len() as int)[i]);
        }
    }
    assert(known.subrange(0, known0.len() as int) =~= known0) by {
        assert forall|q: int| 0 <= q < known0.len() implies known[q] == known0[q] by {
            assert(known[q] == known.subrange(0, k_before.len() as int)[q]);
            assert(k_before.subrange(0, known0.len() as int)[q] == k_before[q]);
        }
    }
}

/// Maps every node reachable from `origin`, `origin` included, to the nodes
/// before it on a shortest path from `origin`: `origin` itself maps to no
/// nodes. `origin` need not be held by the graph.
pub fn breadth_first_search<G: IGraph>(graph: G, origin: G::Node) -> (r: Vec<(G::Node, Vec<G::Node>)>)
    requires
        graph.wf(),
    ensures
        keys_distinct(r@),
        r@.len() > 0 && r@[0].0 == origin && r@[0].1@.len() == 0,
        paths_valid(&graph, origin, r@),
        paths_shortest(&graph, origin, r@),
        forall|n: G::Node| is_key(r@, n) <==> reachable(&graph, origin, n),
{
    let mut frontier: Vec<G::Node> = vec![origin.duplicate()];
    let mut known: Vec<(G::Node, Vec<G::Node>)> = Vec::new();
    known.push((origin.duplicate(), Vec::new()));
    proof {
        graph.lemma_span();
        reveal(paths_valid);
        let p = known@[0].1@.push(known@[0].0);
        assert(p =~= seq![origin]);
        assert(known@[0].0 == origin);
        reveal(closed_except);
        assert(frontier@[0] == origin);
        assert forall|u: G::Node| is_key(known@, u) implies frontier@.contains(u) by {
            assert(known@.len() == 1);
        }
        reveal(paths_shortest);
        reveal(near_found);
        assert forall|n: G::Node, q: Seq<G::Node>| #[trigger] is_path_between(&graph, q, origin, n) && q.len() <= 1 implies is_key(known@, n) by {
            assert(known@[0].0 == n);
        }
    }
    let ghost mut d: int = 0;
    while frontier.len() > 0
        invariant
            graph.wf(),
            keys_distinct(known@),
            known@.len() > 0 && known@[0].0 == origin && known@[0].1@.len() == 0,
            paths_valid(&graph, origin, known@),
            forall|i: int| 0 <= i < known@.len() ==> (#[trigger] known@[i]).0 == origin || graph.span().contains(known@[i].0),
            forall|t: int| 0 <= t < frontier@.len() ==> is_key(known@, #[trigger] frontier@[t]),
            closed_except(&graph, known@, frontier@),
            d >= 0,
            forall|i: int| 0 <= i < known@.len() ==> (#[trigger] known@[i]).1@.len() <= d,
            forall|i: int| 0 <= i < known@.len() && frontier@.contains((#[trigger] known@[i]).0) ==> known@[i].1@.len() == d,
            paths_shortest(&graph, origin, known@),
            near_found(&graph, origin, known@, d),
        decreases graph.span().to_set().insert(origin).len() - known@.len() + if frontier@.len() > 0 { 1int } else { 0int },
    {
        let ghost known0 = known@;
        let mut new_frontier: Vec<G::Node> = Vec::new();
        let mut j: usize = 0;
        assert(frontier@.subrange(0, frontier@.len() as int) + new_frontier@ =~= frontier@);
        assert(forall|t: int| 0 <= t < frontier@.len() ==> is_key(known0, #[trigger] frontier@[t]));
        assert(known@.subrange(0, known0.len() as int) =~= known0);
        while j < frontier.len()
            invariant
                graph.wf(),
                keys_distinct(known@),
                known@.len() > 0 && known@[0].0 == origin && known@[0].1@.len() == 0,
                paths_valid(&graph, origin, known@),
                forall|i: int| 0 <= i < known@.len() ==> (#[trigger] known@[i]).0 == origin || graph.span().contains(known@[i].0),
                forall|t: int| 0 <= t < frontier@.len() ==> is_key(known@, #[trigger] frontier@[t]),
                j <= frontier@.len(),
                known0.len() <= known@.len(),
                known@.subrange(0, known0.len() as int) == known0,
                known@.len() == known0.len() + new_frontier@.len(),
                forall|t: int| 0 <= t < new_frontier@.len() ==> #[trigger] new_frontier@[t] == known@[known0.len() + t].0,
                closed_except(&graph, known@, frontier@.subrange(j as int, frontier@.len() as int) + new_frontier@),
                d >= 0,
                forall|t: int| 0 <= t < frontier@.len() ==> is_key(known0, #[trigger] frontier@[t]),
                forall|i: int| 0 <= i < known0.len() ==> (#[trigger] known0[i]).1@.len() <= d,
                forall|i: int| 0 <= i < known0.len() && frontier@.contains((#[trigger] known0[i]).0) ==> known0[i].1@.len() == d,
                forall|i: int| known0.len() <= i < known@.len() ==> (#[trigger] known@[i]).1@.len() == d + 1,
                paths_shortest(&graph, origin, known@),
                near_found(&graph, origin, known@, d),
            decreases frontier@.len() - j,
        {
            let node = &frontier[j];
            let idx = find_key(&known, node).unwrap();
            let mut parents = copy_all(&known[idx].1);
            parents.push(node.duplicate());
            let ghost path_n = parents@;
            proof {
                reveal(paths_valid);
                graph.lemma_span();
                assert(is_path_between(&graph, known@[idx as int].1@.push(known@[idx as int].0), origin, *node));
                assert(frontier@.contains(*node));
                assert(is_key(known0, *node));
                let i0 = choose|i: int| 0 <= i < known0.len() && known0[i].0 == *node;
                assert(known@[i0] == known0[i0]);
                assert(idx == i0);
                assert(parents@.len() == d + 1);
            }
            let ghost k_before = known@;
            let ghost nf_before = new_frontier@;
            expand(&graph, &origin, node, &parents, &mut known, &mut new_frontier, Ghost(known0.len() as int));
            proof {
                lemma_after_expand(&graph, known0, k_before, known@, frontier@, j as int, *node, nf_before, new_frontier@, d);
            }
            j += 1;
        }
        proof {
            assert forall|t: int| 0 <= t < new_frontier@.len() implies is_key(known@, #[trigger] new_frontier@[t]) by {
                assert(known@[known0.len() + t].0 == new_frontier@[t]);
            }
            assert(frontier@.subrange(j as int, frontier@.len() as int) + new_frontier@ =~= new_frontier@);
            lemma_keys_bound(&graph, origin, known@);
            lemma_next_level(&graph, origin, known@, new_frontier@, known0.len() as int, d);
            assert forall|i: int| 0 <= i < known@.len() implies (#[trigger] known@[i]).1@.len() <= d + 1 by {
                if i < known0.len() {
                    assert(known@[i] == known0[i]);
                }
            }
            assert forall|i: int| 0 <= i < known@.len() && new_frontier@.contains((#[trigger] known@[i]).0) implies known@[i].1@.len() == d + 1 by {
                let t = new_frontier@.index_of(known@[i].0);
                assert(known@[known0.len() + t].0 == known@[i].0);
            }
        }
        frontier = new_frontier;
        proof {
            d = d + 1;
        }
    }
    proof {
        assert forall|n: G::Node| is_key(known@, n) <==> reachable(&graph, origin, n) by {
            if is_key(known@, n) {
                reveal(paths_valid);
                let i = choose|i: int| 0 <= i < known@.len() && known@[i].0 == n;
                assert(is_path_between(&graph, known@[i].1@.push(known@[i].0), origin, n));
            }
            if reachable(&graph, origin, n) {
                reveal(closed_except);
                assert(forall|x: G::Node| !frontier@.contains(x));
                let p = choose|p: Seq<G::Node>| is_path_between(&graph, p, origin, n);
                assert(is_key(known@, p[0]));
                lemma_keys_closed_walk(&graph, known@, p, p.len() - 1);
            }
        }
    }
    known
}

} // verus!

//! Depth-first search: cycle detection and topological ordering.

use vstd::prelude::*;

use crate::graph::{IDefiniteGraph, IGraph, is_path_between, is_walk, reachable};
use crate::vertex::{Vertex, find_in};

verus! {

/// Some walk of `g` with at least one edge comes back to where it started.
pub open spec fn has_cycle<G: IGraph>(g: &G) -> bool {
    exists|p: Seq<G::Node>| p.len() >= 2 && p[0] == p.last() && #[trigger] is_walk(g, p)
}

/// Every edge between nodes of `order` goes from an earlier to a later one.
pub open spec fn is_topological<G: IGraph>(g: &G, order: Seq<G::Node>) -> bool {
    forall|i: int, j: int|
        0 <= i < order.len() && 0 <= j < order.len() && #[trigger] g.adj_of(order[i]).contains(
            #[trigger] order[j],
        ) ==> i < j
}

/// Every edge that leaves a node of `s` ends in `s`.
pub open spec fn closed_under_edges<G: IGraph>(g: &G, s: Seq<G::Node>) -> bool {
    forall|i: int, v: G::Node| 0 <= i < s.len() && #[trigger] g.adj_of(s[i]).contains(v) ==> s.contains(v)
}

/// One of `roots` reaches `n`.
pub open spec fn reached_from_root<G: IGraph>(g: &G, roots: Seq<G::Node>, n: G::Node) -> bool {
    exists|a: int| 0 <= a < roots.len() && #[trigger] reachable(g, roots[a], n)
}

/// Some node that `g` holds reaches `n`.
pub open spec fn reached_from_held<G: IGraph>(g: &G, n: G::Node) -> bool {
    exists|h: G::Node| g.holds(h) && reachable(g, h, n)
}

/// Whether `n` is finished or on the stack.
pub open spec fn marked<N>(post: Seq<N>, stack: Seq<N>, n: N) -> bool {
    post.contains(n) || stack.contains(n)
}

/// What holds between steps of the search. `post` holds the finished nodes
/// in the order they finished, `stack` the nodes being explored, outermost
/// first. Nodes finished from `base` on finished after every node they have
/// an edge to, unless a cycle was found.
pub open spec fn search_state<G: IGraph>(
    g: &G,
    post: Seq<G::Node>,
    stack: Seq<G::Node>,
    cyclic: bool,
    roots: Seq<G::Node>,
    base: int,
) -> bool {
    &&& post.no_duplicates()
    &&& stack.no_duplicates()
    &&& forall|n: G::Node| !(post.contains(n) && stack.contains(n))
    &&& is_walk(g, stack)
    &&& stack.len() > 0 ==> g.holds(stack[0])
    &&& forall|n: G::Node| #[trigger] marked(post, stack, n) ==> g.span().contains(n)
    &&& forall|i: int, v: G::Node|
        0 <= i < post.len() && #[trigger] g.adj_of(post[i]).contains(v) ==> marked(post, stack, v)
    &&& forall|i: int, v: G::Node|
        0 <= i && base <= i < post.len() && #[trigger] g.adj_of(post[i]).contains(v) ==> cyclic || exists|j: int|
            0 <= j < i && post[j] == v
    &&& forall|i: int| 0 <= i < post.len() ==> reached_from_held(g, #[trigger] post[i])
    &&& cyclic ==> has_cycle(g)
    &&& roots.no_duplicates()
    &&& forall|r: G::Node| #[trigger] roots.contains(r) ==> g.holds(r) && marked(post, stack, r)
    &&& forall|a: int, b: int| 0 <= a < b < roots.len() ==> !reachable(g, #[trigger] roots[a], #[trigger] roots[b])
    &&& stack.len() > 0 ==> roots.len() > 0 && stack[0] == roots.last()
    &&& forall|i: int| 0 <= i < post.len() ==> reached_from_root(g, roots, #[trigger] post[i])
}

proof fn lemma_count_bound<N>(s: Seq<N>, u: Set<N>)
    requires
        s.no_duplicates(),
        u.finite(),
        forall|x: N| s.contains(x) ==> u.contains(x),
    ensures
        s.len() <= u.len(),
{
    s.unique_seq_to_set();
    assert(s.to_set().subset_of(u));
    vstd::set_lib::lemma_len_subset(s.to_set(), u);
}

proof fn lemma_marked_bound<G: IGraph>(g: &G, post: Seq<G::Node>, stack: Seq<G::Node>, cyclic: bool, roots: Seq<G::Node>, base: int)
    requires
        search_state(g, post, stack, cyclic, roots, base),
    ensures
        post.len() + stack.len() <= g.span().to_set().len(),
{
    let s = post + stack;
    assert forall|a: int, b: int| 0 <= a < b < s.len() implies s[a] != s[b] by {
        if b < post.len() {
        } else if a >= post.len() {
        } else {
            assert(post.contains(s[a]));
            assert(stack.contains(s[b]));
        }
    }
    assert forall|x: G::Node| s.contains(x) implies g.span().to_set().contains(x) by {
        let t = s.index_of(x);
        if t < post.len() {
            assert(post.contains(x));
        } else {
            assert(stack[t - post.len()] == x);
            assert(stack.contains(x));
        }
        assert(marked(post, stack, x));
    }
    lemma_count_bound(s, g.span().to_set());
}

/// No node of `p` is finished or on the stack.
pub open spec fn avoids<N>(post: Seq<N>, stack: Seq<N>, p: Seq<N>) -> bool {
    forall|i: int| 0 <= i < p.len() ==> !marked(post, stack, #[trigger] p[i])
}

/// A walk from `a` to `b` meets no node that is finished or on the stack.
pub open spec fn reach_unmarked<G: IGraph>(g: &G, post: Seq<G::Node>, stack: Seq<G::Node>, a: G::Node, b: G::Node) -> bool {
    exists|p: Seq<G::Node>| #[trigger] is_path_between(g, p, a, b) && avoids(post, stack, p)
}

/// A walk from `v` that avoids more marks, after an edge from unmarked
/// `node`, is a walk from `node` that avoids fewer.
proof fn lemma_reach_prepend<G: IGraph>(
    g: &G,
    post0: Seq<G::Node>,
    stack0: Seq<G::Node>,
    post1: Seq<G::Node>,
    stack1: Seq<G::Node>,
    node: G::Node,
    v: G::Node,
    x: G::Node,
)
    requires
        g.adj_of(node).contains(v),
        !marked(post0, stack0, node),
        forall|y: G::Node| marked(post0, stack0, y) ==> #[trigger] marked(post1, stack1, y),
        reach_unmarked(g, post1, stack1, v, x),
    ensures
        reach_unmarked(g, post0, stack0, node, x),
{
    let q = choose|q: Seq<G::Node>| #[trigger] is_path_between(g, q, v, x) && avoids(post1, stack1, q);
    let p = seq![node] + q;
    assert forall|i: int| 0 <= i < p.len() - 1 implies g.adj_of(#[trigger] p[i]).contains(p[i + 1]) by {
        if i > 0 {
            assert(p[i] == q[i - 1] && p[i + 1] == q[i]);
        }
    }
    assert forall|i: int| 0 <= i < p.len() implies !marked(post0, stack0, #[trigger] p[i]) by {
        if i > 0 {
            assert(p[i] == q[i - 1]);
            assert(!marked(post1, stack1, q[i - 1]));
        }
    }
    assert(p.last() == q.last());
    assert(is_path_between(g, p, node, x));
}

/// When every edge from a finished node ends at a marked node, a walk
/// from a finished node that avoids the old marks meets only finished nodes.
proof fn lemma_unmarked_finished<G: IGraph>(
    g: &G,
    post0: Seq<G::Node>,
    stack0: Seq<G::Node>,
    post: Seq<G::Node>,
    p: Seq<G::Node>,
    k: int,
)
    requires
        forall|i: int, v: G::Node| 0 <= i < post.len() && #[trigger] g.adj_of(post[i]).contains(v) ==> marked(post, stack0, v),
        is_walk(g, p),
        p.len() > 0,
        post.contains(p[0]),
        avoids(post0, stack0, p),
        0 <= k < p.len(),
    ensures
        post.contains(p[k]),
    decreases k,
{
    if k > 0 {
        lemma_unmarked_finished(g, post0, stack0, post, p, k - 1);
        let i = post.index_of(p[k - 1]);
        assert(g.adj_of(p[k - 1]).contains(p[k]));
        assert(g.adj_of(post[i]).contains(p[k]));
        assert(marked(post, stack0, p[k]));
        assert(!marked(post0, stack0, p[k]));
    }
}

/// Some cycle of `g` runs through nodes of `s` only.
pub open spec fn cycle_within<G: IGraph>(g: &G, s: Seq<G::Node>) -> bool {
    exists|c: Seq<G::Node>|
        c.len() >= 2 && c[0] == c.last() && #[trigger] is_walk(g, c) && forall|k: int| 0 <= k < c.len() ==> s.contains(#[trigger] c[k])
}

/// Among the nodes of `post` from `lo` on, each finished after every
/// neighbour among them, unless a cycle runs through `extra` (the nodes from
/// `lo` on, plus `node`).
pub open spec fn finished_in_order<G: IGraph>(g: &G, post: Seq<G::Node>, lo: int, extra: Seq<G::Node>) -> bool {
    forall|i: int, j: int|
        lo <= i < post.len() && lo <= j < post.len() && #[trigger] g.adj_of(post[i]).contains(#[trigger] post[j]) ==> j < i
            || cycle_within(g, extra)
}

proof fn lemma_cycle_within_grows<G: IGraph>(g: &G, s1: Seq<G::Node>, s2: Seq<G::Node>)
    requires
        cycle_within(g, s1),
        forall|x: G::Node| s1.contains(x) ==> #[trigger] s2.contains(x),
    ensures
        cycle_within(g, s2),
{
    let c = choose|c: Seq<G::Node>|
        c.len() >= 2 && c[0] == c.last() && #[trigger] is_walk(g, c) && forall|k: int| 0 <= k < c.len() ==> s1.contains(#[trigger] c[k]);
    assert forall|k: int| 0 <= k < c.len() implies s2.contains(#[trigger] c[k]) by {
        assert(s1.contains(c[k]));
    }
}

/// The order stays right across one recursive search from a neighbour.
proof fn lemma_order_child<G: IGraph>(
    g: &G,
    lo: int,
    post_i: Seq<G::Node>,
    post_n: Seq<G::Node>,
    stack1: Seq<G::Node>,
    node: G::Node,
)
    requires
        0 <= lo <= post_i.len() <= post_n.len(),
        post_n.subrange(0, post_i.len() as int) == post_i,
        finished_in_order(g, post_i, lo, post_i.subrange(lo, post_i.len() as int).push(node)),
        finished_in_order(g, post_n, post_i.len() as int, post_n.subrange(post_i.len() as int, post_n.len() as int)),
        forall|i: int, v: G::Node| 0 <= i < post_i.len() && #[trigger] g.adj_of(post_i[i]).contains(v) ==> marked(post_i, stack1, v),
        forall|n: G::Node| !(post_n.contains(n) && stack1.contains(n)),
        post_n.no_duplicates(),
    ensures
        finished_in_order(g, post_n, lo, post_n.subrange(lo, post_n.len() as int).push(node)),
{
    let big = post_n.subrange(lo, post_n.len() as int).push(node);
    let old_set = post_i.subrange(lo, post_i.len() as int).push(node);
    let child_set = post_n.subrange(post_i.len() as int, post_n.len() as int);
    assert forall|x: G::Node| old_set.contains(x) implies #[trigger] big.contains(x) by {
        let t = old_set.index_of(x);
        if t < post_i.len() - lo {
            assert(post_n[lo + t] == post_i[lo + t]);
            assert(big[t] == x);
        } else {
            assert(big[big.len() - 1] == x);
        }
    }
    assert forall|x: G::Node| child_set.contains(x) implies #[trigger] big.contains(x) by {
        let t = child_set.index_of(x);
        assert(big[post_i.len() - lo + t] == x);
    }
    assert forall|i: int, j: int|
        lo <= i < post_n.len() && lo <= j < post_n.len() && #[trigger] g.adj_of(post_n[i]).contains(#[trigger] post_n[j]) implies j < i
            || cycle_within(g, big) by {
        if i < post_i.len() {
            assert(post_n[i] == post_i[i]);
            if j < post_i.len() {
                assert(post_n[j] == post_i[j]);
                assert(g.adj_of(post_i[i]).contains(post_i[j]));
                if !(j < i) {
                    lemma_cycle_within_grows(g, old_set, big);
                }
            } else {
                assert(marked(post_i, stack1, post_n[j]));
                if post_i.contains(post_n[j]) {
                    let q = post_i.index_of(post_n[j]);
                    assert(post_n[q] == post_i[q]);
                    assert(q != j);
                } else {
                    assert(post_n.contains(post_n[j]));
                }
            }
        } else if j >= post_i.len() {
            if !(j < i) {
                lemma_cycle_within_grows(g, child_set, big);
            }
        }
    }
}

/// Finishing `node` last keeps the order: an edge into `node` from a node
/// that finished earlier in the same search closes a cycle.
proof fn lemma_order_finish<G: IGraph>(
    g: &G,
    post0: Seq<G::Node>,
    stack0: Seq<G::Node>,
    post2: Seq<G::Node>,
    node: G::Node,
)
    requires
        post0.len() <= post2.len(),
        post2.subrange(0, post0.len() as int) == post0,
        post2.push(node).no_duplicates(),
        finished_in_order(g, post2, post0.len() as int, post2.subrange(post0.len() as int, post2.len() as int).push(node)),
        forall|x: G::Node| #[trigger] post2.contains(x) && !post0.contains(x) ==> reach_unmarked(g, post0, stack0, node, x),
        forall|x: G::Node| #[trigger] reach_unmarked(g, post0, stack0, node, x) ==> post2.push(node).contains(x) && !post0.contains(x),
    ensures
        finished_in_order(g, post2.push(node), post0.len() as int, post2.push(node).subrange(post0.len() as int, post2.len() + 1 as int)),
{
    let lo = post0.len() as int;
    let post3 = post2.push(node);
    let set = post3.subrange(lo, post3.len() as int);
    assert(set =~= post2.subrange(lo, post2.len() as int).push(node));
    assert forall|x: G::Node| post3.contains(x) && !post0.contains(x) implies #[trigger] set.contains(x) by {
        let t = post3.index_of(x);
        if t < lo {
            assert(post2[t] == x);
            assert(post0[t] == post2.subrange(0, lo)[t]);
        }
        assert(set[t - lo] == x);
    }
    assert(set.contains(node)) by {
        assert(set[set.len() - 1] == node);
    }
    assert forall|i: int, j: int|
        lo <= i < post3.len() && lo <= j < post3.len() && #[trigger] g.adj_of(post3[i]).contains(#[trigger] post3[j]) implies j < i
            || cycle_within(g, set) by {
        if i < post2.len() && j < post2.len() {
            assert(post3[i] == post2[i] && post3[j] == post2[j]);
            assert(g.adj_of(post2[i]).contains(post2[j]));
        } else if i < post2.len() {
            let u = post2[i];
            assert(post3[j] == node);
            assert(post2.contains(u));
            assert(!post0.contains(u)) by {
                if post0.contains(u) {
                    let q = post0.index_of(u);
                    assert(post2[q] == post2.subrange(0, lo)[q]);
                    assert(post3[q] == post3[i]);
                }
            }
            let p = choose|p: Seq<G::Node>| #[trigger] is_path_between(g, p, node, u) && avoids(post0, stack0, p);
            let c = p.push(node);
            assert forall|k: int| 0 <= k < c.len() - 1 implies g.adj_of(#[trigger] c[k]).contains(c[k + 1]) by {
                if k < p.len() - 1 {
                    assert(c[k] == p[k] && c[k + 1] == p[k + 1]);
                } else {
                    assert(c[k] == u);
                }
            }
            assert forall|k: int| 0 <= k < c.len() implies set.contains(#[trigger] c[k]) by {
                if k < p.len() {
                    let q = p.subrange(0, k + 1);
                    assert(q[0] == node && q.last() == p[k]);
                    assert forall|t: int| 0 <= t < q.len() - 1 implies g.adj_of(#[trigger] q[t]).contains(q[t + 1]) by {
                        assert(q[t] == p[t] && q[t + 1] == p[t + 1]);
                    }
                    assert forall|t: int| 0 <= t < q.len() implies !marked(post0, stack0, #[trigger] q[t]) by {
                        assert(q[t] == p[t]);
                    }
                    assert(is_path_between(g, q, node, p[k]));
                    assert(reach_unmarked(g, post0, stack0, node, p[k]));
                    assert(c[k] == p[k]);
                } else {
                    assert(c[k] == node);
                }
            }
            assert(c[0] == c.last());
            assert(is_walk(g, c));
        } else {
            if j == i {
                let c = seq![node, node];
                assert(post3[i] == node);
                assert(is_walk(g, c));
                assert forall|k: int| 0 <= k < c.len() implies set.contains(#[trigger] c[k]) by {}
            }
        }
    }
}

/// Explores everything reachable from `node` that is not yet marked, and
/// records a cycle where an edge comes back to a node on the stack.
fn dfs_visit<G: IGraph>(
    graph: &G,
    node: G::Node,
    perm_mark: &mut Vec<G::Node>,
    temp_mark: &mut Vec<G::Node>,
    cyclic: &mut bool,
    roots: &mut Vec<G::Node>,
    base: Ghost<int>,
)
    requires
        graph.wf(),
        search_state(graph, old(perm_mark)@, old(temp_mark)@, *old(cyclic), old(roots)@, base@),
        base@ <= old(perm_mark)@.len(),
        graph.span().contains(node),
        old(temp_mark)@.len() > 0 ==> graph.adj_of(old(temp_mark)@.last()).contains(node),
        old(temp_mark)@.len() == 0 ==> graph.holds(node) && !marked(old(perm_mark)@, old(temp_mark)@, node),
    ensures
        search_state(graph, final(perm_mark)@, final(temp_mark)@, *final(cyclic), final(roots)@, base@),
        !marked(old(perm_mark)@, old(temp_mark)@, node) ==> final(perm_mark)@.len() > old(perm_mark)@.len()
            && final(perm_mark)@.last() == node,
        final(temp_mark)@ == old(temp_mark)@,
        old(perm_mark)@.len() <= final(perm_mark)@.len(),
        final(perm_mark)@.subrange(0, old(perm_mark)@.len() as int) == old(perm_mark)@,
        final(perm_mark)@.contains(node) || (old(temp_mark)@.contains(node) && *final(cyclic)),
        *old(cyclic) ==> *final(cyclic),
        old(temp_mark)@.len() > 0 ==> final(roots)@ == old(roots)@,
        old(temp_mark)@.len() == 0 ==> final(roots)@ == old(roots)@.push(node),
        marked(old(perm_mark)@, old(temp_mark)@, node) ==> final(perm_mark)@ == old(perm_mark)@,
        !marked(old(perm_mark)@, old(temp_mark)@, node) ==> forall|x: G::Node|
            #![trigger final(perm_mark)@.contains(x)]
            #![trigger reach_unmarked(graph, old(perm_mark)@, old(temp_mark)@, node, x)]
            (final(perm_mark)@.contains(x) && !old(perm_mark)@.contains(x)) <==> reach_unmarked(
                graph,
                old(perm_mark)@,
                old(temp_mark)@,
                node,
                x,
            ),
        finished_in_order(
            graph,
            final(perm_mark)@,
            old(perm_mark)@.len() as int,
            final(perm_mark)@.subrange(old(perm_mark)@.len() as int, final(perm_mark)@.len() as int),
        ),
    decreases graph.span().to_set().len() - old(perm_mark)@.len() - old(temp_mark)@.len(),
{
    proof {
        graph.lemma_span();
        lemma_marked_bound(graph, perm_mark@, temp_mark@, *cyclic, roots@, base@);
    }
    let ghost post0 = perm_mark@;
    let ghost stack0 = temp_mark@;
    let ghost roots0 = roots@;
    if find_in(perm_mark, &node).is_some() {
        return;
    }
    if let Some(k) = find_in(temp_mark, &node) {
        *cyclic = true;
        proof {
            let cyc = stack0.subrange(k as int, stack0.len() as int).push(node);
            assert(cyc[0] == node);
            assert forall|i: int| 0 <= i < cyc.len() - 1 implies graph.adj_of(#[trigger] cyc[i]).contains(cyc[i + 1]) by {
                if i + 1 < cyc.len() - 1 {
                    assert(cyc[i] == stack0[k + i]);
                    assert(cyc[i + 1] == stack0[k + i + 1]);
                } else {
                    assert(cyc[i] == stack0.last());
                }
            }
            assert(is_walk(graph, cyc));
        }
        return;
    }
    // a node seen for the first time goes on the stack
    temp_mark.push(node.duplicate());
    let ghost stack1 = temp_mark@;
    if temp_mark.len() == 1 {
        // the search starts here
        proof {
            if roots@.contains(node) {
                assert(marked(post0, stack0, node));
            }
            assert(closed_under_edges(graph, post0)) by {
                assert forall|q: int, v: G::Node| 0 <= q < post0.len() && #[trigger] graph.adj_of(post0[q]).contains(v) implies post0.contains(v) by {
                    assert(marked(post0, stack0, v));
                }
            }
            assert forall|a: int| 0 <= a < roots0.len() implies !reachable(graph, #[trigger] roots0[a], node) by {
                assert(roots0.contains(roots0[a]));
                assert(marked(post0, stack0, roots0[a]));
                if reachable(graph, roots0[a], node) {
                    let p = choose|p: Seq<G::Node>| is_path_between(graph, p, roots0[a], node);
                    lemma_closed_walk(graph, post0, p, p.len() - 1);
                    assert(marked(post0, stack0, node));
                }
            }
        }
        roots.push(node.duplicate());
        proof {
            let rs = roots@;
            assert(rs == roots0.push(node));
            assert forall|a: int, b: int| 0 <= a < b < rs.len() implies rs[a] != rs[b] by {
                if b == roots0.len() {
                    assert(roots0.contains(rs[a]));
                }
            }
            assert forall|a: int, b: int| 0 <= a < b < rs.len() implies !reachable(graph, #[trigger] rs[a], #[trigger] rs[b]) by {
                assert(rs[a] == roots0[a]);
                if b < roots0.len() {
                    assert(rs[b] == roots0[b]);
                }
            }
        }
    }
    let ghost roots1 = roots@;
    proof {
        assert(stack0.len() == 0 ==> roots1 == roots0.push(node));
        assert(stack0.len() > 0 ==> roots1 == roots0);
        assert forall|r: G::Node| #[trigger] roots0.contains(r) implies roots1.contains(r) by {
            let t = roots0.index_of(r);
            assert(roots1[t] == r);
        }
        assert forall|r: G::Node| #[trigger] roots1.contains(r) implies r == node || roots0.contains(r) by {
            let t = roots1.index_of(r);
            if t < roots0.len() {
                assert(roots0[t] == r);
            }
        }
        assert forall|n: G::Node| #[trigger] reached_from_root(graph, roots0, n) implies reached_from_root(graph, roots1, n) by {
            let a = choose|a: int| 0 <= a < roots0.len() && #[trigger] reachable(graph, roots0[a], n);
            assert(roots1[a] == roots0[a]);
        }
        assert forall|i: int| 0 <= i < post0.len() implies reached_from_root(graph, roots1, #[trigger] post0[i]) by {
            assert(reached_from_root(graph, roots0, post0[i]));
        }
    }
    proof {
        assert(stack1 == stack0.push(node));
        assert forall|a: int, b: int| 0 <= a < b < stack1.len() implies stack1[a] != stack1[b] by {
            if b == stack0.len() {
                assert(stack0.contains(stack1[a]));
            }
        }
        assert forall|n: G::Node| #[trigger] marked(post0, stack1, n) implies graph.span().contains(n) by {
            if stack1.contains(n) && n != node {
                let t = stack1.index_of(n);
                assert(stack0[t] == n);
                assert(marked(post0, stack0, n));
            } else if post0.contains(n) {
                assert(marked(post0, stack0, n));
            }
        }
        assert forall|n: G::Node| #[trigger] marked(post0, stack0, n) implies marked(post0, stack1, n) by {
            if stack0.contains(n) {
                let t = stack0.index_of(n);
                assert(stack1[t] == n);
            }
        }
        assert(stack1[stack0.len() as int] == node);
        assert(marked(post0, stack1, node));
        assert forall|r: G::Node| #[trigger] roots@.contains(r) implies graph.holds(r) && marked(post0, stack1, r) by {
            if r != node {
                assert(roots0.contains(r));
                assert(marked(post0, stack0, r));
            }
        }
        assert(stack1[0] == roots@.last());
        assert(search_state(graph, post0, stack1, *cyclic, roots@, base@));
        lemma_marked_bound(graph, post0, stack1, *cyclic, roots@, base@);
    }
    let adj = graph.get_adj(&node);
    let mut i: usize = 0;
    while i < adj.len()
        invariant
            graph.wf(),
            search_state(graph, perm_mark@, temp_mark@, *cyclic, roots@, base@),
            base@ <= post0.len(),
            temp_mark@ == stack1,
            stack1 == stack0.push(node),
            stack0 == old(temp_mark)@,
            post0 == old(perm_mark)@,
            !post0.contains(node),
            post0.len() <= perm_mark@.len(),
            perm_mark@.subrange(0, post0.len() as int) == post0,
            adj@.to_set() == graph.adj_of(node),
            i <= adj@.len(),
            forall|t: int| 0 <= t < i ==> marked(perm_mark@, temp_mark@, #[trigger] adj@[t]),
            forall|t: int| 0 <= t < i ==> *cyclic || perm_mark@.contains(#[trigger] adj@[t]),
            roots@ == roots1,
            stack0.len() == 0 ==> roots1 == roots0.push(node),
            stack0.len() > 0 ==> roots1 == roots0,
            *old(cyclic) ==> *cyclic,
            post0.len() + stack1.len() <= graph.span().to_set().len(),
            !marked(post0, stack0, node),
            forall|x: G::Node| #[trigger] perm_mark@.contains(x) && !post0.contains(x) ==> reach_unmarked(graph, post0, stack0, node, x),
            finished_in_order(graph, perm_mark@, post0.len() as int, perm_mark@.subrange(post0.len() as int, perm_mark@.len() as int).push(node)),
        decreases adj@.len() - i,
    {
        let ghost post_i = perm_mark@;
        let ghost cyc_i = *cyclic;
        let ghost roots_i = roots@;
        proof {
            graph.lemma_span();
            assert(adj@.to_set().contains(adj@[i as int]));
            assert(stack1.last() == node);
            assert(graph.adj_of(node).contains(adj@[i as int]));
            assert(graph.span().contains(adj@[i as int]));
            lemma_marked_bound(graph, perm_mark@, temp_mark@, *cyclic, roots@, base@);
            assert(stack0 == old(temp_mark)@);
            assert(post0 == old(perm_mark)@);
            assert(temp_mark@.len() == stack0.len() + 1);
            assert(perm_mark@.len() >= post0.len());
        }
        dfs_visit(graph, adj[i].duplicate(), perm_mark, temp_mark, cyclic, roots, base);
        proof {
            let v = adj@[i as int];
            assert forall|y: G::Node| marked(post0, stack0, y) implies #[trigger] marked(post_i, stack1, y) by {
                if post0.contains(y) {
                    let q = post0.index_of(y);
                    assert(post_i.subrange(0, post0.len() as int)[q] == y);
                    assert(post_i[q] == y);
                }
                if stack0.contains(y) {
                    let q = stack0.index_of(y);
                    assert(stack1[q] == y);
                }
            }
            lemma_order_child(graph, post0.len() as int, post_i, perm_mark@, stack1, node);
            assert forall|x: G::Node| #[trigger] perm_mark@.contains(x) && !post0.contains(x) implies reach_unmarked(graph, post0, stack0, node, x) by {
                if post_i.contains(x) {
                } else {
                    if marked(post_i, stack1, v) {
                        assert(perm_mark@ == post_i);
                    }
                    assert(!marked(post_i, stack1, v));
                    assert(reach_unmarked(graph, post_i, stack1, v, x));
                    lemma_reach_prepend(graph, post0, stack0, post_i, stack1, node, v, x);
                }
            }

            assert forall|t: int| 0 <= t < i + 1 implies marked(perm_mark@, temp_mark@, #[trigger] adj@[t]) by {
                if t < i {
                    assert(marked(post_i, temp_mark@, adj@[t]));
                    if post_i.contains(adj@[t]) {
                        let q = post_i.index_of(adj@[t]);
                        assert(perm_mark@[q] == adj@[t]);
                    }
                }
            }
            assert forall|t: int| 0 <= t < i + 1 implies *cyclic || perm_mark@.contains(#[trigger] adj@[t]) by {
                if t < i && !cyc_i {
                    assert(post_i.contains(adj@[t]));
                    let q = post_i.index_of(adj@[t]);
                    assert(perm_mark@[q] == adj@[t]);
                }
            }
        }
        i += 1;
    }
    // every neighbour is marked: the node is finished
    let ghost post2 = perm_mark@;
    let ghost cyc2 = *cyclic;
    let done = temp_mark.pop().unwrap();
    perm_mark.push(done);
    proof {
        let post3 = perm_mark@;
        let n2 = post2.len();
        assert(temp_mark@ =~= stack0);
        assert(post3 == post2.push(node));
        assert(!post2.contains(node)) by {
            assert(stack1.contains(node)) by {
                assert(stack1[stack0.len() as int] == node);
            }
        }
        assert forall|n: G::Node| #[trigger] marked(post3, stack0, n) <==> marked(post2, stack1, n) by {
            if post3.contains(n) && n != node {
                let t = post3.index_of(n);
                assert(post2[t] == n);
            }
            if post2.contains(n) {
                let t = post2.index_of(n);
                assert(post3[t] == n);
            }
            if stack1.contains(n) && n != node {
                let t = stack1.index_of(n);
                assert(stack0[t] == n);
            }
            if stack0.contains(n) {
                let t = stack0.index_of(n);
                assert(stack1[t] == n);
            }
            if n == node {
                assert(post3[n2 as int] == node);
                assert(stack1[stack0.len() as int] == node);
            }
        }
        assert forall|a: int, b: int| 0 <= a < b < post3.len() implies post3[a] != post3[b] by {
            if b == n2 {
                assert(post2.contains(post3[a]));
            }
        }
        assert forall|n: G::Node| !(post3.contains(n) && stack0.contains(n)) by {
            if post3.contains(n) && stack0.contains(n) {
                let t = stack0.index_of(n);
                assert(stack1[t] == n);
                assert(stack1.contains(n));
                if n == node {
                    assert(stack1[stack0.len() as int] == node);
                    assert(t != stack0.len());
                } else {
                    let q = post3.index_of(n);
                    assert(post2[q] == n);
                    assert(post2.contains(n));
                }
            }
        }
        assert(is_walk(graph, stack0)) by {
            assert forall|q: int| 0 <= q < stack0.len() - 1 implies graph.adj_of(#[trigger] stack0[q]).contains(stack0[q + 1]) by {
                assert(stack1[q] == stack0[q]);
                assert(stack1[q + 1] == stack0[q + 1]);
            }
        }
        assert(stack0.len() > 0 ==> stack0[0] == stack1[0]);
        assert forall|q: int, v: G::Node|
            0 <= q < post3.len() && #[trigger] graph.adj_of(post3[q]).contains(v) implies marked(post3, stack0, v) by {
            if q < n2 {
                assert(post3[q] == post2[q]);
                assert(marked(post2, stack1, v));
            } else {
                assert(post3[q] == node);
                assert(adj@.to_set().contains(v));
                let t = adj@.index_of(v);
                assert(marked(post2, stack1, adj@[t]));
            }
        }
        assert forall|q: int, v: G::Node|
            0 <= q && base@ <= q < post3.len() && #[trigger] graph.adj_of(post3[q]).contains(v) implies
            *cyclic || exists|j: int| 0 <= j < q && post3[j] == v by {
            if q < n2 {
                assert(post3[q] == post2[q]);
                if !*cyclic {
                    let j = choose|j: int| 0 <= j < q && post2[j] == v;
                    assert(post3[j] == v);
                }
            } else {
                assert(post3[q] == node);
                assert(adj@.to_set().contains(v));
                let t = adj@.index_of(v);
                if !*cyclic {
                    assert(post2.contains(v));
                    let j = post2.index_of(v);
                    assert(post3[j] == v);
                }
            }
        }
        assert forall|q: int| 0 <= q < post3.len() implies reached_from_held(graph, #[trigger] post3[q]) by {
            if q < n2 {
                assert(post3[q] == post2[q]);
            } else {
                assert(is_path_between(graph, stack1, stack1[0], node));
                assert(reachable(graph, stack1[0], post3[q]));
            }
        }
        assert forall|r: G::Node| #[trigger] roots@.contains(r) implies graph.holds(r) && marked(post3, stack0, r) by {
            assert(marked(post2, stack1, r));
        }
        assert(stack1[0] == roots@.last());
        assert forall|q: int| 0 <= q < post3.len() implies reached_from_root(graph, roots@, #[trigger] post3[q]) by {
            if q < n2 {
                assert(post3[q] == post2[q]);
            } else {
                assert(is_path_between(graph, stack1, stack1[0], node));
                assert(reachable(graph, roots@[roots@.len() - 1], post3[q]));
            }
        }
        assert(stack0.len() > 0 ==> stack0[0] == stack1[0]);
        assert forall|n: G::Node| #[trigger] marked(post3, stack0, n) implies graph.span().contains(n) by {
            assert(marked(post2, stack1, n));
        }
        assert(post3.subrange(0, post0.len() as int) == post2.subrange(0, post0.len() as int));
        assert(post3[n2 as int] == node);
        assert(!marked(post0, stack0, node));
        assert forall|x: G::Node| (post3.contains(x) && !post0.contains(x)) <==> #[trigger] reach_unmarked(graph, post0, stack0, node, x) by {
            if post3.contains(x) && !post0.contains(x) {
                if x == node {
                    assert(is_path_between(graph, seq![node], node, node));
                    assert(avoids(post0, stack0, seq![node]));
                } else {
                    let t = post3.index_of(x);
                    assert(post2[t] == x);
                    assert(post2.contains(x));
                }
            }
            if reach_unmarked(graph, post0, stack0, node, x) {
                let p = choose|p: Seq<G::Node>| #[trigger] is_path_between(graph, p, node, x) && avoids(post0, stack0, p);
                assert(post3.contains(node));
                lemma_unmarked_finished(graph, post0, stack0, post3, p, p.len() - 1);
                assert(!marked(post0, stack0, p[p.len() - 1]));
            }
        }
        lemma_order_finish(graph, post0, stack0, post2, node);
    }
}

/// Reverses `v`.
pub(crate) fn reversed<T>(v: Vec<T>) -> (r: Vec<T>)
    ensures
        r@ == v@.reverse(),
{
    let mut v = v;
    let ghost orig = v@;
    let mut r: Vec<T> = Vec::new();
    while v.len() > 0
        invariant
            v@.len() <= orig.len(),
            v@ == orig.subrange(0, v@.len() as int),
            r@ == orig.subrange(v@.len() as int, orig.len() as int).reverse(),
        decreases v@.len(),
    {
        let ghost before = v@;
        let x = v.pop().unwrap();
        proof {
            assert(before == orig.subrange(0, before.len() as int));
            assert(v@ == before.drop_last());
            assert(x == before.last());
            assert(x == orig[v@.len() as int]);
            assert(v@ =~= orig.subrange(0, v@.len() as int));
        }
        r.push(x);
        assert(r@ =~= orig.subrange(v@.len() as int, orig.len() as int).reverse());
    }
    assert(r@ =~= orig.reverse());
    r
}

/// A walk that starts in a set closed under edges stays in it.
proof fn lemma_closed_walk<G: IGraph>(g: &G, s: Seq<G::Node>, p: Seq<G::Node>, k: int)
    requires
        closed_under_edges(g, s),
        is_walk(g, p),
        p.len() > 0,
        s.contains(p[0]),
        0 <= k < p.len(),
    ensures
        s.contains(p[k]),
    decreases k,
{
    if k > 0 {
        lemma_closed_walk(g, s, p, k - 1);
        let i = s.index_of(p[k - 1]);
        assert(g.adj_of(p[k - 1]).contains(p[k]));
        assert(g.adj_of(s[i]).contains(p[k]));
    }
}

/// Along a walk that starts at a finished node, every later node finished
/// strictly earlier, where no cycle was found.
proof fn lemma_walk_descends<G: IGraph>(g: &G, post: Seq<G::Node>, p: Seq<G::Node>, k: int)
    requires
        post.no_duplicates(),
        closed_under_edges(g, post),
        forall|i: int, v: G::Node|
            0 <= i < post.len() && #[trigger] g.adj_of(post[i]).contains(v) ==> exists|j: int| 0 <= j < i && post[j] == v,
        is_walk(g, p),
        post.contains(p[0]),
        1 <= k < p.len(),
    ensures
        post.contains(p[k]),
        post.index_of(p[k]) < post.index_of(p[0]),
    decreases k,
{
    if k == 1 {
        let i = post.index_of(p[0]);
        assert(g.adj_of(post[i]).contains(p[1]));
        let j = choose|j: int| 0 <= j < i && post[j] == p[1];
        crate::table::lemma_index_of_unique(post, j);
    } else {
        lemma_walk_descends(g, post, p, k - 1);
        let i = post.index_of(p[k - 1]);
        assert(g.adj_of(p[k - 1]).contains(p[k]));
        assert(g.adj_of(post[i]).contains(p[k]));
        let j = choose|j: int| 0 <= j < i && post[j] == p[k];
        crate::table::lemma_index_of_unique(post, j);
    }
}

/// Once the stack is empty and every held node is finished, the finished
/// nodes are exactly those some held node reaches.
proof fn lemma_search_covers<G: IGraph>(g: &G, post: Seq<G::Node>, cyclic: bool, roots: Seq<G::Node>, base: int)
    requires
        g.wf(),
        search_state(g, post, Seq::empty(), cyclic, roots, base),
        forall|n: G::Node| g.holds(n) ==> post.contains(n),
    ensures
        closed_under_edges(g, post),
        forall|n: G::Node| post.contains(n) <==> reached_from_held(g, n),
{
    assert(closed_under_edges(g, post)) by {
        assert forall|q: int, v: G::Node| 0 <= q < post.len() && #[trigger] g.adj_of(post[q]).contains(v) implies post.contains(v) by {
            assert(marked(post, Seq::empty(), v));
        }
    }
    assert forall|n: G::Node| post.contains(n) <==> reached_from_held(g, n) by {
        if reached_from_held(g, n) {
            let h = choose|h: G::Node| g.holds(h) && reachable(g, h, n);
            let p = choose|p: Seq<G::Node>| is_path_between(g, p, h, n);
            lemma_closed_walk(g, post, p, p.len() - 1);
        }
        if post.contains(n) {
            let q = post.index_of(n);
            assert(reached_from_held(g, post[q]));
        }
    }
}

/// Searches the whole graph depth first. Returns the nodes that started a
/// search and were reached by no edge, every node in topological order
/// (meaningful only without a cycle), and whether the graph has a cycle.
pub fn depth_first_search<G: IDefiniteGraph>(graph: G) -> (r: (Vec<G::Node>, Vec<G::Node>, bool))
    requires
        graph.wf(),
    ensures
        r.2 == has_cycle(&graph),
        r.1@.no_duplicates(),
        forall|n: G::Node| #[trigger] r.1@.contains(n) <==> reached_from_held(&graph, n),
        !r.2 ==> is_topological(&graph, r.1@),
        r.0@.no_duplicates(),
        forall|n: G::Node| #[trigger] r.0@.contains(n) ==> graph.holds(n),
        forall|a: int, b: int| 0 <= a < b < r.0@.len() ==> !reachable(&graph, #[trigger] r.0@[a], #[trigger] r.0@[b]),
        forall|n: G::Node| #[trigger] r.1@.contains(n) ==> reached_from_root(&graph, r.0@, n),
{
    search_all(&graph)
}

/// The search of `depth_first_search`, on a borrowed graph.
pub(crate) fn search_all<G: IDefiniteGraph>(graph: &G) -> (r: (Vec<G::Node>, Vec<G::Node>, bool))
    requires
        graph.wf(),
    ensures
        r.2 == has_cycle(graph),
        r.1@.no_duplicates(),
        forall|n: G::Node| #[trigger] r.1@.contains(n) <==> reached_from_held(graph, n),
        !r.2 ==> is_topological(graph, r.1@),
        r.0@.no_duplicates(),
        forall|n: G::Node| #[trigger] r.0@.contains(n) ==> graph.holds(n),
        forall|a: int, b: int| 0 <= a < b < r.0@.len() ==> !reachable(graph, #[trigger] r.0@[a], #[trigger] r.0@[b]),
        forall|n: G::Node| #[trigger] r.1@.contains(n) ==> reached_from_root(graph, r.0@, n),
{
    let mut roots: Vec<G::Node> = Vec::new();
    let mut order: Vec<G::Node> = Vec::new();
    let mut cyclic = false;
    let mut temp_mark: Vec<G::Node> = Vec::new();
    let all = graph.get_all();
    proof {
        graph.lemma_span();
    }
    let mut i: usize = 0;
    while i < all.len()
        invariant
            graph.wf(),
            search_state(graph, order@, temp_mark@, cyclic, roots@, 0),
            temp_mark@.len() == 0,
            i <= all@.len(),
            forall|n: G::Node| #[trigger] all@.contains(n) <==> graph.holds(n),
            forall|t: int| 0 <= t < i ==> order@.contains(#[trigger] all@[t]),
        decreases all@.len() - i,
    {
        let origin = &all[i];
        let ghost before = order@;
        if find_in(&order, origin).is_none() && find_in(&temp_mark, origin).is_none() {
            proof {
                graph.lemma_span();
                assert(all@.contains(*origin));
            }
            dfs_visit(graph, origin.duplicate(), &mut order, &mut temp_mark, &mut cyclic, &mut roots, Ghost(0));
        }
        proof {
            assert forall|t: int| 0 <= t < i + 1 implies order@.contains(#[trigger] all@[t]) by {
                if t < i {
                    let q = before.index_of(all@[t]);
                    assert(order@[q] == all@[t]);
                }
            }
        }
        i += 1;
    }
    let ghost post = order@;
    proof {
        assert forall|n: G::Node| graph.holds(n) implies post.contains(n) by {
            assert(all@.contains(n));
            let t = all@.index_of(n);
            assert(post.contains(all@[t]));
        }
        assert(temp_mark@ =~= Seq::<G::Node>::empty());
        lemma_search_covers(graph, post, cyclic, roots@, 0);
        if !cyclic {
            assert forall|q: int, v: G::Node| 0 <= q < post.len() && #[trigger] graph.adj_of(post[q]).contains(v) implies exists|j: int| 0 <= j < q && post[j] == v by {
            }
            if has_cycle(graph) {
                let p = choose|p: Seq<G::Node>| p.len() >= 2 && p[0] == p.last() && #[trigger] is_walk(graph, p);
                graph.lemma_span();
                assert(graph.adj_of(p[0]).contains(p[1]));
                assert(post.contains(p[0]));
                lemma_walk_descends(graph, post, p, p.len() - 1);
            }
        }
        assert forall|n: G::Node| post.contains(n) implies reached_from_root(graph, roots@, n) by {
            let q = post.index_of(n);
            assert(reached_from_root(graph, roots@, post[q]));
        }
    }
    let order = reversed(order);
    proof {
        let n = post.len();
        assert forall|a: int, b: int| 0 <= a < b < order@.len() implies order@[a] != order@[b] by {
            assert(order@[a] == post[n - 1 - a]);
            assert(order@[b] == post[n - 1 - b]);
        }
        assert forall|x: G::Node| #[trigger] order@.contains(x) <==> post.contains(x) by {
            if order@.contains(x) {
                let t = order@.index_of(x);
                assert(post[n - 1 - t] == x);
            }
            if post.contains(x) {
                let t = post.index_of(x);
                assert(order@[n - 1 - t] == x);
            }
        }
        if !cyclic {
            assert forall|a: int, b: int|
                0 <= a < order@.len() && 0 <= b < order@.len() && #[trigger] graph.adj_of(order@[a]).contains(
                    #[trigger] order@[b],
                ) implies a < b by {
                assert(order@[a] == post[n - 1 - a]);
                assert(order@[b] == post[n - 1 - b]);
                let j = choose|j: int| 0 <= j < n - 1 - a && post[j] == order@[b];
                crate::table::lemma_index_of_unique(post, j);
                crate::table::lemma_index_of_unique(post, n - 1 - b);
            }
        }
    }
    (roots, order, cyclic)
}

/// One search tree of a forest chart: its nodes in topological order, root
/// first, and whether its search found a cycle.
pub struct TreeChart<T: IGraph> {
    pub cyclic: bool,
    pub topo: Vec<T::Node>,
}

/// The graph with one tree chart per root that started a search.
pub struct ForestChart<T: IDefiniteGraph> {
    pub graph: T,
    pub trees: Vec<(T::Node, TreeChart<T>)>,
}

/// The items of `v` from `start` on, last first.
fn tail_reversed<T: Vertex>(v: &Vec<T>, start: usize) -> (r: Vec<T>)
    requires
        start <= v@.len(),
    ensures
        r@ == v@.subrange(start as int, v@.len() as int).reverse(),
{
    let mut r: Vec<T> = Vec::new();
    let mut i = v.len();
    while i > start
        invariant
            start <= i <= v@.len(),
            r@ == v@.subrange(i as int, v@.len() as int).reverse(),
        decreases i,
    {
        i -= 1;
        r.push(v[i].duplicate());
        assert(r@ =~= v@.subrange(i as int, v@.len() as int).reverse());
    }
    r
}

/// The nodes one search finished, last first, are its tree: root first,
/// without repeats, and in topological order where no cycle was found.
proof fn lemma_tree_topo<G: IGraph>(
    g: &G,
    post: Seq<G::Node>,
    start: int,
    topo: Seq<G::Node>,
    cyclic: bool,
    roots: Seq<G::Node>,
)
    requires
        search_state(g, post, Seq::empty(), cyclic, roots, start),
        0 <= start < post.len(),
        topo == post.subrange(start, post.len() as int).reverse(),
    ensures
        topo.len() > 0,
        topo[0] == post.last(),
        topo.no_duplicates(),
        forall|x: G::Node| topo.contains(x) <==> post.subrange(start, post.len() as int).contains(x),
        !cyclic ==> is_topological(g, topo),
{
    let seg = post.subrange(start, post.len() as int);
    let n = seg.len();
    assert(topo[0] == seg[n - 1]);
    assert forall|a: int, b: int| 0 <= a < b < topo.len() implies topo[a] != topo[b] by {
        assert(topo[a] == post[start + n - 1 - a]);
        assert(topo[b] == post[start + n - 1 - b]);
    }
    assert forall|x: G::Node| topo.contains(x) <==> seg.contains(x) by {
        if topo.contains(x) {
            let t = topo.index_of(x);
            assert(seg[n - 1 - t] == x);
        }
        if seg.contains(x) {
            let t = seg.index_of(x);
            assert(topo[n - 1 - t] == x);
        }
    }
    if !cyclic {
        assert forall|a: int, b: int|
            0 <= a < topo.len() && 0 <= b < topo.len() && #[trigger] g.adj_of(topo[a]).contains(
                #[trigger] topo[b],
            ) implies a < b by {
            let qa = start + n - 1 - a;
            let qb = start + n - 1 - b;
            assert(topo[a] == post[qa]);
            assert(topo[b] == post[qb]);
            let j = choose|j: int| 0 <= j < qa && post[j] == topo[b];
            crate::table::lemma_index_of_unique(post, j);
            crate::table::lemma_index_of_unique(post, qb);
        }
    }
}

/// The trees charted so far split the finished nodes `post` between them.
#[verifier::opaque]
pub open spec fn charted<G: IGraph>(g: &G, post: Seq<G::Node>, trees: Seq<(G::Node, TreeChart<G>)>) -> bool {
    &&& forall|k1: int, k2: int| 0 <= k1 < k2 < trees.len() ==> trees[k1].0 != trees[k2].0
    &&& forall|k: int| 0 <= k < trees.len() ==> post.contains(#[trigger] trees[k].0)
    &&& forall|k: int| 0 <= k < trees.len() ==> g.holds(#[trigger] trees[k].0)
    &&& forall|k: int|
        0 <= k < trees.len() ==> (#[trigger] trees[k]).1.topo@.len() > 0 && trees[k].1.topo@[0] == trees[k].0
            && trees[k].1.topo@.no_duplicates()
    &&& forall|k: int| 0 <= k < trees.len() && (#[trigger] trees[k]).1.cyclic ==> has_cycle(g)
    &&& forall|k: int| 0 <= k < trees.len() && !(#[trigger] trees[k]).1.cyclic ==> is_topological(g, trees[k].1.topo@)
    &&& forall|k: int, x: G::Node| 0 <= k < trees.len() && #[trigger] trees[k].1.topo@.contains(x) ==> post.contains(x)
    &&& forall|k1: int, k2: int, x: G::Node|
        0 <= k1 < k2 < trees.len() && #[trigger] trees[k1].1.topo@.contains(x) ==> !(#[trigger] trees[k2].1.topo@.contains(x))
    &&& forall|q: int| 0 <= q < post.len() ==> exists|k: int|
        0 <= k < trees.len() && (#[trigger] trees[k]).1.topo@.contains(#[trigger] post[q])
}

proof fn lemma_chart_extend<G: IGraph>(
    g: &G,
    before: Seq<G::Node>,
    post: Seq<G::Node>,
    trees0: Seq<(G::Node, TreeChart<G>)>,
    root: G::Node,
    tree: TreeChart<G>,
)
    requires
        charted(g, before, trees0),
        post.len() > before.len(),
        post.subrange(0, before.len() as int) == before,
        post.last() == root,
        g.holds(root),
        !before.contains(root),
        tree.topo@.len() > 0,
        tree.topo@[0] == root,
        tree.topo@.no_duplicates(),
        forall|x: G::Node| tree.topo@.contains(x) <==> post.subrange(before.len() as int, post.len() as int).contains(x),
        tree.cyclic ==> has_cycle(g),
        !tree.cyclic ==> is_topological(g, tree.topo@),
        post.no_duplicates(),
    ensures
        charted(g, post, trees0.push((root, tree))),
{
    reveal(charted);
    let trees = trees0.push((root, tree));
    assert forall|k1: int, k2: int, x: G::Node|
        0 <= k1 < k2 < trees.len() && #[trigger] trees[k1].1.topo@.contains(x) implies !(#[trigger] trees[k2].1.topo@.contains(x)) by {
        assert(trees[k1] == trees0[k1]);
        if k2 < trees0.len() {
            assert(trees[k2] == trees0[k2]);
        } else if trees[k2].1.topo@.contains(x) {
            assert(trees[k2].1 == tree);
            let seg = post.subrange(before.len() as int, post.len() as int);
            assert(seg.contains(x));
            let t = seg.index_of(x);
            assert(post[before.len() + t] == x);
            assert(before.contains(x));
            let t0 = before.index_of(x);
            assert(post[t0] == x);
        }
    }
    let nt = trees0.len();
    let start = before.len();
    let seg = post.subrange(start as int, post.len() as int);
    assert(trees[nt as int].1 == tree);
    assert forall|k1: int, k2: int| 0 <= k1 < k2 < trees.len() implies trees[k1].0 != trees[k2].0 by {
        if k2 == nt {
            assert(trees[k1] == trees0[k1]);
            assert(before.contains(trees0[k1].0));
        }
    }
    assert forall|k: int, x: G::Node| 0 <= k < trees.len() && #[trigger] trees[k].1.topo@.contains(x) implies post.contains(x) by {
        if k < nt {
            assert(trees0[k] == trees[k]);
            let t = before.index_of(x);
            assert(post[t] == x);
        } else {
            let t = seg.index_of(x);
            assert(post[start + t] == x);
        }
    }
    assert forall|q: int| 0 <= q < post.len() implies exists|k: int|
        0 <= k < trees.len() && (#[trigger] trees[k]).1.topo@.contains(#[trigger] post[q]) by {
        if q < before.len() {
            assert(post[q] == before[q]);
            let k = choose|k: int| 0 <= k < trees0.len() && (#[trigger] trees0[k]).1.topo@.contains(#[trigger] before[q]);
            assert(trees[k] == trees0[k]);
        } else {
            assert(seg[q - start] == post[q]);
            assert(seg.contains(post[q]));
            assert(trees[nt as int].1.topo@.contains(post[q]));
        }
    }
    assert forall|k: int| 0 <= k < trees.len() implies post.contains(#[trigger] trees[k].0) by {
        if k < nt {
            assert(trees0[k] == trees[k]);
            let t = before.index_of(trees[k].0);
            assert(post[t] == trees[k].0);
        } else {
            assert(post[post.len() - 1] == root);
        }
    }
    assert forall|k: int| 0 <= k < trees.len() implies g.holds(#[trigger] trees[k].0) by {
        if k < nt {
            assert(trees0[k] == trees[k]);
        }
    }
    assert forall|k: int|
        0 <= k < trees.len() implies (#[trigger] trees[k]).1.topo@.len() > 0 && trees[k].1.topo@[0] == trees[k].0
            && trees[k].1.topo@.no_duplicates() by {
        if k < nt {
            assert(trees0[k] == trees[k]);
        }
    }
    assert forall|k: int| 0 <= k < trees.len() && (#[trigger] trees[k]).1.cyclic implies has_cycle(g) by {
        if k < nt {
            assert(trees0[k] == trees[k]);
        }
    }
    assert forall|k: int| 0 <= k < trees.len() && !(#[trigger] trees[k]).1.cyclic implies is_topological(g, trees[k].1.topo@) by {
        if k < nt {
            assert(trees0[k] == trees[k]);
        }
    }
}

/// The trees' nodes are exactly the nodes some held node reaches.
pub open spec fn trees_cover<G: IGraph>(g: &G, trees: Seq<(G::Node, TreeChart<G>)>) -> bool {
    forall|n: G::Node| #[trigger] reached_from_held(g, n) <==> exists|k: int|
        0 <= k < trees.len() && (#[trigger] trees[k]).1.topo@.contains(n)
}

proof fn lemma_chart_complete<G: IGraph>(g: &G, post: Seq<G::Node>, trees: Seq<(G::Node, TreeChart<G>)>)
    requires
        charted(g, post, trees),
        forall|n: G::Node| post.contains(n) <==> reached_from_held(g, n),
    ensures
        forall|k1: int, k2: int| 0 <= k1 < k2 < trees.len() ==> trees[k1].0 != trees[k2].0,
        forall|k: int| 0 <= k < trees.len() ==> g.holds(#[trigger] trees[k].0),
        forall|k: int|
            0 <= k < trees.len() ==> (#[trigger] trees[k]).1.topo@.len() > 0 && trees[k].1.topo@[0] == trees[k].0
                && trees[k].1.topo@.no_duplicates(),
        forall|k: int| 0 <= k < trees.len() && (#[trigger] trees[k]).1.cyclic ==> has_cycle(g),
        forall|k: int| 0 <= k < trees.len() && !(#[trigger] trees[k]).1.cyclic ==> is_topological(g, trees[k].1.topo@),
        trees_cover(g, trees),
        forall|k1: int, k2: int, x: G::Node|
            0 <= k1 < k2 < trees.len() && #[trigger] trees[k1].1.topo@.contains(x) ==> !(#[trigger] trees[k2].1.topo@.contains(x)),
{
    reveal(charted);
    assert forall|n: G::Node| reached_from_held(g, n) <==> exists|k: int|
        0 <= k < trees.len() && (#[trigger] trees[k]).1.topo@.contains(n) by {
        if reached_from_held(g, n) {
            let q = post.index_of(n);
            assert(post[q] == n);
        }
        if exists|k: int| 0 <= k < trees.len() && (#[trigger] trees[k]).1.topo@.contains(n) {
            let k = choose|k: int| 0 <= k < trees.len() && (#[trigger] trees[k]).1.topo@.contains(n);
            assert(trees[k].1.topo@.contains(n));
            assert(post.contains(n));
        }
    }
}

/// Runs one search from `root`, a held node that no earlier search reached,
/// and charts the tree it finished.
fn chart_tree<T: IGraph>(
    graph: &T,
    root: T::Node,
    perm_mark: &mut Vec<T::Node>,
    temp_mark: &mut Vec<T::Node>,
    roots: &mut Vec<T::Node>,
) -> (t: TreeChart<T>)
    requires
        graph.wf(),
        search_state(graph, old(perm_mark)@, old(temp_mark)@, false, old(roots)@, old(perm_mark)@.len() as int),
        old(temp_mark)@.len() == 0,
        graph.holds(root),
        !marked(old(perm_mark)@, old(temp_mark)@, root),
    ensures
        search_state(graph, final(perm_mark)@, final(temp_mark)@, false, final(roots)@, final(perm_mark)@.len() as int),
        final(temp_mark)@.len() == 0,
        final(perm_mark)@.len() > old(perm_mark)@.len(),
        final(perm_mark)@.subrange(0, old(perm_mark)@.len() as int) == old(perm_mark)@,
        final(perm_mark)@.last() == root,
        t.topo@.len() > 0,
        t.topo@[0] == root,
        t.topo@.no_duplicates(),
        forall|x: T::Node| t.topo@.contains(x) <==> final(perm_mark)@.subrange(
            old(perm_mark)@.len() as int,
            final(perm_mark)@.len() as int,
        ).contains(x),
        t.cyclic ==> has_cycle(graph),
        !t.cyclic ==> is_topological(graph, t.topo@),
{
    proof {
        graph.lemma_span();
    }
    let start = perm_mark.len();
    let mut cyclic = false;
    dfs_visit(graph, root.duplicate(), perm_mark, temp_mark, &mut cyclic, roots, Ghost(start as int));
    let topo = tail_reversed(perm_mark, start);
    proof {
        assert(temp_mark@ =~= Seq::<T::Node>::empty());
        lemma_tree_topo(graph, perm_mark@, start as int, topo@, cyclic, roots@);
    }
    TreeChart { cyclic, topo }
}

/// Charts the graph as a forest: one tree per node of `get_all` that no
/// earlier tree reached. Each tree lists the nodes its search finished,
/// root first and in topological order where the search found no cycle.
pub fn chart_forest<T: IDefiniteGraph>(graph: T) -> (r: ForestChart<T>)
    requires
        graph.wf(),
    ensures
        r.graph == graph,
        forall|k1: int, k2: int| 0 <= k1 < k2 < r.trees@.len() ==> r.trees@[k1].0 != r.trees@[k2].0,
        forall|k: int| 0 <= k < r.trees@.len() ==> graph.holds(#[trigger] r.trees@[k].0),
        forall|k: int|
            0 <= k < r.trees@.len() ==> (#[trigger] r.trees@[k]).1.topo@.len() > 0 && r.trees@[k].1.topo@[0]
                == r.trees@[k].0 && r.trees@[k].1.topo@.no_duplicates(),
        forall|k: int| 0 <= k < r.trees@.len() && (#[trigger] r.trees@[k]).1.cyclic ==> has_cycle(&graph),
        forall|k: int|
            0 <= k < r.trees@.len() && !(#[trigger] r.trees@[k]).1.cyclic ==> is_topological(&graph, r.trees@[k].1.topo@),
        trees_cover(&graph, r.trees@),
        forall|k1: int, k2: int, x: T::Node|
            0 <= k1 < k2 < r.trees@.len() && #[trigger] r.trees@[k1].1.topo@.contains(x) ==> !(#[trigger] r.trees@[k2].1.topo@.contains(x)),
{
    let mut perm_mark: Vec<T::Node> = Vec::new();
    let mut temp_mark: Vec<T::Node> = Vec::new();
    let mut roots: Vec<T::Node> = Vec::new();
    let mut trees: Vec<(T::Node, TreeChart<T>)> = Vec::new();
    let all = graph.get_all();
    proof {
        reveal(charted);
    }
    let mut i: usize = 0;
    while i < all.len()
        invariant
            graph.wf(),
            search_state(&graph, perm_mark@, temp_mark@, false, roots@, perm_mark@.len() as int),
            temp_mark@.len() == 0,
            i <= all@.len(),
            forall|n: T::Node| #[trigger] all@.contains(n) <==> graph.holds(n),
            forall|t: int| 0 <= t < i ==> perm_mark@.contains(#[trigger] all@[t]),
            charted(&graph, perm_mark@, trees@),
        decreases all@.len() - i,
    {
        let origin = &all[i];
        let ghost before = perm_mark@;
        let ghost trees0 = trees@;
        if find_in(&perm_mark, origin).is_none() && find_in(&temp_mark, origin).is_none() {
            proof {
                assert(all@.contains(*origin));
            }
            let tree = chart_tree(&graph, origin.duplicate(), &mut perm_mark, &mut temp_mark, &mut roots);
            trees.push((origin.duplicate(), tree));
            proof {
                assert(trees@ == trees0.push((*origin, tree)));
                lemma_chart_extend(&graph, before, perm_mark@, trees0, *origin, tree);
            }
        }
        proof {
            assert forall|t: int| 0 <= t < i + 1 implies perm_mark@.contains(#[trigger] all@[t]) by {
                if t < i {
                    let q = before.index_of(all@[t]);
                    assert(perm_mark@[q] == all@[t]);
                }
            }
        }
        i += 1;
    }
    proof {
        let post = perm_mark@;
        assert forall|n: T::Node| graph.holds(n) implies post.contains(n) by {
            assert(all@.contains(n));
            let t = all@.index_of(n);
            assert(post.contains(all@[t]));
        }
        assert(temp_mark@ =~= Seq::<T::Node>::empty());
        lemma_search_covers(&graph, post, false, roots@, post.len() as int);
        lemma_chart_complete(&graph, post, trees@);
    }
    ForestChart { graph, trees }
}

} // verus!

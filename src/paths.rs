//! Turning a map of predecessors into a path.

use vstd::prelude::*;

use crate::dfs::reversed;
use crate::graph::{IGraph, is_path_between};
use crate::vertex::{Vertex, find_key};

verus! {

/// `prev` records, for some nodes `v`, a node `u` with an edge `u -> v`
/// that comes earlier in `rank`. Every node of `reached` but `origin` has
/// such a record, and the records only name nodes of `reached`.
pub open spec fn prev_sound<G: IGraph>(
    g: &G,
    prev: Seq<(G::Node, G::Node)>,
    rank: Seq<G::Node>,
    reached: Seq<G::Node>,
    origin: G::Node,
) -> bool {
    &&& rank.no_duplicates()
    &&& forall|i: int, j: int| 0 <= i < j < prev.len() ==> prev[i].0 != prev[j].0
    &&& forall|i: int|
        0 <= i < prev.len() ==> g.adj_of((#[trigger] prev[i]).1).contains(prev[i].0) && rank.contains(prev[i].1)
            && reached.contains(prev[i].1) && prev[i].0 != origin
    &&& forall|i: int|
        0 <= i < prev.len() && rank.contains((#[trigger] prev[i]).0) ==> rank.index_of(prev[i].1) < rank.index_of(
            prev[i].0,
        )
    &&& forall|n: G::Node| #[trigger] reached.contains(n) && n != origin ==> exists|i: int| 0 <= i < prev.len() && prev[i].0 == n
}

proof fn lemma_reversed_chain<G: IGraph>(graph: &G, prev: Seq<(G::Node, G::Node)>, res: Seq<G::Node>, r: Seq<G::Node>)
    requires
        res.len() > 0,
        r == res.reverse(),
        forall|q: int| 0 <= q < res.len() - 1 ==> graph.adj_of(#[trigger] res[q + 1]).contains(res[q]),
        forall|q: int| 0 <= q < res.len() - 1 ==> prev.contains((#[trigger] res[q], res[q + 1])),
    ensures
        r[0] == res.last(),
        r.last() == res[0],
        crate::graph::is_walk(graph, r),
        forall|k: int| 0 <= k < r.len() - 1 ==> prev.contains((#[trigger] r[k + 1], r[k])),
{
    let n = r.len();
    assert forall|q: int| 0 <= q < n - 1 implies graph.adj_of(#[trigger] r[q]).contains(r[q + 1]) by {
        assert(r[q] == res[n - 1 - q]);
        assert(r[q + 1] == res[n - 2 - q]);
        assert(graph.adj_of(res[(n - 2 - q) + 1]).contains(res[n - 2 - q]));
    }
    assert forall|k: int| 0 <= k < n - 1 implies prev.contains((#[trigger] r[k + 1], r[k])) by {
        assert(r[k] == res[n - 1 - k]);
        assert(r[k + 1] == res[n - 2 - k]);
        assert(prev.contains((res[n - 2 - k], res[(n - 2 - k) + 1])));
    }
}

proof fn lemma_reversed_distinct<A>(res: Seq<A>, r: Seq<A>)
    requires
        res.no_duplicates(),
        r == res.reverse(),
    ensures
        r.no_duplicates(),
{
    let n = r.len();
    assert forall|a: int, b: int| 0 <= a < b < n implies r[a] != r[b] by {
        assert(r[a] == res[n - 1 - a] && r[b] == res[n - 1 - b]);
    }
}

/// One step back along `prev` keeps the walk.
proof fn lemma_back_step<G: IGraph>(
    graph: &G,
    prev: Seq<(G::Node, G::Node)>,
    r0: Seq<G::Node>,
    old_cur: G::Node,
    cur: G::Node,
)
    requires
        r0.len() > 0,
        r0.last() == old_cur,
        graph.adj_of(cur).contains(old_cur),
        prev.contains((old_cur, cur)),
        forall|q: int| 0 <= q < r0.len() - 1 ==> graph.adj_of(#[trigger] r0[q + 1]).contains(r0[q]),
        forall|q: int| 0 <= q < r0.len() - 1 ==> prev.contains((#[trigger] r0[q], r0[q + 1])),
    ensures
        forall|q: int| 0 <= q < r0.push(cur).len() - 1 ==> graph.adj_of(#[trigger] r0.push(cur)[q + 1]).contains(r0.push(cur)[q]),
        forall|q: int| 0 <= q < r0.push(cur).len() - 1 ==> prev.contains((#[trigger] r0.push(cur)[q], r0.push(cur)[q + 1])),
{
    let res = r0.push(cur);
    assert forall|q: int| 0 <= q < res.len() - 1 implies graph.adj_of(#[trigger] res[q + 1]).contains(res[q]) by {
        if q < r0.len() - 1 {
            assert(res[q] == r0[q] && res[q + 1] == r0[q + 1]);
        } else {
            assert(res[q] == old_cur);
        }
    }
    assert forall|q: int| 0 <= q < res.len() - 1 implies prev.contains((#[trigger] res[q], res[q + 1])) by {
        if q < r0.len() - 1 {
            assert(res[q] == r0[q] && res[q + 1] == r0[q + 1]);
        } else {
            assert(res[q] == old_cur);
        }
    }
}

/// One step back to a node of lower rank keeps the nodes met distinct.
proof fn lemma_back_rank<A>(rank: Seq<A>, r0: Seq<A>, old_cur: A, cur: A)
    requires
        rank.index_of(cur) < rank.index_of(old_cur),
        r0.no_duplicates(),
        forall|q: int| 0 <= q < r0.len() ==> rank.index_of(old_cur) <= rank.index_of(#[trigger] r0[q]),
    ensures
        r0.push(cur).no_duplicates(),
        forall|q: int| 0 <= q < r0.push(cur).len() ==> rank.index_of(cur) <= rank.index_of(#[trigger] r0.push(cur)[q]),
{
    let res = r0.push(cur);
    assert forall|q: int| 0 <= q < res.len() implies rank.index_of(cur) <= rank.index_of(#[trigger] res[q]) by {
        if q < r0.len() {
            assert(res[q] == r0[q]);
        }
    }
    assert forall|x: int, y: int| 0 <= x < y < res.len() implies res[x] != res[y] by {
        if y == r0.len() {
            assert(res[x] == r0[x]);
            assert(rank.index_of(old_cur) <= rank.index_of(r0[x]));
        } else {
            assert(res[x] == r0[x] && res[y] == r0[y]);
        }
    }
}

/// Follows `prev` back from `target` to `origin`, and returns the nodes met,
/// `origin` first.
pub fn backtrack<G: IGraph>(
    graph: &G,
    prev: &Vec<(G::Node, G::Node)>,
    origin: &G::Node,
    target: &G::Node,
    rank: Ghost<Seq<G::Node>>,
    reached: Ghost<Seq<G::Node>>,
) -> (r: Vec<G::Node>)
    requires
        prev_sound(graph, prev@, rank@, reached@, *origin),
        reached@.contains(*target),
        rank@.contains(*target),
    ensures
        is_path_between(graph, r@, *origin, *target),
        forall|k: int| 0 <= k < r@.len() - 1 ==> prev@.contains((#[trigger] r@[k + 1], r@[k])),
        r@.no_duplicates(),
{
    let mut res: Vec<G::Node> = vec![target.duplicate()];
    let mut cur = target.duplicate();
    let mut done = false;
    while !done
        invariant
            prev_sound(graph, prev@, rank@, reached@, *origin),
            reached@.contains(cur),
            rank@.contains(cur),
            res@.len() > 0,
            res@[0] == *target,
            res@.last() == cur,
            forall|q: int| 0 <= q < res@.len() - 1 ==> graph.adj_of(#[trigger] res@[q + 1]).contains(res@[q]),
            forall|q: int| 0 <= q < res@.len() - 1 ==> prev@.contains((#[trigger] res@[q], res@[q + 1])),
            done ==> forall|j: int| 0 <= j < prev@.len() ==> prev@[j].0 != cur,
            res@.no_duplicates(),
            forall|q: int| 0 <= q < res@.len() ==> rank@.index_of(cur) <= rank@.index_of(#[trigger] res@[q]),
        decreases rank@.index_of(cur) + if done { 0int } else { 1int },
    {
        match find_key(prev, &cur) {
            None => {
                done = true;
            },
            Some(i) => {
                let ghost old_cur = cur;
                let ghost r0 = res@;
                cur = prev[i].1.duplicate();
                res.push(cur.duplicate());
                proof {
                    assert(prev@[i as int] == (old_cur, cur));
                    assert(prev@.contains((old_cur, cur)));
                    assert(rank@.index_of(cur) < rank@.index_of(old_cur));
                    lemma_back_step(graph, prev@, r0, old_cur, cur);
                    lemma_back_rank(rank@, r0, old_cur, cur);
                    assert(res@ == r0.push(cur));
                }
            },
        }
    }
    proof {
        if cur != *origin {
            let i = choose|i: int| 0 <= i < prev@.len() && prev@[i].0 == cur;
        }
    }
    let ghost rs = res@;
    let r = reversed(res);
    proof {
        lemma_reversed_chain(graph, prev@, rs, r@);
        lemma_reversed_distinct(rs, r@);
    }
    r
}

} // verus!

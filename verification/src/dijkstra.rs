//! Least path cost between two nodes of a weighted graph.

use vstd::multiset::Multiset;
use vstd::prelude::*;
use crate::frontier::Frontier;
use crate::graph::{adjacency, edges_in_range};

verus! {

/// `w` is a walk from `s` to `t`: a sequence of steps `(node, k)`, each
/// taking the `k`-th edge out of `node`, the first out of `s`, every next
/// one out of the node that the one before leads to, the last into `t`.
/// The empty walk leads from a node to itself.
pub open spec fn is_walk(g: Seq<Seq<(usize, u64)>>, s: int, w: Seq<(int, int)>, t: int) -> bool
    decreases w.len(),
{
    if w.len() == 0 {
        s == t
    } else {
        let (u, k) = w.last();
        &&& is_walk(g, s, w.drop_last(), u)
        &&& 0 <= u < g.len()
        &&& 0 <= k < g[u].len()
        &&& g[u][k].0 == t
    }
}

/// The sum of the weights of the edges that a walk takes.
pub open spec fn walk_cost(g: Seq<Seq<(usize, u64)>>, w: Seq<(int, int)>) -> nat
    decreases w.len(),
{
    if w.len() == 0 {
        0
    } else {
        let (u, k) = w.last();
        walk_cost(g, w.drop_last()) + g[u][k].1 as nat
    }
}

/// `d` is the cost of some walk from `s` to `t`, and no walk from `s` to
/// `t` costs less.
pub open spec fn is_least_cost(g: Seq<Seq<(usize, u64)>>, s: int, t: int, d: nat) -> bool {
    &&& exists|w: Seq<(int, int)>| #[trigger] is_walk(g, s, w, t) && walk_cost(g, w) == d
    &&& forall|w: Seq<(int, int)>| #[trigger] is_walk(g, s, w, t) ==> d <= walk_cost(g, w)
}

/// There is no walk from `s` to `t`.
pub open spec fn no_walk(g: Seq<Seq<(usize, u64)>>, s: int, t: int) -> bool {
    forall|w: Seq<(int, int)>| !#[trigger] is_walk(g, s, w, t)
}

/// Some walk from `s` to `t` costs at most `bound`.
pub open spec fn joined_within(g: Seq<Seq<(usize, u64)>>, s: int, t: int, bound: nat) -> bool {
    exists|w: Seq<(int, int)>| #[trigger] is_walk(g, s, w, t) && walk_cost(g, w) <= bound
}

/// A walk costs at most the largest weight for each of its steps.
pub proof fn lemma_walk_cost_bound(g: Seq<Seq<(usize, u64)>>, w: Seq<(int, int)>)
    ensures
        walk_cost(g, w) <= w.len() * u64::MAX,
    decreases w.len(),
{
    if w.len() > 0 {
        lemma_walk_cost_bound(g, w.drop_last());
        assert((w.len() - 1) * u64::MAX + u64::MAX == w.len() * u64::MAX) by (nonlinear_arith);
    } else {
        assert(w.len() * u64::MAX == 0) by (nonlinear_arith)
            requires
                w.len() == 0,
        ;
    }
}

/// What a recorded distance counts for in the measure of progress.
spec fn rank(d: Option<u128>) -> nat {
    match d {
        Some(x) => x as nat,
        None => (u128::MAX + 1) as nat,
    }
}

/// The sum of the ranks of all recorded distances.
spec fn potential(dist: Seq<Option<u128>>) -> nat
    decreases dist.len(),
{
    if dist.len() == 0 {
        0
    } else {
        potential(dist.drop_last()) + rank(dist.last())
    }
}

proof fn lemma_potential_update(dist: Seq<Option<u128>>, i: int, x: Option<u128>)
    requires
        0 <= i < dist.len(),
    ensures
        potential(dist.update(i, x)) == potential(dist) - rank(dist[i]) + rank(x),
    decreases dist.len(),
{
    let after = dist.update(i, x);
    if i == dist.len() - 1 {
        assert(after.drop_last() =~= dist.drop_last());
    } else {
        lemma_potential_update(dist.drop_last(), i, x);
        assert(after.drop_last() =~= dist.drop_last().update(i, x));
    }
}

/// Every recorded distance is the cost of the walk noted for its node.
spec fn sound(
    g: Seq<Seq<(usize, u64)>>,
    start: int,
    dist: Seq<Option<u128>>,
    wit: Seq<Seq<(int, int)>>,
) -> bool {
    &&& wit.len() == dist.len()
    &&& forall|v: int|
        0 <= v < dist.len() && (#[trigger] dist[v]) is Some ==> is_walk(g, start, wit[v], v)
            && walk_cost(g, wit[v]) == dist[v].unwrap()
}

/// Every entry names a node whose recorded distance is at most its cost.
spec fn frontier_valid(dist: Seq<Option<u128>>, f: Multiset<(u128, usize)>) -> bool {
    forall|e: (u128, usize)| #[trigger]
        f.count(e) > 0 ==> e.1 < dist.len() && dist[e.1 as int] is Some && dist[e.1 as int].unwrap()
            <= e.0
}

/// Every reached node that is not settled has an entry with its distance.
spec fn open_in_frontier(dist: Seq<Option<u128>>, f: Multiset<(u128, usize)>, s: Set<int>) -> bool {
    forall|v: int|
        0 <= v < dist.len() && !s.contains(v) && (#[trigger] dist[v]) is Some ==> f.count(
            (dist[v].unwrap(), v as usize),
        ) > 0
}

/// Every settled node is a reached node, at a distance of at most `bound`.
spec fn settled_below(dist: Seq<Option<u128>>, s: Set<int>, bound: int) -> bool {
    forall|v: int| #[trigger]
        s.contains(v) ==> 0 <= v < dist.len() && dist[v] is Some && dist[v].unwrap() <= bound
}

/// No entry costs less than the distance of a settled node.
spec fn settled_below_frontier(dist: Seq<Option<u128>>, f: Multiset<(u128, usize)>, s: Set<int>) -> bool {
    forall|e: (u128, usize)| #[trigger] f.count(e) > 0 ==> settled_below(dist, s, e.0 as int)
}

/// The `k`-th edge out of `v` cannot improve the distance of its far end.
spec fn relaxed_edge(g: Seq<Seq<(usize, u64)>>, dist: Seq<Option<u128>>, v: int, k: int) -> bool {
    let t = g[v][k].0 as int;
    let wt = g[v][k].1;
    dist[v] is Some && dist[t] is Some && dist[t].unwrap() <= dist[v].unwrap() + wt
}

/// The walk noted for a reached node has at most as many steps as there
/// are settled nodes, and fewer where the node is settled itself.
spec fn short(dist: Seq<Option<u128>>, wit: Seq<Seq<(int, int)>>, s: Set<int>) -> bool {
    &&& s.finite()
    &&& forall|v: int|
        0 <= v < dist.len() && (#[trigger] dist[v]) is Some ==> wit[v].len() <= s.len() && (
        s.contains(v) ==> wit[v].len() < s.len())
}

/// There are at most as many settled nodes as nodes.
proof fn lemma_settled_count(dist: Seq<Option<u128>>, s: Set<int>, bound: int)
    requires
        settled_below(dist, s, bound),
    ensures
        s.finite(),
        s.len() <= dist.len(),
{
    let all = vstd::set_lib::set_int_range(0, dist.len() as int);
    vstd::set_lib::lemma_int_range(0, dist.len() as int);
    assert(s.subset_of(all));
    vstd::set_lib::lemma_len_subset(s, all);
}

/// Settling a reached node keeps the noted walks short.
proof fn lemma_settle(dist: Seq<Option<u128>>, wit: Seq<Seq<(int, int)>>, s: Set<int>, u: int)
    requires
        short(dist, wit, s),
        0 <= u < dist.len(),
        dist[u] is Some,
    ensures
        short(dist, wit, s.insert(u)),
{
    let after = s.insert(u);
    assert(after.len() == s.len() + (if s.contains(u) {
        0int
    } else {
        1int
    }));
    assert forall|v: int| 0 <= v < dist.len() && (#[trigger] dist[v]) is Some implies wit[v].len()
        <= after.len() && (after.contains(v) ==> wit[v].len() < after.len()) by {
        assert(wit[v].len() <= s.len());
    }
}

/// Every edge out of a settled node is relaxed; of the node `u` only the
/// edges below `upto` need be.
spec fn relaxed(
    g: Seq<Seq<(usize, u64)>>,
    dist: Seq<Option<u128>>,
    s: Set<int>,
    u: int,
    upto: int,
) -> bool {
    forall|v: int, k: int|
        s.contains(v) && 0 <= k < g[v].len() && (v != u || k < upto) ==> #[trigger] relaxed_edge(
            g,
            dist,
            v,
            k,
        )
}

/// What holds of the search between two iterations.
spec fn search_inv(
    g: Seq<Seq<(usize, u64)>>,
    start: int,
    dist: Seq<Option<u128>>,
    f: Multiset<(u128, usize)>,
    s: Set<int>,
) -> bool {
    &&& edges_in_range(g)
    &&& dist.len() == g.len()
    &&& 0 <= start < g.len()
    &&& dist[start] == Some(0u128)
    &&& frontier_valid(dist, f)
    &&& open_in_frontier(dist, f, s)
    &&& settled_below(dist, s, u128::MAX as int)
    &&& settled_below_frontier(dist, f, s)
    &&& relaxed(g, dist, s, -1, 0)
}

/// A walk ends either in a settled node, at no less than its distance, or
/// in a node that is not settled, at no less than some entry of the
/// frontier.
proof fn lemma_lower_bound(
    g: Seq<Seq<(usize, u64)>>,
    start: int,
    dist: Seq<Option<u128>>,
    f: Multiset<(u128, usize)>,
    s: Set<int>,
    w: Seq<(int, int)>,
    t: int,
)
    requires
        search_inv(g, start, dist, f, s),
        is_walk(g, start, w, t),
    ensures
        0 <= t < g.len(),
        s.contains(t) ==> dist[t] is Some && dist[t].unwrap() <= walk_cost(g, w),
        !s.contains(t) ==> exists|e: (u128, usize)| #[trigger]
            f.count(e) > 0 && e.0 <= walk_cost(g, w),
    decreases w.len(),
{
    if w.len() == 0 {
        if !s.contains(t) {
            assert(dist[t] is Some);
            assert(f.count((0u128, t as usize)) > 0);
        }
    } else {
        let (u, k) = w.last();
        lemma_lower_bound(g, start, dist, f, s, w.drop_last(), u);
        let before = walk_cost(g, w.drop_last());
        assert((g[u][k]).0 < g.len());
        if s.contains(u) {
            assert(relaxed_edge(g, dist, u, k));
            if !s.contains(t) {
                assert(dist[t] is Some);
                assert(f.count((dist[t].unwrap(), t as usize)) > 0);
            }
        } else {
            let e = choose|e: (u128, usize)| #[trigger] f.count(e) > 0 && e.0 <= before;
            if s.contains(t) {
                assert(settled_below(dist, s, e.0 as int));
            } else {
                assert(f.count(e) > 0 && e.0 <= walk_cost(g, w));
            }
        }
    }
}

/// The least cost of a walk from `start` to `goal`, or `None` when there
/// is no walk from `start` to `goal`. The cost is a `u128`: the least cost
/// takes no node twice, so it is below the number of nodes times the
/// largest weight, which a `u128` always holds.
pub fn dijkstra(graph: &[Vec<(usize, u64)>], start: usize, goal: usize) -> (r: Option<u128>)
    requires
        start < graph@.len(),
        edges_in_range(adjacency(graph@)),
    ensures
        r is None <==> no_walk(adjacency(graph@), start as int, goal as int),
        r matches Some(d) ==> is_least_cost(adjacency(graph@), start as int, goal as int, d as nat),
{
    let ghost g = adjacency(graph@);
    let n: usize = graph.len();
    let mut dist: Vec<Option<u128>> = Vec::new();
    while dist.len() < n
        invariant
            dist@.len() <= n,
            forall|v: int| 0 <= v < dist@.len() ==> (#[trigger] dist@[v]) is None,
        decreases n - dist@.len(),
    {
        dist.push(None);
    }
    dist[start] = Some(0);
    let mut frontier = Frontier::new();
    frontier.push(0, start);
    let ghost mut settled: Set<int> = Set::empty();
    let ghost mut wit: Seq<Seq<(int, int)>> = Seq::new(n as nat, |v: int| Seq::empty());
    while !frontier.is_empty()
        invariant
            g == adjacency(graph@),
            n == graph@.len(),
            frontier.wf(),
            search_inv(g, start as int, dist@, frontier@, settled),
            sound(g, start as int, dist@, wit),
            short(dist@, wit, settled),
            !settled.contains(goal as int),
        decreases potential(dist@), frontier@.len(),
    {
        let ghost f0 = frontier@;
        let ghost pot0 = potential(dist@);
        let popped = frontier.pop_min();
        match popped {
            None => {},
            Some((cost, node)) => {
                assert(f0.count((cost, node)) > 0);
                if node == goal {
                    proof {
                        assert(f0.count((dist@[goal as int].unwrap(), goal)) > 0);
                        assert(cost == dist@[goal as int].unwrap());
                        assert(is_walk(g, start as int, wit[goal as int], goal as int));
                        assert forall|w: Seq<(int, int)>| #[trigger]
                            is_walk(g, start as int, w, goal as int) implies cost <= walk_cost(
                            g,
                            w,
                        ) by {
                            lemma_lower_bound(g, start as int, dist@, f0, settled, w, goal as int);
                        }
                    }
                    return Some(cost);
                }
                let stale = match dist[node] {
                    Some(d) => cost > d,
                    None => true,
                };
                if !stale {
                    proof {
                        assert(settled_below(dist@, settled, cost as int));
                        lemma_settle(dist@, wit, settled, node as int);
                        settled = settled.insert(node as int);
                        lemma_settled_count(dist@, settled, cost as int);
                        lemma_walk_cost_bound(g, wit[node as int]);
                        assert(cost + u64::MAX <= u128::MAX) by (nonlinear_arith)
                            requires
                                cost <= wit[node as int].len() * u64::MAX,
                                wit[node as int].len() < settled.len() <= n <= usize::MAX
                                    <= u64::MAX,
                        ;
                    }
                    let edges = &graph[node];
                    let mut k: usize = 0;
                    while k < edges.len()
                        invariant
                            g == adjacency(graph@),
                            n == graph@.len(),
                            node < n,
                            edges@ == g[node as int],
                            k <= edges@.len(),
                            edges_in_range(g),
                            dist@.len() == g.len(),
                            start < g.len(),
                            dist@[start as int] == Some(0u128),
                            dist@[node as int] == Some(cost),
                            cost + u64::MAX <= u128::MAX,
                            frontier.wf(),
                            frontier_valid(dist@, frontier@),
                            open_in_frontier(dist@, frontier@, settled),
                            settled_below(dist@, settled, cost as int),
                            settled_below_frontier(dist@, frontier@, settled),
                            relaxed(g, dist@, settled, node as int, k as int),
                            sound(g, start as int, dist@, wit),
                            short(dist@, wit, settled),
                            !settled.contains(goal as int),
                            settled.contains(node as int),
                            potential(dist@) <= pot0,
                            potential(dist@) == pot0 ==> frontier@.len() < f0.len(),
                        decreases edges@.len() - k,
                    {
                        let (neighbor, weight) = edges[k];
                        assert(g[node as int][k as int] == (neighbor, weight));
                        assert(neighbor < n);
                        let ghost d0 = dist@;
                        let ghost fr0 = frontier@;
                        let next: u128 = cost + weight as u128;
                        let improves = match dist[neighbor] {
                            Some(d) => next < d,
                            None => true,
                        };
                        if improves {
                            dist[neighbor] = Some(next);
                            frontier.push(next, neighbor);
                            proof {
                                lemma_potential_update(d0, neighbor as int, Some(next));
                                wit = wit.update(
                                    neighbor as int,
                                    wit[node as int].push((node as int, k as int)),
                                );
                                lemma_relax_step(
                                    g,
                                    start as int,
                                    d0,
                                    fr0,
                                    settled,
                                    node as int,
                                    k as int,
                                    cost,
                                    dist@,
                                    frontier@,
                                );
                                assert(wit[neighbor as int].drop_last() =~= wit[node as int]);
                            }
                        } else {
                            assert(relaxed_edge(g, dist@, node as int, k as int));
                        }
                        k += 1;
                    }
                }
            },
        }
    }
    proof {
        assert forall|w: Seq<(int, int)>| !#[trigger] is_walk(g, start as int, w, goal as int) by {
            if is_walk(g, start as int, w, goal as int) {
                lemma_lower_bound(g, start as int, dist@, frontier@, settled, w, goal as int);
            }
        }
    }
    None
}

/// Recording a shorter distance for the far end of the `k`-th edge out of
/// the node `u` under relaxation, with an entry for it, keeps what holds
/// of the search. The far end is not a settled node.
proof fn lemma_relax_step(
    g: Seq<Seq<(usize, u64)>>,
    start: int,
    d0: Seq<Option<u128>>,
    f0: Multiset<(u128, usize)>,
    s: Set<int>,
    u: int,
    k: int,
    cost: u128,
    d1: Seq<Option<u128>>,
    f1: Multiset<(u128, usize)>,
)
    requires
        edges_in_range(g),
        d0.len() == g.len(),
        0 <= start < g.len(),
        0 <= u < g.len(),
        0 <= k < g[u].len(),
        d0[start] == Some(0u128),
        d0[u] == Some(cost),
        s.contains(u),
        frontier_valid(d0, f0),
        open_in_frontier(d0, f0, s),
        settled_below(d0, s, cost as int),
        settled_below_frontier(d0, f0, s),
        relaxed(g, d0, s, u, k),
        cost + g[u][k].1 <= u128::MAX,
        d0[g[u][k].0 as int] is Some ==> cost + g[u][k].1 < d0[g[u][k].0 as int].unwrap(),
        d1 == d0.update(g[u][k].0 as int, Some((cost + g[u][k].1) as u128)),
        f1 == f0.insert(((cost + g[u][k].1) as u128, g[u][k].0)),
    ensures
        !s.contains(g[u][k].0 as int),
        d1[start] == Some(0u128),
        d1[u] == Some(cost),
        frontier_valid(d1, f1),
        open_in_frontier(d1, f1, s),
        settled_below(d1, s, cost as int),
        settled_below_frontier(d1, f1, s),
        relaxed(g, d1, s, u, k + 1),
{
    let t = g[u][k].0 as int;
    let next = (cost + g[u][k].1) as u128;
    let e1 = (next, g[u][k].0);
    assert(!s.contains(t));
    assert forall|e: (u128, usize)| #[trigger] f1.count(e) > 0 implies e.1 < d1.len() && d1[e.1 as int] is Some
        && d1[e.1 as int].unwrap() <= e.0 by {
        if e != e1 {
            assert(f0.count(e) > 0);
        }
    }
    assert forall|v: int|
        0 <= v < d1.len() && !s.contains(v) && (#[trigger] d1[v]) is Some implies f1.count(
        (d1[v].unwrap(), v as usize),
    ) > 0 by {
        if v != t {
            assert(d0[v] is Some);
            assert(f0.count((d0[v].unwrap(), v as usize)) > 0);
        }
    }
    assert forall|e: (u128, usize)| #[trigger] f1.count(e) > 0 implies settled_below(d1, s, e.0 as int) by {
        if e != e1 {
            assert(f0.count(e) > 0);
            assert(settled_below(d0, s, e.0 as int));
        }
    }
    assert forall|v: int, j: int|
        s.contains(v) && 0 <= j < g[v].len() && (v != u || j < k + 1) implies #[trigger] relaxed_edge(
        g,
        d1,
        v,
        j,
    ) by {
        if v != u || j < k {
            assert(relaxed_edge(g, d0, v, j));
        }
    }
}

} // verus!

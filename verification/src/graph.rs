//! The proximity graph: free regions joined by edges weighted with the
//! distance between their centers.

use std::collections::HashMap;
use vstd::prelude::*;
use crate::distance::{distance, spec_distance, Center};
use crate::quadtree::Quad;
use crate::regions::{free_centers, table_with};

verus! {

broadcast use vstd::std_specs::hash::group_hash_axioms;

/// The adjacency lists of a graph as sequences of `(neighbor, weight)`.
pub open spec fn adjacency(g: Seq<Vec<(usize, u64)>>) -> Seq<Seq<(usize, u64)>> {
    Seq::new(g.len(), |u: int| g[u]@)
}

/// Every edge leads to a node of the graph.
pub open spec fn edges_in_range(g: Seq<Seq<(usize, u64)>>) -> bool {
    forall|u: int, k: int|
        0 <= u < g.len() && 0 <= k < g[u].len() ==> (#[trigger] g[u][k]).0 < g.len()
}

/// The graph is undirected: for every edge from `a` to `b` it holds an
/// edge from `b` to `a` of the same weight.
pub open spec fn symmetric(g: Seq<Seq<(usize, u64)>>) -> bool {
    forall|a: int, k: int|
        0 <= a < g.len() && 0 <= k < g[a].len() ==> (#[trigger] g[a][k]).0 < g.len() && g[g[a][k].0 as int].contains(
            (a as usize, g[a][k].1),
        )
}

/// The graph `g1` is `g0` with the edges of the tree `q` added.
pub open spec fn extends_by(
    g0: Seq<Seq<(usize, u64)>>,
    g1: Seq<Seq<(usize, u64)>>,
    q: Quad,
    base: int,
    centers: Map<usize, Center>,
) -> bool {
    &&& g1.len() == g0.len()
    &&& forall|a: int|
        0 <= a < g0.len() ==> #[trigger] g1[a] == g0[a] + added_edges(q, base, a, centers)
}

/// The identifiers `base`, `base + 1`, ... up to `base + n - 1`.
pub open spec fn id_run(base: int, n: nat) -> Seq<usize> {
    Seq::new(n, |k: int| (base + k) as usize)
}

/// The `k`-th region of `lo..` when `a` is left out.
pub open spec fn other_region(a: int, lo: int, k: int) -> int {
    if lo + k < a {
        lo + k
    } else {
        lo + k + 1
    }
}

/// The edge from region `a` to region `b`.
pub open spec fn edge_between(a: int, b: int, centers: Map<usize, Center>) -> (usize, u64) {
    (b as usize, spec_distance(centers[a as usize], centers[b as usize]) as u64)
}

/// The edges from region `a` to every other region of `lo..hi`, in
/// ascending order of the far end. Empty when `a` is not in `lo..hi`.
pub open spec fn fan(a: int, lo: int, hi: int, centers: Map<usize, Center>) -> Seq<(usize, u64)> {
    if lo <= a < hi {
        Seq::new((hi - lo - 1) as nat, |k: int| edge_between(a, other_region(a, lo, k), centers))
    } else {
        Seq::empty()
    }
}

/// The edges that a tree whose first free leaf is region `base` adds to
/// the adjacency list of region `a`: what its quadrants add, in their
/// order, and then, for a split node, an edge to every other region of
/// its subtree.
pub open spec fn added_edges(q: Quad, base: int, a: int, centers: Map<usize, Center>) -> Seq<
    (usize, u64),
>
    decreases q,
{
    match q {
        Quad::Split(nw, ne, sw, se) => {
            let b1 = base + free_centers(*nw).len();
            let b2 = b1 + free_centers(*ne).len();
            let b3 = b2 + free_centers(*sw).len();
            let b4 = b3 + free_centers(*se).len();
            added_edges(*nw, base, a, centers) + added_edges(*ne, b1, a, centers) + added_edges(
                *sw,
                b2,
                a,
                centers,
            ) + added_edges(*se, b3, a, centers) + fan(a, base, b4, centers)
        },
        _ => Seq::empty(),
    }
}

/// The table holds a center within range for region `k`.
pub open spec fn has_center(centers: Map<usize, Center>, k: usize) -> bool {
    centers.dom().contains(k) && centers[k].in_range()
}

/// The table holds a center within range for every region of `lo..hi`.
pub open spec fn has_centers(centers: Map<usize, Center>, lo: int, hi: int) -> bool {
    forall|k: usize| lo <= k < hi ==> #[trigger] has_center(centers, k)
}

/// A split node has as many free leaves as its four quadrants together.
pub proof fn lemma_split_count(q: Quad)
    requires
        q is Split,
    ensures
        free_centers(q).len() == free_centers(q.child(0)).len() + free_centers(q.child(1)).len()
            + free_centers(q.child(2)).len() + free_centers(q.child(3)).len(),
{
}

/// Every edge that a tree adds to the list of region `a` joins two
/// different regions of that tree, and is weighted with the distance
/// between their centers.
pub proof fn lemma_added_edge(q: Quad, base: int, a: int, centers: Map<usize, Center>, k: int)
    requires
        0 <= base,
        base + free_centers(q).len() <= usize::MAX,
        0 <= k < added_edges(q, base, a, centers).len(),
    ensures
        base <= a < base + free_centers(q).len(),
        base <= added_edges(q, base, a, centers)[k].0 < base + free_centers(q).len(),
        added_edges(q, base, a, centers)[k].0 != a,
        added_edges(q, base, a, centers)[k] == edge_between(
            a,
            added_edges(q, base, a, centers)[k].0 as int,
            centers,
        ),
    decreases q,
{
    match q {
        Quad::Split(nw, ne, sw, se) => {
            lemma_split_count(q);
            let b1 = base + free_centers(*nw).len();
            let b2 = b1 + free_centers(*ne).len();
            let b3 = b2 + free_centers(*sw).len();
            let b4 = b3 + free_centers(*se).len();
            let out_nw = added_edges(*nw, base, a, centers);
            let out_ne = added_edges(*ne, b1, a, centers);
            let out_sw = added_edges(*sw, b2, a, centers);
            let out_se = added_edges(*se, b3, a, centers);
            let out_fan = fan(a, base, b4, centers);
            let all = added_edges(q, base, a, centers);
            if k < out_nw.len() {
                lemma_added_edge(*nw, base, a, centers, k);
                assert(all[k] == out_nw[k]);
            } else if k < out_nw.len() + out_ne.len() {
                lemma_added_edge(*ne, b1, a, centers, k - out_nw.len());
                assert(all[k] == out_ne[k - out_nw.len()]);
            } else if k < out_nw.len() + out_ne.len() + out_sw.len() {
                lemma_added_edge(*sw, b2, a, centers, k - out_nw.len() - out_ne.len());
                assert(all[k] == out_sw[k - out_nw.len() - out_ne.len()]);
            } else if k < out_nw.len() + out_ne.len() + out_sw.len() + out_se.len() {
                lemma_added_edge(*se, b3, a, centers, k - out_nw.len() - out_ne.len() - out_sw.len());
                assert(all[k] == out_se[k - out_nw.len() - out_ne.len() - out_sw.len()]);
            } else {
                assert(all[k] == out_fan[k - out_nw.len() - out_ne.len() - out_sw.len() - out_se.len()]);
            }
        },
        _ => {},
    }
}

/// A list put together from two holds what either part holds.
proof fn lemma_contains_join(x: Seq<(usize, u64)>, y: Seq<(usize, u64)>, e: (usize, u64))
    ensures
        (x + y).contains(e) <==> x.contains(e) || y.contains(e),
{
    if x.contains(e) {
        let i = choose|i: int| 0 <= i < x.len() && x[i] == e;
        assert((x + y)[i] == e);
    }
    if y.contains(e) {
        let i = choose|i: int| 0 <= i < y.len() && y[i] == e;
        assert((x + y)[x.len() + i] == e);
    }
    if (x + y).contains(e) {
        let i = choose|i: int| 0 <= i < (x + y).len() && (x + y)[i] == e;
        if i < x.len() {
            assert(x[i] == e);
        } else {
            assert(y[i - x.len()] == e);
        }
    }
}

/// The edges are symmetric: where a tree adds an edge to `b` with weight
/// `w` to the list of region `a`, it adds an edge to `a` with the same
/// weight to the list of region `b`.
pub proof fn lemma_edges_symmetric(
    q: Quad,
    base: int,
    centers: Map<usize, Center>,
    a: usize,
    b: usize,
    w: u64,
)
    requires
        0 <= base,
        base + free_centers(q).len() <= usize::MAX,
        added_edges(q, base, a as int, centers).contains((b, w)),
    ensures
        added_edges(q, base, b as int, centers).contains((a, w)),
    decreases q,
{
    match q {
        Quad::Split(nw, ne, sw, se) => {
            lemma_split_count(q);
            let b1 = base + free_centers(*nw).len();
            let b2 = b1 + free_centers(*ne).len();
            let b3 = b2 + free_centers(*sw).len();
            let b4 = b3 + free_centers(*se).len();
            let e = (b, w);
            let r = (a, w);
            let out_nw = added_edges(*nw, base, a as int, centers);
            let out_ne = added_edges(*ne, b1, a as int, centers);
            let out_sw = added_edges(*sw, b2, a as int, centers);
            let out_se = added_edges(*se, b3, a as int, centers);
            let out_fan = fan(a as int, base, b4, centers);
            let back_nw = added_edges(*nw, base, b as int, centers);
            let back_ne = added_edges(*ne, b1, b as int, centers);
            let back_sw = added_edges(*sw, b2, b as int, centers);
            let back_se = added_edges(*se, b3, b as int, centers);
            let back_fan = fan(b as int, base, b4, centers);
            lemma_contains_join(out_nw, out_ne, e);
            lemma_contains_join(out_nw + out_ne, out_sw, e);
            lemma_contains_join(out_nw + out_ne + out_sw, out_se, e);
            lemma_contains_join(out_nw + out_ne + out_sw + out_se, out_fan, e);
            lemma_contains_join(back_nw, back_ne, r);
            lemma_contains_join(back_nw + back_ne, back_sw, r);
            lemma_contains_join(back_nw + back_ne + back_sw, back_se, r);
            lemma_contains_join(back_nw + back_ne + back_sw + back_se, back_fan, r);
            if out_nw.contains(e) {
                lemma_edges_symmetric(*nw, base, centers, a, b, w);
            } else if out_ne.contains(e) {
                lemma_edges_symmetric(*ne, b1, centers, a, b, w);
            } else if out_sw.contains(e) {
                lemma_edges_symmetric(*sw, b2, centers, a, b, w);
            } else if out_se.contains(e) {
                lemma_edges_symmetric(*se, b3, centers, a, b, w);
            } else {
                let j = choose|j: int| 0 <= j < out_fan.len() && out_fan[j] == e;
                assert(b == other_region(a as int, base, j));
                let back = if a < b {
                    a - base
                } else {
                    a - base - 1
                };
                crate::distance::lemma_distance_symmetric(centers[a], centers[b]);
                assert(back_fan[back] == r);
            }
        },
        _ => {},
    }
}

/// Adding the edges of a tree to a graph keeps every edge within the
/// graph, and keeps the graph undirected.
pub proof fn lemma_extension_is_graph(
    g0: Seq<Seq<(usize, u64)>>,
    g1: Seq<Seq<(usize, u64)>>,
    q: Quad,
    base: int,
    centers: Map<usize, Center>,
)
    requires
        0 <= base,
        base + free_centers(q).len() <= g0.len() <= usize::MAX,
        extends_by(g0, g1, q, base, centers),
    ensures
        edges_in_range(g0) ==> edges_in_range(g1),
        symmetric(g0) ==> symmetric(g1),
{
    if edges_in_range(g0) {
        assert forall|u: int, k: int| 0 <= u < g1.len() && 0 <= k < g1[u].len() implies (#[trigger] g1[u][k]).0
            < g1.len() by {
            assert(g1[u] == g0[u] + added_edges(q, base, u, centers));
            if k < g0[u].len() {
                assert(g1[u][k] == g0[u][k]);
            } else {
                lemma_added_edge(q, base, u, centers, k - g0[u].len());
            }
        }
    }
    if symmetric(g0) {
        assert forall|a: int, k: int| 0 <= a < g1.len() && 0 <= k < g1[a].len() implies (#[trigger] g1[a][k]).0
            < g1.len() && g1[g1[a][k].0 as int].contains((a as usize, g1[a][k].1)) by {
            let e = g1[a][k];
            let r = (a as usize, e.1);
            assert(g1[a] == g0[a] + added_edges(q, base, a, centers));
            if k < g0[a].len() {
                assert(e == g0[a][k]);
                let b = e.0 as int;
                assert(g1[b] == g0[b] + added_edges(q, base, b, centers));
                lemma_contains_join(g0[b], added_edges(q, base, b, centers), r);
            } else {
                let j = k - g0[a].len();
                lemma_added_edge(q, base, a, centers, j);
                let b = e.0 as int;
                assert(added_edges(q, base, a, centers)[j] == e);
                lemma_edges_symmetric(q, base, centers, a as usize, e.0, e.1);
                assert(g1[b] == g0[b] + added_edges(q, base, b, centers));
                lemma_contains_join(g0[b], added_edges(q, base, b, centers), r);
            }
        }
    }
}

/// The two passes over a tree agree on the identifiers. When the table is
/// filled from `base` and the graph is built from `base`, an edge in the
/// list of region `a` joins the free leaf number `a - base` to another free
/// leaf of the tree, the table holds the centers of just these two leaves
/// under the two identifiers, and the weight is the distance between them.
pub proof fn lemma_passes_agree(q: Quad, base: usize, m: Map<usize, Center>, a: int, k: int)
    requires
        base + free_centers(q).len() <= usize::MAX,
        0 <= k < added_edges(q, base as int, a, table_with(m, base as int, free_centers(q))).len(),
    ensures
        ({
            let cs = free_centers(q);
            let table = table_with(m, base as int, cs);
            let e = added_edges(q, base as int, a, table)[k];
            &&& base <= a < base + cs.len()
            &&& base <= e.0 < base + cs.len()
            &&& e.0 != a
            &&& table[a as usize] == cs[a - base]
            &&& table[e.0] == cs[e.0 - base]
            &&& e.1 == spec_distance(cs[a - base], cs[e.0 - base])
        }),
{
    let cs = free_centers(q);
    let table = table_with(m, base as int, cs);
    lemma_added_edge(q, base as int, a, table, k);
    let e = added_edges(q, base as int, a, table)[k];
    crate::regions::lemma_free_centers_in_range(q);
    assert(cs[a - base].in_range());
    assert(cs[e.0 - base].in_range());
    crate::distance::lemma_distance_fits(cs[a - base], cs[e.0 - base]);
}

/// A run of identifiers followed by the run that starts where it ends is
/// one run.
proof fn lemma_id_run_join(base: int, n: nat, m: nat)
    ensures
        id_run(base, n) + id_run(base + n, m) == id_run(base, n + m),
{
    assert(id_run(base, n) + id_run(base + n, m) =~= id_run(base, n + m));
}

/// The list of region `a` after a split node: the lists after each of its
/// quadrants and after its own pair loop, put together.
proof fn lemma_split_edges(
    q: Quad,
    base: int,
    a: int,
    centers: Map<usize, Center>,
    s0: Seq<(usize, u64)>,
    s1: Seq<(usize, u64)>,
    s2: Seq<(usize, u64)>,
    s3: Seq<(usize, u64)>,
    s4: Seq<(usize, u64)>,
    s5: Seq<(usize, u64)>,
)
    requires
        q is Split,
        s1 == s0 + added_edges(q.child(0), base, a, centers),
        s2 == s1 + added_edges(q.child(1), base + free_centers(q.child(0)).len(), a, centers),
        s3 == s2 + added_edges(
            q.child(2),
            base + free_centers(q.child(0)).len() + free_centers(q.child(1)).len(),
            a,
            centers,
        ),
        s4 == s3 + added_edges(
            q.child(3),
            base + free_centers(q.child(0)).len() + free_centers(q.child(1)).len() + free_centers(
                q.child(2),
            ).len(),
            a,
            centers,
        ),
        s5 == s4 + fan(a, base, base + free_centers(q).len(), centers),
    ensures
        s5 == s0 + added_edges(q, base, a, centers),
{
    lemma_split_count(q);
    assert(s5 =~= s0 + added_edges(q, base, a, centers));
}

/// How far the pair loop has filled the list of the `p`-th region when
/// it stands at the pair `(i, j)` of `n` regions.
spec fn filled(p: int, i: int, j: int, n: int) -> int {
    if p < i {
        n - 1
    } else if p == i {
        j - 1
    } else if p < j {
        i + 1
    } else {
        i
    }
}

/// Joins every pair of the regions `lo..lo + ids.len()` in both directions.
fn connect_all(
    ids: &Vec<usize>,
    graph: &mut Vec<Vec<(usize, u64)>>,
    centers: &HashMap<usize, Center>,
    Ghost(lo): Ghost<int>,
)
    requires
        ids@ == id_run(lo, ids@.len()),
        0 <= lo,
        lo + ids@.len() <= old(graph)@.len(),
        has_centers(centers@, lo, lo + ids@.len()),
    ensures
        final(graph)@.len() == old(graph)@.len(),
        forall|a: int|
            0 <= a < old(graph)@.len() ==> (#[trigger] final(graph)@[a])@ == old(graph)@[a]@ + fan(
                a,
                lo,
                lo + ids@.len(),
                centers@,
            ),
{
    let n: usize = ids.len();
    let total: usize = graph.len();
    let ghost g0 = graph@;
    let ghost hi = lo + n;
    let mut i: usize = 0;
    while i < n
        invariant
            n == ids@.len(),
            g0.len() == total,
            hi == lo + n,
            ids@ == id_run(lo, ids@.len()),
            0 <= lo,
            hi <= g0.len(),
            has_centers(centers@, lo, hi),
            i <= n,
            graph@.len() == g0.len(),
            forall|a: int| 0 <= a < g0.len() && !(lo <= a < hi) ==> #[trigger] graph@[a] == g0[a],
            forall|a: int|
                lo <= a < hi ==> (#[trigger] graph@[a])@ == g0[a]@ + fan(a, lo, hi, centers@).take(
                    if a - lo < i {
                        n - 1
                    } else {
                        i as int
                    },
                ),
        decreases n - i,
    {
        let mut j: usize = i + 1;
        while j < n
            invariant
                n == ids@.len(),
                g0.len() == total,
                hi == lo + n,
                ids@ == id_run(lo, ids@.len()),
                0 <= lo,
                hi <= g0.len(),
                has_centers(centers@, lo, hi),
                i < n,
                i + 1 <= j <= n,
                graph@.len() == g0.len(),
                forall|a: int|
                    0 <= a < g0.len() && !(lo <= a < hi) ==> #[trigger] graph@[a] == g0[a],
                forall|a: int|
                    lo <= a < hi ==> (#[trigger] graph@[a])@ == g0[a]@ + fan(
                        a,
                        lo,
                        hi,
                        centers@,
                    ).take(filled(a - lo, i as int, j as int, n as int)),
            decreases n - j,
        {
            let id1: usize = ids[i];
            let id2: usize = ids[j];
            assert(ids@[i as int] == id_run(lo, ids@.len())[i as int]);
            assert(ids@[j as int] == id_run(lo, ids@.len())[j as int]);
            assert(id1 == lo + i && id2 == lo + j);
            assert(has_center(centers@, id1) && has_center(centers@, id2));
            let c1 = centers.get(&id1);
            let c2 = centers.get(&id2);
            match (c1, c2) {
                (Some(c1), Some(c2)) => {
                    let dist: u64 = distance(c1, c2);
                    let ghost g1 = graph@;
                    graph[id1].push((id2, dist));
                    graph[id2].push((id1, dist));
                    proof {
                        crate::distance::lemma_distance_symmetric(*c1, *c2);
                        let f1 = fan(id1 as int, lo, hi, centers@);
                        let f2 = fan(id2 as int, lo, hi, centers@);
                        assert(f1[j - 1] == (id2, dist));
                        assert(f2[i as int] == (id1, dist));
                        assert(f1.take(j - 1).push((id2, dist)) =~= f1.take(j as int));
                        assert(f2.take(i as int).push((id1, dist)) =~= f2.take(i + 1));
                        assert(graph@[id1 as int]@ =~= g0[id1 as int]@ + f1.take(j as int));
                        assert(graph@[id2 as int]@ =~= g0[id2 as int]@ + f2.take(i + 1));
                        assert forall|a: int| lo <= a < hi implies (#[trigger] graph@[a])@ == g0[a]@
                            + fan(a, lo, hi, centers@).take(
                            filled(a - lo, i as int, j + 1, n as int),
                        ) by {
                            if a != id1 && a != id2 {
                                assert(graph@[a] == g1[a]);
                            }
                        }
                    }
                },
                _ => {},
            }
            j += 1;
        }
        i += 1;
    }
    proof {
        assert forall|a: int| 0 <= a < g0.len() implies (#[trigger] graph@[a])@ == g0[a]@ + fan(
            a,
            lo,
            hi,
            centers@,
        ) by {
            if lo <= a < hi {
                assert(fan(a, lo, hi, centers@).take(n - 1) =~= fan(a, lo, hi, centers@));
            } else {
                assert(g0[a]@ + fan(a, lo, hi, centers@) =~= g0[a]@);
            }
        }
    }
}

/// Walks `quad` in traversal order, gives every free leaf the next
/// identifier from `*id`, and returns the identifiers of the subtree. At
/// every split node, once its quadrants are done, every pair of regions
/// of its subtree is joined in both directions by an edge weighted with
/// the distance between their centers. Two regions under several nested
/// split nodes are thus joined once at each of them.
pub fn build_graph(
    quad: &Quad,
    id: &mut usize,
    graph: &mut Vec<Vec<(usize, u64)>>,
    centers: &HashMap<usize, Center>,
) -> (ids: Vec<usize>)
    requires
        *old(id) + free_centers(*quad).len() <= old(graph)@.len(),
        has_centers(centers@, *old(id) as int, *old(id) + free_centers(*quad).len()),
    ensures
        *final(id) == *old(id) + free_centers(*quad).len(),
        ids@ == id_run(*old(id) as int, free_centers(*quad).len()),
        final(graph)@.len() == old(graph)@.len(),
        forall|a: int|
            0 <= a < old(graph)@.len() ==> (#[trigger] final(graph)@[a])@ == old(graph)@[a]@
                + added_edges(*quad, *old(id) as int, a, centers@),
        edges_in_range(adjacency(old(graph)@)) ==> edges_in_range(adjacency(final(graph)@)),
        symmetric(adjacency(old(graph)@)) ==> symmetric(adjacency(final(graph)@)),
    decreases *quad,
{
    let ghost g0 = graph@;
    let ghost base = *id as int;
    let total: usize = graph.len();
    let ids = match quad {
        Quad::Free(_, _, _) => {
            let current: usize = *id;
            *id += 1;
            let ids = vec![current];
            proof {
                assert(ids@ =~= id_run(base, 1));
                assert forall|a: int| 0 <= a < g0.len() implies (#[trigger] graph@[a])@ == g0[a]@
                    + added_edges(*quad, base, a, centers@) by {
                    assert(g0[a]@ + Seq::<(usize, u64)>::empty() =~= g0[a]@);
                }
            }
            ids
        },
        Quad::Split(nw, ne, sw, se) => {
            let ghost b1 = base + free_centers(**nw).len();
            let ghost b2 = b1 + free_centers(**ne).len();
            let ghost b3 = b2 + free_centers(**sw).len();
            let ghost b4 = b3 + free_centers(**se).len();
            proof {
                lemma_split_count(*quad);
                assert(has_centers(centers@, base, b1));
                assert(has_centers(centers@, b1, b2));
                assert(has_centers(centers@, b2, b3));
                assert(has_centers(centers@, b3, b4));
            }
            let mut ids: Vec<usize> = Vec::new();
            assert(ids@ =~= id_run(base, 0));
            let mut part = build_graph(nw, id, graph, centers);
            ids.append(&mut part);
            let ghost g1 = graph@;
            proof {
                lemma_id_run_join(base, 0, free_centers(**nw).len());
            }
            let mut part = build_graph(ne, id, graph, centers);
            ids.append(&mut part);
            let ghost g2 = graph@;
            proof {
                lemma_id_run_join(base, (b1 - base) as nat, free_centers(**ne).len());
            }
            let mut part = build_graph(sw, id, graph, centers);
            ids.append(&mut part);
            let ghost g3 = graph@;
            proof {
                lemma_id_run_join(base, (b2 - base) as nat, free_centers(**sw).len());
            }
            let mut part = build_graph(se, id, graph, centers);
            ids.append(&mut part);
            let ghost g4 = graph@;
            proof {
                lemma_id_run_join(base, (b3 - base) as nat, free_centers(**se).len());
            }
            connect_all(&ids, graph, centers, Ghost(base));
            proof {
                assert forall|a: int| 0 <= a < g0.len() implies (#[trigger] graph@[a])@ == g0[a]@
                    + added_edges(*quad, base, a, centers@) by {
                    lemma_split_edges(
                        *quad,
                        base,
                        a,
                        centers@,
                        g0[a]@,
                        g1[a]@,
                        g2[a]@,
                        g3[a]@,
                        g4[a]@,
                        graph@[a]@,
                    );
                }
            }
            ids
        },
        Quad::Blocked => {
            let ids: Vec<usize> = Vec::new();
            proof {
                assert(ids@ =~= id_run(base, 0));
                assert forall|a: int| 0 <= a < g0.len() implies (#[trigger] graph@[a])@ == g0[a]@
                    + added_edges(*quad, base, a, centers@) by {
                    assert(g0[a]@ + Seq::<(usize, u64)>::empty() =~= g0[a]@);
                }
            }
            ids
        },
    };
    proof {
        assert(extends_by(adjacency(g0), adjacency(graph@), *quad, base, centers@));
        lemma_extension_is_graph(adjacency(g0), adjacency(graph@), *quad, base, centers@);
    }
    ids
}

} // verus!

//! The whole computation: from obstacles and two query points to the cost
//! of the shortest route between the regions nearest to them.

use std::collections::HashMap;
use vstd::prelude::*;
use crate::dijkstra::{dijkstra, is_least_cost, is_walk, joined_within, walk_cost};
use crate::distance::Center;
use crate::geometry::Rect;
use crate::graph::{
    added_edges, adjacency, build_graph, edges_in_range, fan, has_center, has_centers, symmetric,
};
use crate::quadtree::{build_quad, is_pow2, spec_decompose, Quad};
use crate::regions::{collect_free, find_nearest, free_centers, query_gap, table_with};

verus! {

broadcast use vstd::std_specs::hash::group_hash_axioms;

/// Why no route could be looked for.
#[derive(Clone, Copy, Debug, PartialEq, Eq, Structural)]
pub enum RouteError {
    /// The grid side is not a power of two.
    GridNotPowerOfTwo,
    /// The grid has more cells than identifiers can count.
    GridTooLarge,
    /// Obstacles leave no free region.
    NoFreeRegion,
}

/// What was found for one grid and one pair of query points.
#[derive(Clone, Copy, Debug, PartialEq, Eq, Structural)]
pub struct Route {
    /// How many free regions the grid has.
    pub regions: usize,
    /// The region nearest to the first query point.
    pub start: usize,
    /// The region nearest to the second query point.
    pub goal: usize,
    /// The least cost of a path from `start` to `goal`, or `None` where
    /// there is no path. Between two regions of one grid there always is
    /// one, at a cost that a `u64` holds.
    pub cost: Option<u64>,
}

/// The region table of a tree whose first free leaf is region zero.
pub open spec fn region_table(q: Quad) -> Map<usize, Center> {
    table_with(Map::empty(), 0, free_centers(q))
}

/// The proximity graph of a tree whose first free leaf is region zero.
pub open spec fn region_graph(q: Quad) -> Seq<Seq<(usize, u64)>> {
    Seq::new(free_centers(q).len(), |a: int| added_edges(q, 0, a, region_table(q)))
}

/// Region `id` is in the table, and no center is nearer to `(x, y)` than
/// its center.
pub open spec fn is_nearest(table: Map<usize, Center>, x: int, y: int, id: usize) -> bool {
    &&& table.dom().contains(id)
    &&& forall|k: usize|
        table.dom().contains(k) ==> query_gap(x, y, table[id]) <= query_gap(x, y, #[trigger] table[k])
}

/// Any two regions of a tree are joined by a walk whose cost a `u64`
/// holds: a region reaches itself at no cost, and a tree with two regions
/// or more has a split node at its root, which joins every pair of them
/// by an edge.
pub proof fn lemma_regions_joined(q: Quad, a: int, b: int)
    requires
        free_centers(q).len() <= usize::MAX,
        0 <= a < free_centers(q).len(),
        0 <= b < free_centers(q).len(),
    ensures
        joined_within(region_graph(q), a, b, u64::MAX as nat),
{
    let g = region_graph(q);
    if a == b {
        let w = Seq::<(int, int)>::empty();
        assert(is_walk(g, a, w, b));
        assert(walk_cost(g, w) == 0);
    } else {
        let n = free_centers(q).len() as int;
        let list = added_edges(q, 0, a, region_table(q));
        let spokes = fan(a, 0, n, region_table(q));
        let j = if b < a {
            b
        } else {
            b - 1
        };
        let k = list.len() - spokes.len() + j;
        assert(list[k] == spokes[j]);
        assert(g[a][k].0 == b);
        let w = seq![(a, k)];
        assert(w.drop_last() =~= Seq::<(int, int)>::empty());
        assert(is_walk(g, a, w.drop_last(), a));
        assert(is_walk(g, a, w, b));
        assert(walk_cost(g, w) == walk_cost(g, w.drop_last()) + g[a][k].1 as nat);
        assert(walk_cost(g, w) <= u64::MAX);
    }
}

/// Whether `n` is a power of two.
pub fn is_power_of_two(n: i32) -> (b: bool)
    ensures
        b == is_pow2(n as int),
{
    let mut m: i32 = n;
    while m > 1 && m % 2 == 0
        invariant
            is_pow2(m as int) == is_pow2(n as int),
        decreases m,
    {
        m = m / 2;
    }
    m == 1
}

/// Decomposes the grid of side `size` with origin `(0, 0)`, numbers its
/// free regions, joins them into the proximity graph, and searches the
/// least cost between the regions nearest to `(from_x, from_y)` and to
/// `(to_x, to_y)`.
pub fn plan_route(
    obstacles: &[Rect],
    size: i32,
    from_x: i32,
    from_y: i32,
    to_x: i32,
    to_y: i32,
) -> (r: Result<Route, RouteError>)
    ensures
        r == Err::<Route, RouteError>(RouteError::GridNotPowerOfTwo) <==> !is_pow2(size as int),
        r == Err::<Route, RouteError>(RouteError::GridTooLarge) <==> is_pow2(size as int) && size
            * size > usize::MAX,
        r == Err::<Route, RouteError>(RouteError::NoFreeRegion) <==> is_pow2(size as int) && size
            * size <= usize::MAX && free_centers(spec_decompose(obstacles@, 0, 0, size as int)).len()
            == 0,
        r matches Ok(route) ==> ({
            let q = spec_decompose(obstacles@, 0, 0, size as int);
            &&& route.regions == free_centers(q).len()
            &&& is_nearest(region_table(q), from_x as int, from_y as int, route.start)
            &&& is_nearest(region_table(q), to_x as int, to_y as int, route.goal)
            &&& symmetric(region_graph(q))
            &&& route.cost matches Some(d) && is_least_cost(
                region_graph(q),
                route.start as int,
                route.goal as int,
                d as nat,
            )
        }),
{
    if !is_power_of_two(size) {
        return Err(RouteError::GridNotPowerOfTwo);
    }
    assert(0 <= size * size <= 0x4000_0000_0000_0000) by (nonlinear_arith)
        requires
            1 <= size <= 0x7fff_ffff,
    ;
    let cells: u64 = (size as u64) * (size as u64);
    if cells > usize::MAX as u64 {
        return Err(RouteError::GridTooLarge);
    }
    let quad = build_quad(obstacles, 0, 0, size);
    proof {
        crate::regions::lemma_free_count_bound(quad, 0, 0, size as int);
        crate::regions::lemma_free_centers_in_range(quad);
    }
    let mut centers: HashMap<usize, Center> = HashMap::new();
    let mut id: usize = 0;
    collect_free(&quad, &mut id, &mut centers);
    let regions: usize = id;
    if regions == 0 {
        return Err(RouteError::NoFreeRegion);
    }
    let mut graph: Vec<Vec<(usize, u64)>> = Vec::new();
    while graph.len() < regions
        invariant
            graph@.len() <= regions,
            forall|a: int| 0 <= a < graph@.len() ==> (#[trigger] graph@[a])@ == Seq::<(usize, u64)>::empty(),
        decreases regions - graph@.len(),
    {
        graph.push(Vec::new());
    }
    let ghost g0 = graph@;
    proof {
        assert forall|k: usize| 0 <= k < regions implies #[trigger] has_center(centers@, k) by {
            assert(centers@[k] == free_centers(quad)[k as int]);
        }
        assert(has_centers(centers@, 0, regions as int));
        assert(edges_in_range(adjacency(g0)));
        assert(symmetric(adjacency(g0)));
    }
    let mut id: usize = 0;
    let _ = build_graph(&quad, &mut id, &mut graph, &centers);
    assert(adjacency(graph@) =~= region_graph(quad));
    let found_start = find_nearest(from_x, from_y, &centers);
    let found_goal = find_nearest(to_x, to_y, &centers);
    proof {
        assert(centers@.dom().contains(0usize));
    }
    match (found_start, found_goal) {
        (Some(start), Some(goal)) => {
            proof {
                lemma_regions_joined(quad, start as int, goal as int);
            }
            let cost = match dijkstra(graph.as_slice(), start, goal) {
                Some(d) => Some(d as u64),
                None => None,
            };
            Ok(Route { regions, start, goal, cost })
        },
        _ => Err(RouteError::NoFreeRegion),
    }
}

} // verus!

//! The region table: an identifier for every free leaf of a decomposition,
//! and the center of each.

use std::collections::HashMap;
use vstd::prelude::*;
use crate::distance::{center_of, square_gap, Center};
use crate::quadtree::Quad;

verus! {

broadcast use vstd::std_specs::hash::group_hash_axioms;

/// Centers of the free leaves of a tree in traversal order: depth first,
/// quadrants taken north-west, north-east, south-west, south-east.
pub open spec fn free_centers(q: Quad) -> Seq<Center>
    decreases q,
{
    match q {
        Quad::Free(x, y, s) => seq![center_of(x as int, y as int, s as int)],
        Quad::Blocked => Seq::empty(),
        Quad::Split(nw, ne, sw, se) => free_centers(*nw) + free_centers(*ne) + free_centers(*sw)
            + free_centers(*se),
    }
}

/// The table `m` after the centers `cs` were entered under the consecutive
/// identifiers `base`, `base + 1`, and so on.
pub open spec fn table_with(m: Map<usize, Center>, base: int, cs: Seq<Center>) -> Map<
    usize,
    Center,
> {
    Map::new(
        |k: usize| m.dom().contains(k) || base <= k < base + cs.len(),
        |k: usize|
            if base <= k < base + cs.len() {
                cs[k - base]
            } else {
                m[k]
            },
    )
}

/// Squared distance from the cell corner `(x, y)` to a center, in squared
/// half cells.
pub open spec fn query_gap(x: int, y: int, c: Center) -> nat {
    square_gap(2 * x, 2 * y, c.x2 as int, c.y2 as int)
}

/// Every center of a tree is within the range of the distance arithmetic.
pub proof fn lemma_free_centers_in_range(q: Quad)
    ensures
        forall|k: int| 0 <= k < free_centers(q).len() ==> (#[trigger] free_centers(q)[k]).in_range(),
    decreases q,
{
    match q {
        Quad::Split(nw, ne, sw, se) => {
            lemma_free_centers_in_range(*nw);
            lemma_free_centers_in_range(*ne);
            lemma_free_centers_in_range(*sw);
            lemma_free_centers_in_range(*se);
            let a = free_centers(*nw);
            let b = free_centers(*ne);
            let c = free_centers(*sw);
            let d = free_centers(*se);
            assert forall|k: int| 0 <= k < free_centers(q).len() implies (#[trigger] free_centers(
                q,
            )[k]).in_range() by {
                if k < a.len() {
                    assert(free_centers(q)[k] == a[k]);
                } else if k < a.len() + b.len() {
                    assert(free_centers(q)[k] == b[k - a.len()]);
                } else if k < a.len() + b.len() + c.len() {
                    assert(free_centers(q)[k] == c[k - a.len() - b.len()]);
                } else {
                    assert(free_centers(q)[k] == d[k - a.len() - b.len() - c.len()]);
                }
            }
        },
        _ => {},
    }
}

/// A decomposition of a square has at most as many free leaves as the
/// square has cells.
pub proof fn lemma_free_count_bound(q: Quad, x: int, y: int, size: int)
    requires
        q.tiles(x, y, size),
    ensures
        free_centers(q).len() <= size * size,
    decreases q,
{
    match q {
        Quad::Split(nw, ne, sw, se) => {
            let h = size / 2;
            lemma_free_count_bound(*nw, x, y + h, h);
            lemma_free_count_bound(*ne, x + h, y + h, h);
            lemma_free_count_bound(*sw, x, y, h);
            lemma_free_count_bound(*se, x + h, y, h);
            assert(4 * (h * h) == size * size) by (nonlinear_arith)
                requires
                    size == 2 * h,
            ;
        },
        _ => {
            assert(1 <= size * size) by (nonlinear_arith)
                requires
                    size >= 1,
            ;
        },
    }
}

/// Enters the center of every free leaf of `quad` into `map`, in traversal
/// order, under consecutive identifiers that start at `*id`, and leaves
/// `*id` at the next unused identifier.
pub fn collect_free(quad: &Quad, id: &mut usize, map: &mut HashMap<usize, Center>)
    requires
        *old(id) + free_centers(*quad).len() <= usize::MAX,
    ensures
        *final(id) == *old(id) + free_centers(*quad).len(),
        final(map)@ == table_with(old(map)@, *old(id) as int, free_centers(*quad)),
    decreases *quad,
{
    match quad {
        Quad::Free(x, y, s) => {
            let c = Center { x2: 2 * (*x as i64) + (*s as i64), y2: 2 * (*y as i64) + (*s as i64) };
            map.insert(*id, c);
            *id += 1;
            assert(map@ =~= table_with(old(map)@, *old(id) as int, free_centers(*quad)));
        },
        Quad::Split(nw, ne, sw, se) => {
            let ghost m0 = map@;
            let ghost b0 = *id as int;
            collect_free(nw, id, map);
            collect_free(ne, id, map);
            collect_free(sw, id, map);
            collect_free(se, id, map);
            assert(map@ =~= table_with(m0, b0, free_centers(*quad)));
        },
        Quad::Blocked => {
            assert(map@ =~= table_with(old(map)@, *old(id) as int, free_centers(*quad)));
        },
    }
}

/// Squared distance from `(x, y)` to `c`, in squared half cells.
fn gap_to(x: i32, y: i32, c: &Center) -> (g: u128)
    ensures
        g == query_gap(x as int, y as int, *c),
{
    let dx: i128 = 2 * (x as i128) - (c.x2 as i128);
    let dy: i128 = 2 * (y as i128) - (c.y2 as i128);
    assert(0 <= dx * dx <= 85_070_591_809_462_778_398_554_733_525_195_554_816) by (nonlinear_arith)
        requires
            -9_223_372_041_149_743_104 <= dx <= 9_223_372_041_149_743_104,
    ;
    assert(0 <= dy * dy <= 85_070_591_809_462_778_398_554_733_525_195_554_816) by (nonlinear_arith)
        requires
            -9_223_372_041_149_743_104 <= dy <= 9_223_372_041_149_743_104,
    ;
    (dx * dx) as u128 + (dy * dy) as u128
}

/// The identifier of the region whose center is nearest to `(x, y)`, or
/// `None` when the table is empty. Where several centers are equally near,
/// any one of them may be returned.
pub fn find_nearest(x: i32, y: i32, centers: &HashMap<usize, Center>) -> (r: Option<usize>)
    ensures
        r is None <==> centers@.dom().len() == 0,
        r matches Some(id) ==> centers@.dom().contains(id) && forall|k: usize|
            centers@.dom().contains(k) ==> query_gap(x as int, y as int, centers@[id]) <= query_gap(
                x as int,
                y as int,
                #[trigger] centers@[k],
            ),
{
    let mut best: Option<(usize, u128)> = None;
    for k in it: centers.keys()
        invariant
            best is None <==> it.index() == 0,
            best matches Some((id, g)) ==> centers@.dom().contains(id) && g == query_gap(
                x as int,
                y as int,
                centers@[id],
            ) && forall|j: int|
                0 <= j < it.index() ==> g <= query_gap(
                    x as int,
                    y as int,
                    centers@[*#[trigger] it.seq()[j]],
                ),
    {
        let c = centers.get(k);
        match c {
            Some(c) => {
                let g = gap_to(x, y, c);
                match best {
                    Some((_, bg)) => {
                        if g < bg {
                            best = Some((*k, g));
                        }
                    },
                    None => {
                        best = Some((*k, g));
                    },
                }
            },
            None => {},
        }
    }
    match best {
        Some((id, _)) => Some(id),
        None => None,
    }
}

} // verus!

//! Recursive decomposition of a square grid into free and blocked squares.

use vstd::prelude::*;
use crate::geometry::{covers, intersects, spec_covers, spec_intersects, Rect};

verus! {

/// A node of the decomposition. A `Split` node owns its four quadrants in
/// the order north-west, north-east, south-west, south-east.
#[derive(Debug)]
pub enum Quad {
    /// An unobstructed square: origin `x`, `y` and side length.
    Free(i32, i32, i32),
    /// A square that no path may enter.
    Blocked,
    /// A partly obstructed square, cut into four quadrants of half its side.
    Split(Box<Quad>, Box<Quad>, Box<Quad>, Box<Quad>),
}

/// `n` is a power of two: it can be halved evenly down to one.
pub open spec fn is_pow2(n: int) -> bool
    decreases n,
{
    n == 1 || (n > 1 && n % 2 == 0 && is_pow2(n / 2))
}

/// Some obstacle intersects the square `(x, y, size)`.
pub open spec fn any_intersects(obs: Seq<Rect>, x: int, y: int, size: int) -> bool {
    exists|i: int| 0 <= i < obs.len() && spec_intersects(#[trigger] obs[i], x, y, size)
}

/// Some single obstacle covers the square `(x, y, size)` entirely.
pub open spec fn any_covers(obs: Seq<Rect>, x: int, y: int, size: int) -> bool {
    exists|i: int| 0 <= i < obs.len() && spec_covers(#[trigger] obs[i], x, y, size)
}

/// The cell `(px, py)` lies in the square `(x, y, size)`.
pub open spec fn in_square(px: int, py: int, x: int, y: int, size: int) -> bool {
    x <= px < x + size && y <= py < y + size
}

/// Origin of quadrant `k` of the square at `(x, y)` whose half side is `h`,
/// in the order north-west, north-east, south-west, south-east.
pub open spec fn quadrant_origin(k: int, x: int, y: int, h: int) -> (int, int) {
    if k == 0 {
        (x, y + h)
    } else if k == 1 {
        (x + h, y + h)
    } else if k == 2 {
        (x, y)
    } else {
        (x + h, y)
    }
}

/// The cell `(px, py)` lies in quadrant `k` of the square at `(x, y)` whose
/// half side is `h`.
pub open spec fn in_quadrant(k: int, px: int, py: int, x: int, y: int, h: int) -> bool {
    in_square(px, py, quadrant_origin(k, x, y, h).0, quadrant_origin(k, x, y, h).1, h)
}

/// The decomposition of the square `(x, y, size)` under the obstacles `obs`.
pub open spec fn spec_decompose(obs: Seq<Rect>, x: int, y: int, size: int) -> Quad
    decreases size,
{
    if size <= 1 {
        if any_intersects(obs, x, y, size) {
            Quad::Blocked
        } else {
            Quad::Free(x as i32, y as i32, size as i32)
        }
    } else if any_covers(obs, x, y, size) {
        Quad::Blocked
    } else if !any_intersects(obs, x, y, size) {
        Quad::Free(x as i32, y as i32, size as i32)
    } else {
        let h = size / 2;
        Quad::Split(
            Box::new(spec_decompose(obs, x, y + h, h)),
            Box::new(spec_decompose(obs, x + h, y + h, h)),
            Box::new(spec_decompose(obs, x, y, h)),
            Box::new(spec_decompose(obs, x + h, y, h)),
        )
    }
}

impl Clone for Quad {
    /// A copy of the whole tree.
    fn clone(&self) -> (q: Quad)
        ensures
            q == *self,
        decreases *self,
    {
        match self {
            Quad::Free(x, y, s) => Quad::Free(*x, *y, *s),
            Quad::Blocked => Quad::Blocked,
            Quad::Split(nw, ne, sw, se) => Quad::Split(
                Box::new((**nw).clone()),
                Box::new((**ne).clone()),
                Box::new((**sw).clone()),
                Box::new((**se).clone()),
            ),
        }
    }
}

impl Quad {
    /// Quadrant `k` of a `Split` node.
    pub open spec fn child(self, k: int) -> Quad
        recommends
            self is Split,
            0 <= k < 4,
    {
        match self {
            Quad::Split(nw, ne, sw, se) => if k == 0 {
                *nw
            } else if k == 1 {
                *ne
            } else if k == 2 {
                *sw
            } else {
                *se
            },
            _ => self,
        }
    }

    /// Every free leaf of a tree over the square `(x, y, size)` records the
    /// square it stands for.
    pub open spec fn labelled(self, x: int, y: int, size: int) -> bool
        decreases self,
    {
        match self {
            Quad::Free(fx, fy, fs) => fx == x && fy == y && fs == size,
            Quad::Blocked => true,
            Quad::Split(nw, ne, sw, se) => {
                let h = size / 2;
                &&& nw.labelled(x, y + h, h)
                &&& ne.labelled(x + h, y + h, h)
                &&& sw.labelled(x, y, h)
                &&& se.labelled(x + h, y, h)
            },
        }
    }

    /// The tree is a decomposition of the square `(x, y, size)`: every
    /// split node cuts its square into four quadrants of exactly half the
    /// side, down to leaves of side one or more.
    pub open spec fn tiles(self, x: int, y: int, size: int) -> bool
        decreases self,
    {
        match self {
            Quad::Free(_, _, _) => size >= 1,
            Quad::Blocked => size >= 1,
            Quad::Split(nw, ne, sw, se) => {
                let h = size / 2;
                &&& size >= 2
                &&& size == 2 * h
                &&& nw.tiles(x, y + h, h)
                &&& ne.tiles(x + h, y + h, h)
                &&& sw.tiles(x, y, h)
                &&& se.tiles(x + h, y, h)
            },
        }
    }

    /// How many leaves of a tree over the square `(x, y, size)` hold the
    /// cell `(px, py)`.
    pub open spec fn leaves_at(self, x: int, y: int, size: int, px: int, py: int) -> nat
        decreases self,
    {
        match self {
            Quad::Split(nw, ne, sw, se) => {
                let h = size / 2;
                nw.leaves_at(x, y + h, h, px, py) + ne.leaves_at(x + h, y + h, h, px, py)
                    + sw.leaves_at(x, y, h, px, py) + se.leaves_at(x + h, y, h, px, py)
            },
            _ => if in_square(px, py, x, y, size) {
                1
            } else {
                0
            },
        }
    }

    /// The cell `(px, py)` lies in a free leaf of a tree over the square
    /// `(x, y, size)`.
    pub open spec fn free_at(self, x: int, y: int, size: int, px: int, py: int) -> bool
        decreases self,
    {
        match self {
            Quad::Free(_, _, _) => in_square(px, py, x, y, size),
            Quad::Blocked => false,
            Quad::Split(nw, ne, sw, se) => {
                let h = size / 2;
                nw.free_at(x, y + h, h, px, py) || ne.free_at(x + h, y + h, h, px, py)
                    || sw.free_at(x, y, h, px, py) || se.free_at(x + h, y, h, px, py)
            },
        }
    }
}

/// A tree built over a power-of-two square is a decomposition of it.
pub proof fn lemma_decompose_tiles(obs: Seq<Rect>, x: int, y: int, size: int)
    requires
        is_pow2(size),
    ensures
        spec_decompose(obs, x, y, size).tiles(x, y, size),
    decreases size,
{
    if size > 1 && !any_covers(obs, x, y, size) && any_intersects(obs, x, y, size) {
        let h = size / 2;
        lemma_decompose_tiles(obs, x, y + h, h);
        lemma_decompose_tiles(obs, x + h, y + h, h);
        lemma_decompose_tiles(obs, x, y, h);
        lemma_decompose_tiles(obs, x + h, y, h);
    }
}

/// Where an `i32` holds the coordinates of every cell of the square, every
/// free leaf of the tree built over it records the square it stands for.
pub proof fn lemma_decompose_labelled(obs: Seq<Rect>, x: int, y: int, size: int)
    requires
        is_pow2(size),
        size <= i32::MAX,
        i32::MIN <= x,
        i32::MIN <= y,
        x + size - 1 <= i32::MAX,
        y + size - 1 <= i32::MAX,
    ensures
        spec_decompose(obs, x, y, size).labelled(x, y, size),
    decreases size,
{
    if size > 1 && !any_covers(obs, x, y, size) && any_intersects(obs, x, y, size) {
        let h = size / 2;
        lemma_decompose_labelled(obs, x, y + h, h);
        lemma_decompose_labelled(obs, x + h, y + h, h);
        lemma_decompose_labelled(obs, x, y, h);
        lemma_decompose_labelled(obs, x + h, y, h);
    }
}

/// The four quadrants of a split node tile its square: each has half the
/// side, every cell of the parent lies in one of them, no cell lies in
/// two, and no quadrant holds a cell from outside the parent.
pub proof fn lemma_split_tiles_parent(q: Quad, x: int, y: int, size: int)
    requires
        q is Split,
        q.tiles(x, y, size),
    ensures
        size == 2 * (size / 2),
        forall|k: int|
            0 <= k < 4 ==> (#[trigger] q.child(k)).tiles(
                quadrant_origin(k, x, y, size / 2).0,
                quadrant_origin(k, x, y, size / 2).1,
                size / 2,
            ),
        forall|px: int, py: int| #[trigger]
            in_square(px, py, x, y, size) <==> exists|k: int|
                0 <= k < 4 && #[trigger] in_quadrant(k, px, py, x, y, size / 2),
        forall|px: int, py: int, j: int, k: int|
            0 <= j < 4 && 0 <= k < 4 && #[trigger] in_quadrant(j, px, py, x, y, size / 2)
                && #[trigger] in_quadrant(k, px, py, x, y, size / 2) ==> j == k,
{
    let h = size / 2;
    assert forall|px: int, py: int| #[trigger] in_square(px, py, x, y, size) implies exists|k: int|
        0 <= k < 4 && #[trigger] in_quadrant(k, px, py, x, y, h) by {
        let k: int = if py >= y + h {
            if px < x + h {
                0
            } else {
                1
            }
        } else {
            if px < x + h {
                2
            } else {
                3
            }
        };
        assert(in_quadrant(k, px, py, x, y, h));
    }
}

/// Every cell of the square lies in exactly one leaf of a decomposition of
/// it, and a cell outside the square lies in none.
pub proof fn lemma_one_leaf_per_cell(q: Quad, x: int, y: int, size: int, px: int, py: int)
    requires
        q.tiles(x, y, size),
    ensures
        q.leaves_at(x, y, size, px, py) == (if in_square(px, py, x, y, size) {
            1nat
        } else {
            0nat
        }),
    decreases q,
{
    match q {
        Quad::Split(nw, ne, sw, se) => {
            let h = size / 2;
            lemma_one_leaf_per_cell(*nw, x, y + h, h, px, py);
            lemma_one_leaf_per_cell(*ne, x + h, y + h, h, px, py);
            lemma_one_leaf_per_cell(*sw, x, y, h, px, py);
            lemma_one_leaf_per_cell(*se, x + h, y, h, px, py);
        },
        _ => {},
    }
}

/// A cell of the grid lies in a free leaf of the decomposition exactly when
/// no obstacle intersects the cell.
pub proof fn lemma_free_iff_unobstructed(
    obs: Seq<Rect>,
    x: int,
    y: int,
    size: int,
    px: int,
    py: int,
)
    requires
        is_pow2(size),
        in_square(px, py, x, y, size),
    ensures
        spec_decompose(obs, x, y, size).free_at(x, y, size, px, py) <==> !any_intersects(
            obs,
            px,
            py,
            1,
        ),
    decreases size,
{
    if size <= 1 {
    } else if any_covers(obs, x, y, size) {
        let i = choose|i: int| 0 <= i < obs.len() && spec_covers(#[trigger] obs[i], x, y, size);
        assert(spec_intersects(obs[i], px, py, 1));
    } else if !any_intersects(obs, x, y, size) {
        if any_intersects(obs, px, py, 1) {
            let i = choose|i: int| 0 <= i < obs.len() && spec_intersects(#[trigger] obs[i], px, py, 1);
            assert(spec_intersects(obs[i], x, y, size));
        }
    } else {
        let h = size / 2;
        let cx = if px < x + h { x } else { x + h };
        let cy = if py < y + h { y } else { y + h };
        lemma_free_iff_unobstructed(obs, cx, cy, h, px, py);
        lemma_decompose_tiles_outside(obs, x, y + h, h, px, py);
        lemma_decompose_tiles_outside(obs, x + h, y + h, h, px, py);
        lemma_decompose_tiles_outside(obs, x, y, h, px, py);
        lemma_decompose_tiles_outside(obs, x + h, y, h, px, py);
    }
}

/// No leaf of a decomposition holds a cell outside its square.
proof fn lemma_decompose_tiles_outside(obs: Seq<Rect>, x: int, y: int, size: int, px: int, py: int)
    requires
        is_pow2(size),
    ensures
        !in_square(px, py, x, y, size) ==> !spec_decompose(obs, x, y, size).free_at(
            x,
            y,
            size,
            px,
            py,
        ),
    decreases size,
{
    if size > 1 && !any_covers(obs, x, y, size) && any_intersects(obs, x, y, size) {
        let h = size / 2;
        lemma_decompose_tiles_outside(obs, x, y + h, h, px, py);
        lemma_decompose_tiles_outside(obs, x + h, y + h, h, px, py);
        lemma_decompose_tiles_outside(obs, x, y, h, px, py);
        lemma_decompose_tiles_outside(obs, x + h, y, h, px, py);
    }
}

/// Whether some obstacle intersects the square.
fn some_intersects(obstacles: &[Rect], x: i32, y: i32, size: i32) -> (b: bool)
    ensures
        b == any_intersects(obstacles@, x as int, y as int, size as int),
{
    let mut i: usize = 0;
    while i < obstacles.len()
        invariant
            i <= obstacles.len(),
            forall|j: int| 0 <= j < i ==> !spec_intersects(#[trigger] obstacles@[j], x as int, y as int, size as int),
        decreases obstacles.len() - i,
    {
        if intersects(&obstacles[i], x, y, size) {
            return true;
        }
        i += 1;
    }
    false
}

/// Whether some single obstacle covers the square.
fn some_covers(obstacles: &[Rect], x: i32, y: i32, size: i32) -> (b: bool)
    ensures
        b == any_covers(obstacles@, x as int, y as int, size as int),
{
    let mut i: usize = 0;
    while i < obstacles.len()
        invariant
            i <= obstacles.len(),
            forall|j: int| 0 <= j < i ==> !spec_covers(#[trigger] obstacles@[j], x as int, y as int, size as int),
        decreases obstacles.len() - i,
    {
        if covers(&obstacles[i], x, y, size) {
            return true;
        }
        i += 1;
    }
    false
}

/// Decomposes the square with origin `(x, y)` and side `size`.
///
/// A unit square is blocked when an obstacle intersects it. A larger square
/// is blocked when one obstacle covers it, free when none intersects it,
/// and split into its four quadrants otherwise. The side must be a power
/// of two, so that halving reaches the unit square evenly, and an `i32`
/// must hold the coordinates of every cell of the square, since a free
/// leaf records its origin in one.
pub fn build_quad(obstacles: &[Rect], x: i32, y: i32, size: i32) -> (q: Quad)
    requires
        is_pow2(size as int),
        x + size - 1 <= i32::MAX,
        y + size - 1 <= i32::MAX,
    ensures
        q == spec_decompose(obstacles@, x as int, y as int, size as int),
        q.tiles(x as int, y as int, size as int),
        q.labelled(x as int, y as int, size as int),
    decreases size,
{
    proof {
        lemma_decompose_tiles(obstacles@, x as int, y as int, size as int);
        lemma_decompose_labelled(obstacles@, x as int, y as int, size as int);
    }
    if size <= 1 {
        if some_intersects(obstacles, x, y, size) {
            return Quad::Blocked;
        }
        return Quad::Free(x, y, size);
    }
    if some_covers(obstacles, x, y, size) {
        return Quad::Blocked;
    }
    if !some_intersects(obstacles, x, y, size) {
        return Quad::Free(x, y, size);
    }
    let h: i32 = size / 2;
    let nw = build_quad(obstacles, x, y + h, h);
    let ne = build_quad(obstacles, x + h, y + h, h);
    let sw = build_quad(obstacles, x, y, h);
    let se = build_quad(obstacles, x + h, y, h);
    Quad::Split(Box::new(nw), Box::new(ne), Box::new(sw), Box::new(se))
}

} // verus!

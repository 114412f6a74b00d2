//! Axis-aligned rectangles and their relation to grid squares.

use vstd::prelude::*;

verus! {

/// An axis-aligned obstacle: integer origin and integer extent.
#[derive(Clone, Copy, Debug, PartialEq, Eq, Structural)]
pub struct Rect {
    pub x: i32,
    pub y: i32,
    pub w: i32,
    pub h: i32,
}

/// The rectangle reaches into the square with origin `(qx, qy)` and side
/// `qs`. Both are half-open: touching along an edge is no intersection.
pub open spec fn spec_intersects(r: Rect, qx: int, qy: int, qs: int) -> bool {
    !(r.x >= qx + qs || r.x + r.w <= qx || r.y >= qy + qs || r.y + r.h <= qy)
}

/// The rectangle contains the square with origin `(qx, qy)` and side `qs`
/// on all four sides, bounds included.
pub open spec fn spec_covers(r: Rect, qx: int, qy: int, qs: int) -> bool {
    r.x <= qx && r.x + r.w >= qx + qs && r.y <= qy && r.y + r.h >= qy + qs
}

/// Whether `rect` intersects the square `(qx, qy, qs)`.
pub fn intersects(rect: &Rect, qx: i32, qy: i32, qs: i32) -> (b: bool)
    ensures
        b == spec_intersects(*rect, qx as int, qy as int, qs as int),
{
    let rx: i64 = rect.x as i64;
    let ry: i64 = rect.y as i64;
    let rw: i64 = rect.w as i64;
    let rh: i64 = rect.h as i64;
    let x: i64 = qx as i64;
    let y: i64 = qy as i64;
    let s: i64 = qs as i64;
    !(rx >= x + s || rx + rw <= x || ry >= y + s || ry + rh <= y)
}

/// Whether `rect` covers the square `(qx, qy, qs)` entirely.
pub fn covers(rect: &Rect, qx: i32, qy: i32, qs: i32) -> (b: bool)
    ensures
        b == spec_covers(*rect, qx as int, qy as int, qs as int),
{
    let rx: i64 = rect.x as i64;
    let ry: i64 = rect.y as i64;
    let rw: i64 = rect.w as i64;
    let rh: i64 = rect.h as i64;
    let x: i64 = qx as i64;
    let y: i64 = qy as i64;
    let s: i64 = qs as i64;
    rx <= x && rx + rw >= x + s && ry <= y && ry + rh >= y + s
}

} // verus!

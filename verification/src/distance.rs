//! Region centers and the fixed-point Euclidean distance between them.
//!
//! A free square with origin `(x, y)` and side `s` has its center at
//! `(x + s / 2, y + s / 2)`. To keep it exact the center is stored in half
//! cells, as `(2 * x + s, 2 * y + s)`. Distances are whole numbers of
//! millionths of a cell, rounded down.

use vstd::prelude::*;

verus! {

/// How many distance units make one grid cell.
pub const UNITS_PER_CELL: u64 = 1_000_000;

/// What a squared distance in half cells is multiplied by before the root
/// is taken: the square of half of `UNITS_PER_CELL`.
pub const GAP_SCALE: u128 = 250_000_000_000;

/// Largest magnitude of a center coordinate, in half cells, that the
/// distance arithmetic accepts. Every center of a square with 32-bit
/// origin and side is within it.
pub const CENTER_LIMIT: i64 = 8_589_934_592;

/// The center of a free region, in half cells.
#[derive(Clone, Copy, Debug, PartialEq, Eq, Structural)]
pub struct Center {
    pub x2: i64,
    pub y2: i64,
}

impl Center {
    /// Both coordinates are within `CENTER_LIMIT` of zero.
    pub open spec fn in_range(self) -> bool {
        &&& -CENTER_LIMIT <= self.x2 <= CENTER_LIMIT
        &&& -CENTER_LIMIT <= self.y2 <= CENTER_LIMIT
    }
}

/// Center of the square with origin `(x, y)` and side `s`.
pub open spec fn center_of(x: int, y: int, s: int) -> Center {
    Center { x2: (2 * x + s) as i64, y2: (2 * y + s) as i64 }
}

/// Squared Euclidean distance between the points `(ax, ay)` and `(bx, by)`.
pub open spec fn square_gap(ax: int, ay: int, bx: int, by: int) -> nat {
    ((ax - bx) * (ax - bx) + (ay - by) * (ay - by)) as nat
}

/// `n` lies between the square of `r` and the next square.
pub open spec fn is_floor_sqrt(r: nat, n: nat) -> bool {
    r * r <= n < (r + 1) * (r + 1)
}

/// The integer square root: the largest `r` with `r * r <= n`.
pub open spec fn floor_sqrt(n: nat) -> nat {
    choose|r: nat| is_floor_sqrt(r, n)
}

/// Distance between two centers in units of `1 / UNITS_PER_CELL` cell,
/// rounded down.
pub open spec fn spec_distance(a: Center, b: Center) -> nat {
    floor_sqrt(square_gap(a.x2 as int, a.y2 as int, b.x2 as int, b.y2 as int) * GAP_SCALE as nat)
}

/// A number between whose square and the next square `n` lies is the
/// integer square root of `n`.
pub proof fn lemma_floor_sqrt_unique(n: nat, r: nat)
    requires
        is_floor_sqrt(r, n),
    ensures
        floor_sqrt(n) == r,
{
    let c = floor_sqrt(n);
    assert(is_floor_sqrt(c, n));
    if c < r {
        assert((c + 1) * (c + 1) <= r * r) by (nonlinear_arith)
            requires
                c + 1 <= r,
        ;
    } else if r < c {
        assert((r + 1) * (r + 1) <= c * c) by (nonlinear_arith)
            requires
                r + 1 <= c,
        ;
    }
}

/// Every number has an integer square root.
pub proof fn lemma_floor_sqrt_exists(n: nat)
    ensures
        is_floor_sqrt(floor_sqrt(n), n),
    decreases n,
{
    if n == 0 {
        assert(is_floor_sqrt(0, 0)) by (nonlinear_arith);
    } else {
        lemma_floor_sqrt_exists((n - 1) as nat);
        let r = floor_sqrt((n - 1) as nat);
        if (r + 1) * (r + 1) <= n {
            assert(is_floor_sqrt(r + 1, n)) by (nonlinear_arith)
                requires
                    (r + 1) * (r + 1) <= n,
                    n - 1 < (r + 1) * (r + 1),
            ;
        } else {
            assert(is_floor_sqrt(r, n));
        }
    }
}

/// The distance between two centers within range fits in a `u64`.
pub proof fn lemma_distance_fits(a: Center, b: Center)
    requires
        a.in_range(),
        b.in_range(),
    ensures
        spec_distance(a, b) <= u64::MAX,
{
    let dx = a.x2 - b.x2;
    let dy = a.y2 - b.y2;
    assert(0 <= dx * dx <= 295_147_905_179_352_825_856) by (nonlinear_arith)
        requires
            -17_179_869_184 <= dx <= 17_179_869_184,
    ;
    assert(0 <= dy * dy <= 295_147_905_179_352_825_856) by (nonlinear_arith)
        requires
            -17_179_869_184 <= dy <= 17_179_869_184,
    ;
    let n = square_gap(a.x2 as int, a.y2 as int, b.x2 as int, b.y2 as int) * GAP_SCALE as nat;
    lemma_floor_sqrt_exists(n);
    let r = floor_sqrt(n);
    assert(r <= u64::MAX) by (nonlinear_arith)
        requires
            r * r <= n,
            n <= 590_295_810_358_705_651_712 * 250_000_000_000,
    ;
}

/// The distance does not depend on the order of its two ends, and a center
/// is at distance zero from itself.
pub proof fn lemma_distance_symmetric(a: Center, b: Center)
    ensures
        spec_distance(a, b) == spec_distance(b, a),
        spec_distance(a, a) == 0,
{
    assert(square_gap(a.x2 as int, a.y2 as int, b.x2 as int, b.y2 as int) == square_gap(
        b.x2 as int,
        b.y2 as int,
        a.x2 as int,
        a.y2 as int,
    )) by (nonlinear_arith);
    assert(square_gap(a.x2 as int, a.y2 as int, a.x2 as int, a.y2 as int) == 0) by (nonlinear_arith);
    assert(is_floor_sqrt(0, 0)) by (nonlinear_arith);
    lemma_floor_sqrt_unique(0, 0);
}

/// Integer square root of `n`.
pub fn isqrt(n: u128) -> (r: u64)
    ensures
        r == floor_sqrt(n as nat),
        r * r <= n < (r + 1) * (r + 1),
{
    let mut lo: u128 = 0;
    let mut hi: u128 = 18_446_744_073_709_551_616;
    assert(hi * hi > n) by (nonlinear_arith)
        requires
            hi == 18_446_744_073_709_551_616,
            n <= u128::MAX,
    ;
    while hi - lo > 1
        invariant
            lo < hi <= 18_446_744_073_709_551_616,
            lo * lo <= n < hi * hi,
        decreases hi - lo,
    {
        let mid: u128 = lo + (hi - lo) / 2;
        assert(mid * mid <= u128::MAX) by (nonlinear_arith)
            requires
                mid <= 18_446_744_073_709_551_615,
        ;
        if mid * mid <= n {
            lo = mid;
        } else {
            hi = mid;
        }
    }
    proof {
        lemma_floor_sqrt_unique(n as nat, lo as nat);
    }
    lo as u64
}

/// Squared distance between two centers, in squared half cells.
fn center_gap(a: &Center, b: &Center) -> (g: u128)
    requires
        a.in_range(),
        b.in_range(),
    ensures
        g == square_gap(a.x2 as int, a.y2 as int, b.x2 as int, b.y2 as int),
        g <= 590_295_810_358_705_651_712,
{
    let dx: i128 = a.x2 as i128 - b.x2 as i128;
    let dy: i128 = a.y2 as i128 - b.y2 as i128;
    assert(0 <= dx * dx <= 295_147_905_179_352_825_856) by (nonlinear_arith)
        requires
            -17_179_869_184 <= dx <= 17_179_869_184,
    ;
    assert(0 <= dy * dy <= 295_147_905_179_352_825_856) by (nonlinear_arith)
        requires
            -17_179_869_184 <= dy <= 17_179_869_184,
    ;
    (dx * dx + dy * dy) as u128
}

/// Euclidean distance between two centers, in units of
/// `1 / UNITS_PER_CELL` cell, rounded down.
pub fn distance(a: &Center, b: &Center) -> (w: u64)
    requires
        a.in_range(),
        b.in_range(),
    ensures
        w == spec_distance(*a, *b),
{
    let g: u128 = center_gap(a, b);
    isqrt(g * GAP_SCALE)
}

} // verus!

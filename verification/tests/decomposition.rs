use quadpath::geometry::{covers, intersects, Rect};
use quadpath::quadtree::{build_quad, Quad};

fn rect(x: i32, y: i32, w: i32, h: i32) -> Rect {
    Rect { x, y, w, h }
}

#[test]
fn intersects_overlapping_rectangle() {
    assert!(intersects(&rect(1, 1, 2, 2), 0, 0, 2));
    assert!(intersects(&rect(-5, -5, 100, 100), 3, 3, 1));
}

#[test]
fn intersects_is_half_open_on_every_side() {
    // Touching the square's right, left, top and bottom edge.
    assert!(!intersects(&rect(2, 0, 2, 2), 0, 0, 2));
    assert!(!intersects(&rect(-2, 0, 2, 2), 0, 0, 2));
    assert!(!intersects(&rect(0, 2, 2, 2), 0, 0, 2));
    assert!(!intersects(&rect(0, -2, 2, 2), 0, 0, 2));
    // One cell further in, each of them intersects.
    assert!(intersects(&rect(1, 0, 2, 2), 0, 0, 2));
    assert!(intersects(&rect(-1, 0, 2, 2), 0, 0, 2));
    assert!(intersects(&rect(0, 1, 2, 2), 0, 0, 2));
    assert!(intersects(&rect(0, -1, 2, 2), 0, 0, 2));
}

#[test]
fn intersects_does_not_overflow_at_the_limits() {
    assert!(intersects(&rect(i32::MAX, i32::MAX, i32::MAX, i32::MAX), i32::MAX, i32::MAX, i32::MAX));
    assert!(!intersects(&rect(i32::MIN, i32::MIN, 1, 1), i32::MAX, i32::MAX, 1));
}

#[test]
fn covers_is_inclusive_on_every_side() {
    assert!(covers(&rect(0, 0, 4, 4), 0, 0, 4));
    assert!(covers(&rect(-1, -1, 6, 6), 0, 0, 4));
    assert!(!covers(&rect(1, 0, 4, 4), 0, 0, 4));
    assert!(!covers(&rect(0, 1, 4, 4), 0, 0, 4));
    assert!(!covers(&rect(0, 0, 3, 4), 0, 0, 4));
    assert!(!covers(&rect(0, 0, 4, 3), 0, 0, 4));
}

#[test]
fn no_obstacle_gives_one_free_leaf() {
    let q = build_quad(&[], 0, 0, 4);
    assert!(matches!(q, Quad::Free(0, 0, 4)));
}

#[test]
fn full_cover_gives_one_blocked_leaf() {
    let q = build_quad(&[rect(0, 0, 4, 4)], 0, 0, 4);
    assert!(matches!(q, Quad::Blocked));
}

#[test]
fn unit_cell_is_blocked_by_any_intersection() {
    assert!(matches!(build_quad(&[rect(0, 0, 1, 1)], 0, 0, 1), Quad::Blocked));
    assert!(matches!(build_quad(&[rect(1, 0, 1, 1)], 0, 0, 1), Quad::Free(0, 0, 1)));
}

#[test]
fn partial_overlap_splits_in_quadrant_order() {
    // The obstacle fills the south-west quadrant of a grid of side 4.
    let q = build_quad(&[rect(0, 0, 2, 2)], 0, 0, 4);
    match q {
        Quad::Split(nw, ne, sw, se) => {
            assert!(matches!(*nw, Quad::Free(0, 2, 2)));
            assert!(matches!(*ne, Quad::Free(2, 2, 2)));
            assert!(matches!(*sw, Quad::Blocked));
            assert!(matches!(*se, Quad::Free(2, 0, 2)));
        }
        _ => panic!("a partly covered square must be split"),
    }
}

#[test]
fn one_blocked_cell_splits_down_to_unit_cells() {
    let q = build_quad(&[rect(3, 3, 1, 1)], 0, 0, 4);
    match q {
        Quad::Split(nw, ne, sw, se) => {
            assert!(matches!(*nw, Quad::Free(0, 2, 2)));
            assert!(matches!(*sw, Quad::Free(0, 0, 2)));
            assert!(matches!(*se, Quad::Free(2, 0, 2)));
            match *ne {
                Quad::Split(a, b, c, d) => {
                    assert!(matches!(*a, Quad::Free(2, 3, 1)));
                    assert!(matches!(*b, Quad::Blocked));
                    assert!(matches!(*c, Quad::Free(2, 2, 1)));
                    assert!(matches!(*d, Quad::Free(3, 2, 1)));
                }
                _ => panic!("the north-east quadrant must be split"),
            }
        }
        _ => panic!("a partly covered square must be split"),
    }
}

#[test]
fn covered_square_is_blocked_before_it_is_split() {
    // Two obstacles overlap the grid; one of them covers it.
    let q = build_quad(&[rect(1, 1, 1, 1), rect(-1, -1, 10, 10)], 0, 0, 4);
    assert!(matches!(q, Quad::Blocked));
}

#[test]
fn empty_obstacles_do_not_block() {
    // A rectangle without width meets the big square but no unit cell.
    let q = build_quad(&[rect(1, 0, 0, 2)], 0, 0, 2);
    match q {
        Quad::Split(nw, ne, sw, se) => {
            assert!(matches!(*nw, Quad::Free(0, 1, 1)));
            assert!(matches!(*ne, Quad::Free(1, 1, 1)));
            assert!(matches!(*sw, Quad::Free(0, 0, 1)));
            assert!(matches!(*se, Quad::Free(1, 0, 1)));
        }
        _ => panic!("the square must be split"),
    }
}

fn leaves_holding(q: &Quad, x: i32, y: i32, size: i32, px: i32, py: i32) -> usize {
    match q {
        Quad::Split(nw, ne, sw, se) => {
            let h = size / 2;
            leaves_holding(nw, x, y + h, h, px, py)
                + leaves_holding(ne, x + h, y + h, h, px, py)
                + leaves_holding(sw, x, y, h, px, py)
                + leaves_holding(se, x + h, y, h, px, py)
        }
        _ => {
            if x <= px && px < x + size && y <= py && py < y + size {
                1
            } else {
                0
            }
        }
    }
}

#[test]
fn every_cell_lies_in_exactly_one_leaf() {
    let obstacles = vec![rect(1, 1, 3, 2), rect(5, 0, 1, 7), rect(6, 6, 2, 2)];
    let q = build_quad(&obstacles, 0, 0, 8);
    for px in 0..8 {
        for py in 0..8 {
            assert_eq!(leaves_holding(&q, 0, 0, 8, px, py), 1);
        }
    }
    assert_eq!(leaves_holding(&q, 0, 0, 8, 8, 0), 0);
    assert_eq!(leaves_holding(&q, 0, 0, 8, -1, 3), 0);
}

fn free_at(q: &Quad, px: i32, py: i32) -> bool {
    match q {
        Quad::Free(x, y, s) => *x <= px && px < *x + *s && *y <= py && py < *y + *s,
        Quad::Blocked => false,
        Quad::Split(nw, ne, sw, se) => {
            free_at(nw, px, py) || free_at(ne, px, py) || free_at(sw, px, py) || free_at(se, px, py)
        }
    }
}

#[test]
fn a_cell_is_free_exactly_when_no_obstacle_meets_it() {
    let obstacles = vec![rect(1, 1, 3, 2), rect(5, 0, 1, 7), rect(6, 6, 2, 2)];
    let q = build_quad(&obstacles, 0, 0, 8);
    for px in 0..8 {
        for py in 0..8 {
            let met = obstacles.iter().any(|o| intersects(o, px, py, 1));
            assert_eq!(free_at(&q, px, py), !met);
        }
    }
}

#[test]
fn clone_copies_the_whole_tree() {
    let q = build_quad(&[rect(3, 3, 1, 1)], 0, 0, 4);
    let c = q.clone();
    assert_eq!(format!("{:?}", c), format!("{:?}", q));
    assert!(matches!(c, Quad::Split(_, _, _, _)));
}

#[test]
fn grid_away_from_the_origin() {
    let q = build_quad(&[rect(-4, -4, 1, 1)], -4, -4, 2);
    match q {
        Quad::Split(nw, ne, sw, se) => {
            assert!(matches!(*nw, Quad::Free(-4, -3, 1)));
            assert!(matches!(*ne, Quad::Free(-3, -3, 1)));
            assert!(matches!(*sw, Quad::Blocked));
            assert!(matches!(*se, Quad::Free(-3, -4, 1)));
        }
        _ => panic!("the square must be split"),
    }
}

#[test]
fn square_at_the_upper_end_of_the_range() {
    let top = i32::MAX;
    let q = build_quad(&[rect(top, top, 1, 1)], top - 1, top - 1, 2);
    match q {
        Quad::Split(nw, ne, sw, se) => {
            assert!(matches!(*nw, Quad::Free(x, y, 1) if x == top - 1 && y == top));
            assert!(matches!(*ne, Quad::Blocked));
            assert!(matches!(*sw, Quad::Free(x, y, 1) if x == top - 1 && y == top - 1));
            assert!(matches!(*se, Quad::Free(x, y, 1) if x == top && y == top - 1));
        }
        _ => panic!("the square must be split"),
    }
}

use quadpath::distance::{distance, isqrt, Center, UNITS_PER_CELL};
use quadpath::geometry::Rect;
use quadpath::graph::build_graph;
use quadpath::quadtree::{build_quad, Quad};
use quadpath::regions::{collect_free, find_nearest};
use std::collections::HashMap;

fn center(x2: i64, y2: i64) -> Center {
    Center { x2, y2 }
}

#[test]
fn isqrt_rounds_down() {
    assert_eq!(isqrt(0), 0);
    assert_eq!(isqrt(1), 1);
    assert_eq!(isqrt(3), 1);
    assert_eq!(isqrt(4), 2);
    assert_eq!(isqrt(24), 4);
    assert_eq!(isqrt(25), 5);
    assert_eq!(isqrt(1_000_000_000_000), 1_000_000);
    assert_eq!(isqrt(u128::MAX), u64::MAX);
}

#[test]
fn distance_of_one_cell_is_one_million_units() {
    assert_eq!(UNITS_PER_CELL, 1_000_000);
    // Centers (0.5, 0.5) and (1.5, 0.5).
    assert_eq!(distance(&center(1, 1), &center(3, 1)), 1_000_000);
    // Centers (0.5, 0.5) and (3.5, 4.5): a 3-4-5 triangle.
    assert_eq!(distance(&center(1, 1), &center(7, 9)), 5_000_000);
}

#[test]
fn distance_rounds_down() {
    // Centers (0.5, 0.5) and (1.5, 1.5): the square root of two.
    assert_eq!(distance(&center(1, 1), &center(3, 3)), 1_414_213);
    // Half a cell apart.
    assert_eq!(distance(&center(0, 0), &center(1, 0)), 500_000);
}

#[test]
fn distance_is_symmetric_and_zero_on_itself() {
    let a = center(-7, 12);
    let b = center(40, -3);
    assert_eq!(distance(&a, &b), distance(&b, &a));
    assert_eq!(distance(&a, &a), 0);
}

#[test]
fn distance_at_the_limit_of_the_range() {
    let far = 8_589_934_592_i64;
    let d = distance(&center(-far, -far), &center(far, far));
    // 2^34 half cells on each axis: 2^33 cells times the square root of two.
    assert_eq!(d, 12_148_001_999_904_198);
}

#[test]
fn collect_free_numbers_leaves_in_traversal_order() {
    let q = build_quad(&[Rect { x: 0, y: 0, w: 2, h: 2 }], 0, 0, 4);
    let mut id = 0;
    let mut centers = HashMap::new();
    collect_free(&q, &mut id, &mut centers);
    assert_eq!(id, 3);
    assert_eq!(centers.len(), 3);
    // North-west, north-east, then south-east; south-west is blocked.
    assert_eq!(centers[&0], center(2, 6));
    assert_eq!(centers[&1], center(6, 6));
    assert_eq!(centers[&2], center(6, 2));
}

#[test]
fn collect_free_goes_on_from_the_given_identifier() {
    let q = Quad::Free(0, 0, 4);
    let mut id = 7;
    let mut centers = HashMap::new();
    centers.insert(3, center(1, 1));
    collect_free(&q, &mut id, &mut centers);
    assert_eq!(id, 8);
    assert_eq!(centers.len(), 2);
    assert_eq!(centers[&3], center(1, 1));
    assert_eq!(centers[&7], center(4, 4));
}

#[test]
fn blocked_root_has_no_free_region() {
    let q = build_quad(&[Rect { x: 0, y: 0, w: 4, h: 4 }], 0, 0, 4);
    let mut id = 0;
    let mut centers = HashMap::new();
    collect_free(&q, &mut id, &mut centers);
    assert_eq!(id, 0);
    assert!(centers.is_empty());
}

#[test]
fn find_nearest_returns_the_nearer_region() {
    let mut centers = HashMap::new();
    centers.insert(0, center(1, 1));
    centers.insert(1, center(21, 21));
    assert_eq!(find_nearest(0, 0, &centers), Some(0));
    assert_eq!(find_nearest(10, 10, &centers), Some(1));
    assert_eq!(find_nearest(5, 5, &centers), Some(0));
}

#[test]
fn find_nearest_on_an_empty_table_is_none() {
    let centers: HashMap<usize, Center> = HashMap::new();
    assert_eq!(find_nearest(0, 0, &centers), None);
}

#[test]
fn find_nearest_with_one_region_always_returns_it() {
    let q = build_quad(&[], 0, 0, 4);
    let mut id = 0;
    let mut centers = HashMap::new();
    collect_free(&q, &mut id, &mut centers);
    assert_eq!(find_nearest(2, 0, &centers), Some(0));
    assert_eq!(find_nearest(2, 3, &centers), Some(0));
}

#[test]
fn find_nearest_does_not_overflow_at_the_limits() {
    let mut centers = HashMap::new();
    centers.insert(4, center(i64::MIN, i64::MIN));
    centers.insert(9, center(i64::MAX, i64::MAX));
    assert_eq!(find_nearest(i32::MAX, i32::MAX, &centers), Some(9));
    assert_eq!(find_nearest(i32::MIN, i32::MIN, &centers), Some(4));
}

fn table_and_graph(q: &Quad) -> (HashMap<usize, Center>, Vec<Vec<(usize, u64)>>, Vec<usize>) {
    let mut id = 0;
    let mut centers = HashMap::new();
    collect_free(q, &mut id, &mut centers);
    let mut graph = vec![vec![]; centers.len()];
    let mut id = 0;
    let ids = build_graph(q, &mut id, &mut graph, &centers);
    assert_eq!(id, centers.len());
    (centers, graph, ids)
}

#[test]
fn build_graph_joins_all_regions_of_a_split() {
    let q = build_quad(&[Rect { x: 0, y: 0, w: 2, h: 2 }], 0, 0, 4);
    let (_, graph, ids) = table_and_graph(&q);
    assert_eq!(ids, vec![0, 1, 2]);
    assert_eq!(graph[0], vec![(1, 2_000_000), (2, 2_828_427)]);
    assert_eq!(graph[1], vec![(0, 2_000_000), (2, 2_000_000)]);
    assert_eq!(graph[2], vec![(0, 2_828_427), (1, 2_000_000)]);
}

#[test]
fn build_graph_on_a_leaf_adds_no_edge() {
    let (_, graph, ids) = table_and_graph(&Quad::Free(0, 0, 4));
    assert_eq!(ids, vec![0]);
    assert_eq!(graph, vec![vec![]]);
    let (_, graph, ids) = table_and_graph(&Quad::Blocked);
    assert!(ids.is_empty());
    assert!(graph.is_empty());
}

#[test]
fn build_graph_joins_nested_regions_once_per_level() {
    // One blocked cell in the north-east corner of a grid of side 4.
    let q = build_quad(&[Rect { x: 3, y: 3, w: 1, h: 1 }], 0, 0, 4);
    let (centers, graph, ids) = table_and_graph(&q);
    assert_eq!(ids, vec![0, 1, 2, 3, 4, 5]);
    assert_eq!(centers[&1], center(5, 7));
    assert_eq!(centers[&2], center(5, 5));
    assert_eq!(centers[&3], center(7, 5));
    // Regions 1, 2 and 3 lie under the inner split: joined there first,
    // and once more at the root, after the edge to region 0.
    assert_eq!(
        graph[1],
        vec![
            (2, 1_000_000),
            (3, 1_414_213),
            (0, 1_581_138),
            (2, 1_000_000),
            (3, 1_414_213),
            (4, 2_915_475),
            (5, 2_549_509),
        ]
    );
    // Region 0 lies under the root only.
    assert_eq!(graph[0].len(), 5);
    assert_eq!(graph[0][0], (1, 1_581_138));
}

#[test]
fn build_graph_appends_to_the_lists_it_is_given() {
    let q = build_quad(&[Rect { x: 0, y: 0, w: 2, h: 2 }], 0, 0, 4);
    let mut centers = HashMap::new();
    let mut id = 2;
    collect_free(&q, &mut id, &mut centers);
    assert_eq!(id, 5);
    let mut graph: Vec<Vec<(usize, u64)>> = vec![vec![(1, 9)], vec![(0, 9)], vec![], vec![(3, 0)], vec![], vec![]];
    let mut id = 2;
    let ids = build_graph(&q, &mut id, &mut graph, &centers);
    assert_eq!(ids, vec![2, 3, 4]);
    assert_eq!(id, 5);
    assert_eq!(graph[0], vec![(1, 9)]);
    assert_eq!(graph[1], vec![(0, 9)]);
    assert_eq!(graph[2], vec![(3, 2_000_000), (4, 2_828_427)]);
    assert_eq!(graph[3], vec![(3, 0), (2, 2_000_000), (4, 2_000_000)]);
    assert_eq!(graph[4], vec![(2, 2_828_427), (3, 2_000_000)]);
    assert_eq!(graph[5], vec![]);
}

#[test]
fn every_edge_has_its_mirror() {
    let obstacles = vec![
        Rect { x: 1, y: 1, w: 3, h: 2 },
        Rect { x: 5, y: 0, w: 1, h: 7 },
        Rect { x: 6, y: 6, w: 2, h: 2 },
    ];
    let q = build_quad(&obstacles, 0, 0, 8);
    let (_, graph, _) = table_and_graph(&q);
    for (a, list) in graph.iter().enumerate() {
        for &(b, w) in list {
            assert!(b != a);
            let there = list.iter().filter(|e| **e == (b, w)).count();
            let back = graph[b].iter().filter(|e| **e == (a, w)).count();
            assert_eq!(there, back);
        }
    }
}

#[test]
fn both_passes_give_a_leaf_the_same_identifier() {
    let obstacles = vec![Rect { x: 1, y: 1, w: 3, h: 2 }, Rect { x: 5, y: 0, w: 1, h: 7 }];
    let q = build_quad(&obstacles, 0, 0, 8);
    let (centers, graph, ids) = table_and_graph(&q);
    assert_eq!(ids.len(), centers.len());
    for (k, id) in ids.iter().enumerate() {
        assert_eq!(*id, k);
        assert!(centers.contains_key(id));
    }
    for (a, list) in graph.iter().enumerate() {
        for &(b, w) in list {
            assert_eq!(w, distance(&centers[&a], &centers[&b]));
        }
    }
}

use std::collections::HashMap;
use carrot::geometry::polygon_selector::{PolygonSelector, SelectError};
use carrot::geometry::triangulation::{CoordOrder, PlaneTables};

fn order_of(a: f32, b: f32) -> CoordOrder {
    if a < b {
        CoordOrder::Less
    } else if a > b {
        CoordOrder::Greater
    } else if a == b {
        CoordOrder::Equal
    } else {
        CoordOrder::Unordered
    }
}

/// The answers about the plane that the points give.
fn tables(p: &[(f32, f32)]) -> PlaneTables {
    let n = p.len();
    let above = |a: (f32, f32), b: (f32, f32)| a.1 > b.1 || (a.1 == b.1 && a.0 < b.0);
    let before = (0..n).map(|a| (0..n).map(|b| above(p[b], p[a])).collect()).collect();
    let left = (0..n).map(|k| (0..n).map(|q| above(p[q], p[k])).collect()).collect();
    let cross = (0..n)
        .map(|f| {
            (0..n)
                .map(|b| {
                    (0..n)
                        .map(|t| {
                            let fb = (p[f].0 - p[b].0, p[f].1 - p[b].1);
                            let tb = (p[t].0 - p[b].0, p[t].1 - p[b].1);
                            order_of(fb.0 * tb.1 - fb.1 * tb.0, 0.0)
                        })
                        .collect()
                })
                .collect()
        })
        .collect();
    let negative = vec![vec![vec![false; n]; n]; n];
    PlaneTables { before, left, cross, negative }
}

fn square() -> PlaneTables {
    tables(&[(0.0, 0.0), (1.0, 0.0), (1.0, 1.0), (0.0, 1.0)])
}

fn diagonal(a: usize, b: usize) -> HashMap<usize, Vec<usize>> {
    let mut extra: HashMap<usize, Vec<usize>> = HashMap::new();
    extra.insert(a, vec![b]);
    extra.insert(b, vec![a]);
    extra
}

#[test]
fn square_without_diagonals_is_one_piece() {
    let mut s = PolygonSelector::new();
    let extra: HashMap<usize, Vec<usize>> = HashMap::new();
    assert_eq!(s.select((0, 1), &square(), 4, &extra), Ok(vec![0, 1, 2, 3]));
    assert_eq!(s.used_count(0, 1), 1);
    assert_eq!(s.used_count(1, 2), 1);
    assert_eq!(s.used_count(2, 3), 1);
    assert_eq!(s.used_count(3, 0), 1);
    assert_eq!(s.used_count(1, 0), 0);
}

#[test]
fn walked_start_edge_gives_no_new_piece() {
    let mut s = PolygonSelector::new();
    let extra: HashMap<usize, Vec<usize>> = HashMap::new();
    assert!(s.select((0, 1), &square(), 4, &extra).is_ok());
    assert_eq!(s.select((0, 1), &square(), 4, &extra), Err(SelectError::Exhausted));
    assert_eq!(s.used_count(0, 1), 1);
}

#[test]
fn walk_backwards_closes_at_the_previous_vertex() {
    let mut s = PolygonSelector::new();
    let extra: HashMap<usize, Vec<usize>> = HashMap::new();
    assert_eq!(s.select((1, 0), &square(), 4, &extra), Ok(vec![1, 0, 3, 2]));
    assert_eq!(s.used_count(1, 0), 1);
    assert_eq!(s.used_count(0, 3), 1);
    assert_eq!(s.used_count(3, 2), 1);
    assert_eq!(s.used_count(2, 1), 1);
}

#[test]
fn walk_stops_where_every_edge_is_walked() {
    let mut s = PolygonSelector::new();
    let extra: HashMap<usize, Vec<usize>> = HashMap::new();
    s.set_used_count(2, 3, 1);
    assert_eq!(s.select((0, 1), &square(), 4, &extra), Err(SelectError::NoNextSegment(2)));
    // the start edge was entered with count zero; nothing was counted
    assert_eq!(s.used_count(0, 1), 0);
    assert_eq!(s.used_count(1, 2), 0);
}

#[test]
fn exhausted_start_edge_gives_no_piece() {
    let mut s = PolygonSelector::default();
    let extra: HashMap<usize, Vec<usize>> = HashMap::new();
    s.set_used_count(0, 1, 1);
    assert_eq!(s.select((0, 1), &square(), 4, &extra), Err(SelectError::Exhausted));
    assert_eq!(s.used_count(0, 1), 1);
}

#[test]
fn a_diagonal_is_walked_once_each_way() {
    // the walk keeps the piece on its right: the triangle below the
    // diagonal from 0 to 2, then the one above it
    let mut s = PolygonSelector::new();
    let extra = diagonal(0, 2);
    assert_eq!(s.select((0, 2), &square(), 4, &extra), Ok(vec![0, 2, 1]));
    assert_eq!(s.select((2, 0), &square(), 4, &extra), Ok(vec![2, 0, 3]));
    assert_eq!(s.select((0, 2), &square(), 4, &extra), Err(SelectError::Exhausted));
    assert_eq!(s.used_count(0, 2), 1);
    assert_eq!(s.used_count(2, 0), 1);
}

#[test]
fn walk_takes_the_sharpest_right_turn() {
    // a pentagon with the diagonals 1-3 and 1-4: from 3 to 1 the walk turns
    // into the diagonal to 4, not along the boundary to 0
    let g = tables(&[(0.0, 0.0), (2.0, 0.0), (3.0, 1.5), (1.0, 3.0), (-1.0, 1.5)]);
    let mut extra: HashMap<usize, Vec<usize>> = HashMap::new();
    extra.insert(1, vec![3, 4]);
    extra.insert(3, vec![1]);
    extra.insert(4, vec![1]);
    let mut s = PolygonSelector::new();
    assert_eq!(s.select((3, 1), &g, 5, &extra), Ok(vec![3, 1, 4]));
    assert_eq!(s.select((4, 1), &g, 5, &extra), Ok(vec![4, 1, 0]));
    assert_eq!(s.select((1, 3), &g, 5, &extra), Ok(vec![1, 3, 2]));
}

#[test]
fn square_from_the_other_side_of_a_diagonal() {
    let mut s = PolygonSelector::new();
    let extra = diagonal(0, 2);
    assert_eq!(s.select((2, 3), &square(), 4, &extra), Ok(vec![2, 3, 0, 1]));
    assert_eq!(s.used_count(1, 2), 1);
}

#[test]
fn clone_keeps_the_counts() {
    let mut s = PolygonSelector::new();
    let extra: HashMap<usize, Vec<usize>> = HashMap::new();
    assert!(s.select((0, 1), &square(), 4, &extra).is_ok());
    let c = s.clone();
    assert_eq!(c.used_count(2, 3), 1);
}

use std::collections::HashMap;
use carrot::geometry::monotone::{connect, to_monotonic_addings, SweepError, VertexKind};
use carrot::geometry::segment_tree::TreeError;

fn rows(n: usize, set: &[(usize, usize)]) -> Vec<Vec<bool>> {
    let mut r = vec![vec![false; n]; n];
    for &(i, e) in set {
        r[i][e] = true;
    }
    r
}

#[test]
fn connect_records_a_diagonal_at_both_ends() {
    let mut m: HashMap<usize, Vec<usize>> = HashMap::new();
    connect(&mut m, 1, 2);
    assert_eq!(m.get(&1), Some(&vec![2]));
    assert_eq!(m.get(&2), Some(&vec![1]));
    connect(&mut m, 2, 4);
    assert_eq!(m.get(&2), Some(&vec![1, 4]));
    assert_eq!(m.get(&4), Some(&vec![2]));
    assert_eq!(m.len(), 3);
}

#[test]
fn connect_to_itself_lists_the_vertex_twice() {
    let mut m: HashMap<usize, Vec<usize>> = HashMap::new();
    connect(&mut m, 3, 3);
    assert_eq!(m.get(&3), Some(&vec![3, 3]));
}

#[test]
fn classify_follows_the_neighbours() {
    assert_eq!(VertexKind::classify(true, false, true, false), VertexKind::End);
    assert_eq!(VertexKind::classify(true, false, false, false), VertexKind::Merge);
    assert_eq!(VertexKind::classify(false, true, true, true), VertexKind::Start);
    assert_eq!(VertexKind::classify(false, true, false, true), VertexKind::Split);
    assert_eq!(VertexKind::classify(false, false, true, true), VertexKind::RegularLeft);
    assert_eq!(VertexKind::classify(false, false, false, false), VertexKind::RegularRight);
}

#[test]
fn split_vertex_is_joined_to_the_helper_on_its_left() {
    // the polygon (0,0), (2,2), (4,0), (4,3), (0,3): vertex 1 is a split
    // vertex, and the helper of the edge on its left is vertex 3
    let kinds = vec![
        VertexKind::End,
        VertexKind::Split,
        VertexKind::End,
        VertexKind::RegularRight,
        VertexKind::Start,
    ];
    let keys = vec![2, 3, 4, 0, 1];
    let left_of = rows(5, &[(3, 4), (1, 4)]);
    let d = to_monotonic_addings(&vec![4, 3, 1, 0, 2], &kinds, &keys, &left_of).unwrap();
    assert_eq!(d.len(), 2);
    assert_eq!(d.get(&1), Some(&vec![3]));
    assert_eq!(d.get(&3), Some(&vec![1]));
}

#[test]
fn merge_vertex_is_joined_from_below() {
    // the polygon (0,0), (4,0.5), (3,3), (2,1.5), (1,2.8): vertex 3 is a
    // merge vertex and becomes the helper of edge 4; vertex 1 on the right
    // chain, next below it, joins it
    let kinds = vec![
        VertexKind::End,
        VertexKind::RegularRight,
        VertexKind::Start,
        VertexKind::Merge,
        VertexKind::Start,
    ];
    let keys = vec![1, 4, 3, 2, 0];
    let left_of = rows(5, &[(3, 4), (1, 4)]);
    let d = to_monotonic_addings(&vec![2, 4, 3, 1, 0], &kinds, &keys, &left_of).unwrap();
    assert_eq!(d.len(), 2);
    assert_eq!(d.get(&1), Some(&vec![3]));
    assert_eq!(d.get(&3), Some(&vec![1]));
}

#[test]
fn monotone_polygon_needs_no_diagonal() {
    // the house (0,0), (1,0), (1,1), (0.5,1.5), (0,1)
    let kinds = vec![
        VertexKind::RegularLeft,
        VertexKind::End,
        VertexKind::RegularRight,
        VertexKind::Start,
        VertexKind::RegularLeft,
    ];
    let keys = vec![0, 3, 4, 1, 2];
    let d = to_monotonic_addings(&vec![3, 4, 2, 0, 1], &kinds, &keys, &rows(5, &[(2, 4)])).unwrap();
    assert!(d.is_empty());
}

#[test]
fn sweep_without_a_tree_fails() {
    let kinds = vec![VertexKind::End, VertexKind::Start, VertexKind::Start];
    let r = to_monotonic_addings(&vec![0, 1, 2], &kinds, &vec![0, 1, 2], &rows(3, &[]));
    assert_eq!(r, Err(SweepError::NoTree));
}

#[test]
fn sweep_stops_at_a_failed_tree_operation() {
    // edge 1 never entered the tree, so the end vertex 2 cannot take it out
    let kinds = vec![
        VertexKind::RegularLeft,
        VertexKind::End,
        VertexKind::End,
        VertexKind::Start,
        VertexKind::Start,
    ];
    let keys = vec![0, 2, 2, 1, 0];
    let r = to_monotonic_addings(&vec![3, 4, 2, 0, 1], &kinds, &keys, &rows(5, &[]));
    assert_eq!(r, Err(SweepError::Tree(TreeError::NotFoundRight)));
}

#[test]
fn empty_order_records_nothing() {
    let kinds = vec![VertexKind::Start, VertexKind::End, VertexKind::End];
    let d = to_monotonic_addings(&vec![], &kinds, &vec![0, 0, 0], &rows(3, &[])).unwrap();
    assert!(d.is_empty());
}

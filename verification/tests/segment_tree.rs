use carrot::geometry::segment_tree::{SegmentBinTree, TreeError};

fn tree_0_1_2() -> SegmentBinTree {
    let mut t = SegmentBinTree::new(0, 10);
    assert_eq!(t.insert(SegmentBinTree::new(1, 5)), Ok(()));
    assert_eq!(t.insert(SegmentBinTree::new(2, 15)), Ok(()));
    t
}

#[test]
fn new_is_a_leaf() {
    let t = SegmentBinTree::new(7, -3);
    assert_eq!(t.id, 7);
    assert_eq!(t.x_cord, -3);
    assert!(t.left.is_none());
    assert!(t.right.is_none());
}

#[test]
fn insert_smaller_key_goes_left_equal_key_goes_right() {
    let mut t = SegmentBinTree::new(0, 10);
    assert_eq!(t.insert(SegmentBinTree::new(1, 5)), Ok(()));
    assert_eq!(t.insert(SegmentBinTree::new(2, 10)), Ok(()));
    assert_eq!(t.left.as_ref().unwrap().id, 1);
    assert_eq!(t.right.as_ref().unwrap().id, 2);
    // a deeper insert follows the keys
    assert_eq!(t.insert(SegmentBinTree::new(3, 7)), Ok(()));
    assert_eq!(t.left.as_ref().unwrap().right.as_ref().unwrap().id, 3);
}

#[test]
fn insert_refuses_an_id_on_the_search_path() {
    let mut t = SegmentBinTree::new(0, 10);
    assert_eq!(t.insert(SegmentBinTree::new(1, 5)), Ok(()));
    assert_eq!(t.insert(SegmentBinTree::new(1, 3)), Err(TreeError::DuplicateId));
    assert_eq!(t.insert(SegmentBinTree::new(0, 30)), Err(TreeError::DuplicateId));
    // nothing changed
    assert!(t.right.is_none());
    let l = t.left.as_ref().unwrap();
    assert_eq!((l.id, l.x_cord), (1, 5));
    assert!(l.left.is_none() && l.right.is_none());
}

#[test]
fn remove_refuses_the_root() {
    let mut t = tree_0_1_2();
    assert_eq!(t.remove(0, 10), Err(TreeError::DuplicateId));
    assert_eq!(t.left.as_ref().unwrap().id, 1);
}

#[test]
fn remove_reports_a_missing_child() {
    let mut t = SegmentBinTree::new(0, 10);
    assert_eq!(t.remove(5, 3), Err(TreeError::NotFoundLeft));
    assert_eq!(t.remove(5, 12), Err(TreeError::NotFoundRight));
    let mut t = tree_0_1_2();
    assert_eq!(t.remove(9, 5), Err(TreeError::NotFoundRight));
    assert_eq!(t.remove(9, 4), Err(TreeError::NotFoundLeft));
}

#[test]
fn remove_keeps_the_descendants_of_the_child() {
    let mut t = SegmentBinTree::new(0, 10);
    assert_eq!(t.insert(SegmentBinTree::new(1, 5)), Ok(()));
    assert_eq!(t.insert(SegmentBinTree::new(2, 3)), Ok(()));
    assert_eq!(t.insert(SegmentBinTree::new(3, 7)), Ok(()));
    assert_eq!(t.insert(SegmentBinTree::new(4, 20)), Ok(()));
    assert_eq!(t.remove(1, 5), Ok(()));
    // 2 takes the place of 1, and 3 hangs to its right
    let l = t.left.as_ref().unwrap();
    assert_eq!((l.id, l.x_cord), (2, 3));
    assert!(l.left.is_none());
    assert_eq!(l.right.as_ref().unwrap().id, 3);
    assert_eq!(t.right.as_ref().unwrap().id, 4);
}

#[test]
fn remove_from_takes_out_the_root() {
    // the left subtree stays, with the right one hung below it
    let mut t = Some(tree_0_1_2());
    assert_eq!(SegmentBinTree::remove_from(&mut t, 0, 10), Ok(()));
    let r = t.as_ref().unwrap();
    assert_eq!((r.id, r.x_cord), (1, 5));
    assert!(r.left.is_none());
    assert_eq!(r.right.as_ref().unwrap().id, 2);
    // a lone root leaves no tree
    let mut t = Some(SegmentBinTree::new(7, 1));
    assert_eq!(SegmentBinTree::remove_from(&mut t, 7, 1), Ok(()));
    assert!(t.is_none());
    assert_eq!(SegmentBinTree::remove_from(&mut t, 7, 1), Err(TreeError::Empty));
}

#[test]
fn remove_from_takes_out_a_child() {
    let mut t = Some(tree_0_1_2());
    assert_eq!(SegmentBinTree::remove_from(&mut t, 2, 15), Ok(()));
    let r = t.as_ref().unwrap();
    assert_eq!(r.id, 0);
    assert!(r.right.is_none());
    assert_eq!(SegmentBinTree::remove_from(&mut t, 9, 12), Err(TreeError::NotFoundRight));
}

#[test]
fn remove_of_a_fresh_leaf_undoes_its_insert() {
    let mut t = tree_0_1_2();
    assert_eq!(t.insert(SegmentBinTree::new(8, 6)), Ok(()));
    assert_eq!(t.left.as_ref().unwrap().right.as_ref().unwrap().id, 8);
    assert_eq!(t.remove(8, 6), Ok(()));
    let l = t.left.as_ref().unwrap();
    assert_eq!(l.id, 1);
    assert!(l.left.is_none() && l.right.is_none());
    assert_eq!(t.right.as_ref().unwrap().id, 2);
}

#[test]
fn nearest_left_finds_the_rightmost_segment_left_of_the_point() {
    let t = tree_0_1_2();
    assert_eq!(t.nearest_left(&vec![true, true, false]), Ok(0));
    assert_eq!(t.nearest_left(&vec![true, true, true]), Ok(2));
    assert_eq!(t.nearest_left(&vec![false, true, false]), Ok(1));
}

#[test]
fn nearest_left_fails_when_nothing_lies_left() {
    let t = tree_0_1_2();
    assert_eq!(t.nearest_left(&vec![false, false, false]), Err(TreeError::NoSegmentOnLeft));
}

#[test]
fn clone_copies_the_whole_tree() {
    let t = tree_0_1_2();
    let c = t.clone();
    assert_eq!((c.id, c.x_cord), (0, 10));
    assert_eq!(c.left.as_ref().unwrap().id, 1);
    assert_eq!(c.right.as_ref().unwrap().x_cord, 15);
}

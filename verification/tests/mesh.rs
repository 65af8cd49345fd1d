use carrot::geometry::mesh::{append_mesh, cell_positions, grid_indices, join_rendered, merge_meshes, shift_fits_check};
use carrot::geometry::render_object::RenderError;
use carrot::geometry::triangulation::TriangulateError;

#[test]
fn append_moves_the_part_indices_past_the_vertices_there() {
    let mut v = vec!['a', 'b'];
    let mut i = vec![0u32, 1];
    append_mesh(&mut v, &mut i, vec!['c'], vec![0, 0]);
    assert_eq!(v, vec!['a', 'b', 'c']);
    assert_eq!(i, vec![0, 1, 2, 2]);
}

#[test]
fn merge_joins_parts_in_order() {
    let parts = vec![(vec![1u8, 2, 3], vec![0u32, 1, 2]), (vec![4u8, 5, 6], vec![2u32, 1, 0])];
    let (v, i) = merge_meshes(parts);
    assert_eq!(v, vec![1, 2, 3, 4, 5, 6]);
    assert_eq!(i, vec![0, 1, 2, 5, 4, 3]);
}

#[test]
fn merge_of_nothing_is_empty() {
    let (v, i) = merge_meshes::<u8>(vec![]);
    assert!(v.is_empty() && i.is_empty());
}

#[test]
fn grid_of_three_rows_of_three() {
    assert_eq!(
        grid_indices(&vec![3, 3, 3]),
        vec![
            1, 3, 0, 3, 1, 4, //
            2, 4, 1, 4, 2, 5, //
            4, 6, 3, 6, 4, 7, //
            5, 7, 4, 7, 5, 8,
        ]
    );
}

#[test]
fn grid_of_two_rows_of_two() {
    assert_eq!(grid_indices(&vec![2, 2]), vec![1, 2, 0, 2, 1, 3]);
}

#[test]
fn grid_with_a_single_row_has_no_cells() {
    assert!(grid_indices(&vec![5]).is_empty());
    assert!(grid_indices(&vec![]).is_empty());
}

#[test]
fn shift_check_sees_the_u32_limit() {
    assert!(shift_fits_check(&vec![1, u32::MAX - 1], 1));
    assert!(!shift_fits_check(&vec![1, u32::MAX - 1], 2));
    assert!(shift_fits_check(&vec![], u32::MAX));
}

#[test]
fn join_rendered_appends_a_part_or_passes_the_failure_on() {
    let mut v = vec!['a'];
    let mut i = vec![0u32];
    assert_eq!(join_rendered(&mut v, &mut i, Ok((vec!['b', 'c'], vec![1, 0]))), Ok(()));
    assert_eq!(v, vec!['a', 'b', 'c']);
    assert_eq!(i, vec![0, 2, 1]);
    let e = RenderError::Triangulate(TriangulateError::NotEnoughPoints);
    assert_eq!(join_rendered(&mut v, &mut i, Err(e)), Err(e));
    assert_eq!(join_rendered(&mut v, &mut i, Ok((vec!['d'], vec![u32::MAX]))), Err(RenderError::IndexOverflow));
    assert_eq!(v, vec!['a', 'b', 'c']);
    assert_eq!(i, vec![0, 2, 1]);
}

#[test]
fn cell_positions_number_the_points_row_by_row() {
    assert_eq!(cell_positions(&vec![2, 0, 3]), vec![vec![0, 1], vec![], vec![2, 3, 4]]);
    assert_eq!(cell_positions(&vec![]), Vec::<Vec<usize>>::new());
}

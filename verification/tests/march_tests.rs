use swirly_world::square_march::{contour_edges, fill_vertices, mesh_points, segments, square_case};

#[test]
fn square_case_weighs_the_corners() {
    assert_eq!(square_case([false, false, false, false]), 0);
    assert_eq!(square_case([true, false, false, false]), 8);
    assert_eq!(square_case([false, true, false, true]), 5);
    assert_eq!(square_case([true, true, true, true]), 15);
}

#[test]
fn contour_edges_of_single_corners() {
    assert_eq!(contour_edges(0), Vec::<usize>::new());
    assert_eq!(contour_edges(1), vec![3, 2]);
    assert_eq!(contour_edges(8), vec![3, 0]);
    assert_eq!(contour_edges(6), vec![0, 2]);
}

#[test]
fn contour_edges_of_saddles_and_full_square() {
    assert_eq!(contour_edges(5), vec![3, 0, 2, 1]);
    assert_eq!(contour_edges(10), vec![3, 2, 0, 1]);
    assert_eq!(contour_edges(15), vec![3, 0, 0, 1, 1, 2, 2, 3]);
}

#[test]
fn contour_edges_come_in_pairs() {
    for case in 0..16 {
        assert_eq!(contour_edges(case).len() % 2, 0);
    }
}

#[test]
fn fill_vertices_examples() {
    assert_eq!(fill_vertices(0), Vec::<usize>::new());
    assert_eq!(fill_vertices(1), vec![7, 3, 2]);
    assert_eq!(fill_vertices(15), vec![4, 5, 7, 5, 7, 6]);
    assert_eq!(fill_vertices(7), vec![3, 7, 6, 3, 0, 6, 0, 5, 6]);
}

#[test]
fn fill_vertices_use_only_solid_corners() {
    for case in 0..16usize {
        for v in fill_vertices(case) {
            if v >= 4 {
                let corner = v - 4;
                let weight = [8, 4, 2, 1][corner];
                assert!(case & weight != 0, "case {} uses corner {}", case, corner);
            }
        }
    }
}

#[test]
fn segments_pair_points_backwards() {
    assert_eq!(segments(&vec![1, 2, 3, 4]), vec![(2, 1), (4, 3)]);
    assert_eq!(segments(&vec![1, 2, 3]), vec![(2, 1)]);
    assert_eq!(segments(&Vec::<u8>::new()), vec![]);
}

#[test]
fn mesh_points_of_one_square() {
    // A 2-by-2 grid is one square; only sample (0, 1) (corner 3) is above.
    let above = vec![false, true, false, false];
    assert_eq!(mesh_points(&above, 2, 2), vec![(0, 0, 7), (0, 0, 3), (0, 0, 2)]);
}

#[test]
fn mesh_points_walk_rows_then_columns() {
    // 3 wide, 2 high: squares (0, 0) and (1, 0); sample (x, y) at x * 2 + y.
    // Only sample (2, 0) is above: it is corner 1 of square (1, 0).
    let above = vec![false, false, false, false, true, false];
    assert_eq!(mesh_points(&above, 3, 2), vec![(1, 0, 0), (1, 0, 5), (1, 0, 1)]);
}

#[test]
fn mesh_points_of_a_strip_have_no_squares() {
    assert_eq!(mesh_points(&vec![true, true, true], 3, 1), vec![]);
    assert_eq!(mesh_points(&vec![true], 1, 1), vec![]);
}

use maps::grid::{Grid, Resolution};
use maps::chains::find_chains;
use maps::marching_squares::{find_contours, find_contours_joined, interpolate_edge, Point};

fn grid(width: usize, height: usize, values: Vec<i32>) -> Grid<i32> {
    Grid::from_buffer(Resolution { width, height }, &values)
}

fn pt(x: i128, y: i128, den: i128) -> Point {
    Point { x, y, den }
}

#[test]
fn resolution_area_and_slice() {
    let r = Resolution { width: 64, height: 48 };
    assert_eq!(r.area(), 3072);
    assert_eq!(r.slice(), [64, 48]);
}

#[test]
fn grid_from_buffer_is_row_major() {
    let g = grid(3, 2, vec![0, 1, 2, 3, 4, 5]);
    assert_eq!(g.width(), 3);
    assert_eq!(g.height(), 2);
    assert_eq!(*g.get(0, 0), 0);
    assert_eq!(*g.get(2, 0), 2);
    assert_eq!(*g.get(0, 1), 3);
    assert_eq!(*g.get(2, 1), 5);
}

#[test]
fn grid_fill_sets_every_sample() {
    let g = Grid::fill(Resolution { width: 4, height: 3 }, 7i32);
    assert_eq!(g.width(), 4);
    assert_eq!(g.height(), 3);
    for y in 0..3 {
        for x in 0..4 {
            assert_eq!(*g.get(x, y), 7);
        }
    }
}

#[test]
fn chains_of_a_path() {
    assert_eq!(find_chains(&vec![(0, 1), (1, 2)]), vec![vec![0, 1, 2]]);
}

#[test]
fn chains_of_no_segments() {
    assert!(find_chains(&vec![]).is_empty());
}

#[test]
fn chains_of_fresh_segments_stay_apart() {
    assert_eq!(
        find_chains(&vec![(0, 1), (2, 3), (4, 5)]),
        vec![vec![0, 1], vec![2, 3], vec![4, 5]]
    );
}

#[test]
fn chains_extend_backward() {
    assert_eq!(find_chains(&vec![(0, 1), (0, 2)]), vec![vec![2, 0, 1]]);
}

#[test]
fn chains_of_a_triangle_leave_the_closing_segment_apart() {
    assert_eq!(
        find_chains(&vec![(0, 1), (1, 2), (2, 0)]),
        vec![vec![0, 1, 2], vec![0, 2]]
    );
}

#[test]
fn flat_grid_has_no_contours() {
    let g = Grid::fill(Resolution { width: 5, height: 4 }, 3i32);
    assert!(find_contours(&g, 0).is_empty());
    assert!(find_contours(&g, 3).is_empty());
    assert!(find_contours(&g, 10).is_empty());
}

#[test]
fn one_sided_cell_has_no_contours() {
    assert!(find_contours(&grid(2, 2, vec![1, 2, 3, 4]), 0).is_empty());
    assert!(find_contours(&grid(2, 2, vec![-1, -2, -3, -4]), 0).is_empty());
}

#[test]
fn too_small_grid_has_no_contours() {
    assert!(find_contours(&grid(1, 3, vec![-1, 1, -1]), 0).is_empty());
    assert!(find_contours(&grid(3, 1, vec![-1, 1, -1]), 0).is_empty());
    assert!(find_contours(&grid(0, 0, vec![]), 0).is_empty());
}

#[test]
fn single_corner_below_gives_one_chain_on_its_edges() {
    // corner 0 below: a point on edge (0,2) then one on edge (0,1)
    let c = find_contours(&grid(2, 2, vec![-1, 3, 3, 3]), 0);
    assert_eq!(c, vec![vec![pt(0, 1, 4), pt(1, 0, 4)]]);
    // corner 3 below
    let c = find_contours(&grid(2, 2, vec![1, 1, 1, -1]), 0);
    assert_eq!(c, vec![vec![pt(2, 1, 2), pt(1, 2, 2)]]);
}

#[test]
fn interpolation_reproduces_the_level() {
    // along the edge from corner 0 (value -1) to corner 1 (value 3), level 0 is reached at t = 1/4
    let c = find_contours(&grid(2, 2, vec![-1, 3, 3, 3]), 0);
    let p = c[0][1];
    assert_eq!(p.y, 0);
    assert!(0 < p.x && p.x < p.den);
    assert_eq!(-1 * p.den + (3 - -1) * p.x, 0);
    // the level equal to the upper value puts the point on that corner
    let c = find_contours(&grid(2, 2, vec![-1, 0, 0, 0]), 0);
    assert_eq!(c, vec![vec![pt(0, 1, 1), pt(1, 0, 1)]]);
}

#[test]
fn saddle_cells_give_two_chains() {
    // corners 1 and 2 below
    let c = find_contours(&grid(2, 2, vec![1, -1, -1, 1]), 0);
    assert_eq!(
        c,
        vec![vec![pt(0, 1, 2), pt(1, 2, 2)], vec![pt(1, 0, 2), pt(2, 1, 2)]]
    );
    // corners 0 and 3 below
    let c = find_contours(&grid(2, 2, vec![-1, 1, 1, -1]), 0);
    assert_eq!(
        c,
        vec![vec![pt(0, 1, 2), pt(1, 0, 2)], vec![pt(1, 2, 2), pt(2, 1, 2)]]
    );
}

#[test]
fn pit_in_a_three_by_three_grid_gives_a_diamond() {
    let g = grid(3, 3, vec![1, 1, 1, 1, -1, 1, 1, 1, 1]);
    let c = find_contours(&g, 0);
    assert_eq!(
        c,
        vec![
            vec![pt(2, 1, 2), pt(1, 2, 2)],
            vec![pt(2, 1, 2), pt(3, 2, 2)],
            vec![pt(1, 2, 2), pt(2, 3, 2)],
            vec![pt(2, 3, 2), pt(3, 2, 2)],
        ]
    );
}

#[test]
fn contours_are_deterministic() {
    let g = grid(4, 3, vec![3, -2, 5, 1, 0, -7, 2, -1, 4, 4, -3, 6]);
    let a = find_contours(&g, 1);
    let b = find_contours(&g, 1);
    assert_eq!(a, b);
}

#[test]
fn every_vertex_lands_in_one_two_point_chain() {
    let g = grid(4, 3, vec![3, -2, 5, 1, 0, -7, 2, -1, 4, 4, -3, 6]);
    let c = find_contours(&g, 1);
    assert!(!c.is_empty());
    let total: usize = c.iter().map(|chain| chain.len()).sum();
    assert_eq!(total, 2 * c.len());
    assert!(c.iter().all(|chain| chain.len() == 2));
}

#[test]
fn joined_pit_closes_around_the_diamond() {
    let g = grid(3, 3, vec![1, 1, 1, 1, -1, 1, 1, 1, 1]);
    let c = find_contours_joined(&g, 0);
    assert_eq!(
        c,
        vec![
            vec![pt(2, 1, 2), pt(1, 2, 2), pt(2, 3, 2), pt(3, 2, 2)],
            vec![pt(2, 1, 2), pt(3, 2, 2)],
        ]
    );
}

#[test]
fn joined_single_cell_matches_the_plain_scan() {
    let g = grid(2, 2, vec![-1, 3, 3, 3]);
    assert_eq!(find_contours_joined(&g, 0), find_contours(&g, 0));
}

#[test]
fn joined_mode_drops_segments_without_length() {
    // corner 0 at the level, the other three below: both ends fall on corner 0
    let g = grid(2, 2, vec![0, -1, -1, -1]);
    assert_eq!(find_contours(&g, 0), vec![vec![pt(0, 0, 1), pt(0, 0, 1)]]);
    assert!(find_contours_joined(&g, 0).is_empty());
}

#[test]
fn joined_flat_grid_has_no_contours() {
    let g = Grid::fill(Resolution { width: 3, height: 3 }, 5i32);
    assert!(find_contours_joined(&g, 1).is_empty());
}

#[test]
fn chains_break_ties_by_insertion_order() {
    assert_eq!(
        find_chains(&vec![(0, 1), (0, 2), (0, 3)]),
        vec![vec![2, 0, 1], vec![0, 3]]
    );
}

#[test]
fn chains_rebuild_a_shuffled_path_whole() {
    assert_eq!(find_chains(&vec![(2, 3), (0, 1), (1, 2)]), vec![vec![0, 1, 2, 3]]);
}

#[test]
fn chains_of_disjoint_segments_start_at_the_lesser_id() {
    assert_eq!(find_chains(&vec![(5, 4), (1, 0)]), vec![vec![0, 1], vec![4, 5]]);
}

#[test]
fn interpolation_at_the_lower_value_lands_on_its_corner() {
    let values = [-1, 3, 3, 3];
    assert_eq!(interpolate_edge(&values, (0, 1), -1), pt(0, 0, 4));
    assert_eq!(interpolate_edge(&values, (1, 0), -1), pt(0, 0, 4));
}

#[test]
fn interpolation_does_not_depend_on_edge_direction() {
    let values = [-1, 3, 3, 3];
    assert_eq!(interpolate_edge(&values, (0, 2), 0), pt(0, 1, 4));
    assert_eq!(interpolate_edge(&values, (2, 0), 0), pt(0, 1, 4));
}

use sc2pathlib::free_finder::FreeFinder;
use sc2pathlib::grid::MULT;
use sc2pathlib::movement::MAX_CELL;
use sc2pathlib::pathfind::{GridError, PathFind};
use sc2pathlib::rectangle::Rectangle;

fn grid_with(w: usize, h: usize, v: usize) -> Vec<Vec<usize>> {
    vec![vec![v; h]; w]
}

fn positive_sum(p: &PathFind) -> usize {
    p.map.iter().flatten().filter(|v| **v > 0).sum()
}

#[test]
fn normalize_sum_is_value_times_open_cells() {
    let mut grid = grid_with(4, 4, 3);
    grid[1][1] = 0;
    grid[2][3] = 7;
    let mut p = PathFind::new_internal(grid).unwrap();
    p.normalize_influence(5);
    assert_eq!(positive_sum(&p), 5 * 15);
    assert_eq!(p.map[1][1], 0);
    assert_eq!(p.get_normal_influence(), 5);
}

#[test]
fn reset_restores_construction_grid() {
    let grid = grid_with(3, 3, 1);
    let mut p = PathFind::new_internal(grid.clone()).unwrap();
    p.create_block((1, 1), (2, 2));
    p.add_influence_flat(&vec![(0, 0)], 9, 20000).unwrap();
    p.normalize_influence(4);
    p.reset();
    assert_eq!(p.map, grid);
}

#[test]
fn blocks_are_created_and_removed() {
    let mut p = PathFind::new_internal(grid_with(5, 5, 1)).unwrap();
    p.normalize_influence(2);
    p.create_blocks(&vec![(2, 2)], (3, 3));
    for x in 0..5 {
        for y in 0..5 {
            let inside = (1..4).contains(&x) && (1..4).contains(&y);
            assert_eq!(p.map[x][y], if inside { 0 } else { 2 });
        }
    }
    p.remove_block((2, 2), (1, 1));
    assert_eq!(p.map[2][2], 2);
    assert_eq!(p.map[1][1], 0);
}

#[test]
fn linear_influence_falls_off() {
    let mut p = PathFind::new_internal(grid_with(7, 1, 1)).unwrap();
    p.add_influence(&vec![(0, 0)], 100, 4 * MULT as u64).unwrap();
    assert_eq!(p.map[0][0], 101);
    assert_eq!(p.map[1][0], 76);
    assert_eq!(p.map[2][0], 51);
    assert_eq!(p.map[3][0], 26);
    assert_eq!(p.map[4][0], 1);
}

#[test]
fn influence_skips_blocked_cells_and_refuses_overflow() {
    let mut grid = grid_with(3, 1, 1);
    grid[1][0] = 0;
    let mut p = PathFind::new_internal(grid.clone()).unwrap();
    p.add_influence_flat(&vec![(0, 0)], 7, 5 * MULT as u64).unwrap();
    assert_eq!(p.map[1][0], 0);
    assert_eq!(p.map[0][0], 8);
    assert_eq!(p.map[2][0], 8);
    let mut q = PathFind::new_internal(grid.clone()).unwrap();
    assert_eq!(q.add_influence_flat(&vec![(0, 0)], MAX_CELL, 5 * MULT as u64), Err(GridError::CostTooHigh));
    assert_eq!(q.map, grid);
}

#[test]
fn walk_influence_respects_walls() {
    let mut grid = grid_with(3, 3, 1);
    grid[1][0] = 0;
    grid[1][1] = 0;
    let mut p = PathFind::new_internal(grid).unwrap();
    p.add_walk_influence_flat(&vec![(0, 0)], 10, 2 * MULT as u64).unwrap();
    assert_eq!(p.map[0][0], 11);
    assert_eq!(p.map[0][1], 11);
    assert_eq!(p.map[2][0], 1);
}

#[test]
fn lowest_influence_in_square() {
    let mut grid = grid_with(5, 5, 4);
    grid[3][3] = 2;
    grid[1][1] = 2;
    let p = PathFind::new_internal(grid).unwrap();
    let (pos, d) = p.lowest_influence((2, 2), 5).unwrap();
    assert_eq!(pos, (1, 1));
    assert_eq!(d, 14142);
}

#[test]
fn lowest_influence_walk_prefers_nearer() {
    let mut grid = grid_with(5, 1, 3);
    grid[1][0] = 2;
    grid[4][0] = 2;
    let p = PathFind::new_internal(grid).unwrap();
    let (pos, d) = p.lowest_influence_walk((0, 0), 100000).unwrap();
    assert_eq!(pos, (1, 0));
    assert_eq!(d, 10000);
}

#[test]
fn free_finder_probes_rings() {
    let f = FreeFinder::new();
    let mut grid = grid_with(5, 5, 0);
    grid[4][2] = 1;
    grid[2][4] = 1;
    assert_eq!(f.find_free((2, 2), &grid, 5, 5), (4, 2));
    let empty = grid_with(3, 3, 0);
    assert_eq!(f.find_free((1, 1), &empty, 3, 3), (1, 1));
}

#[test]
fn rectangle_is_centred_and_clamped() {
    let r = Rectangle::init_from_center2((5, 5), (3, 4), 10, 7);
    assert_eq!((r.x, r.y, r.x_end, r.y_end), (4, 3, 7, 7));
    let r = Rectangle::init_from_center2((0, 1), (4, 4), 10, 10);
    assert_eq!((r.x, r.y, r.x_end, r.y_end), (0, 0, 4, 4));
}

use sc2pathlib::grid::{euclidean_distance, manhattan_distance, octile_distance, MULT};
use sc2pathlib::pathfind::{GridError, PathError, PathFind};

fn open_grid(w: usize, h: usize) -> Vec<Vec<usize>> {
    vec![vec![1; h]; w]
}

fn fixed_to_f32(d: u64) -> f32 {
    d as f32 / MULT as f32
}

fn low_inside(start: (usize, usize), distance: f32) -> ((usize, usize), usize, f32) {
    let mut path_find = PathFind::new_internal(open_grid(10, 10)).unwrap();
    path_find.normalize_influence(1);
    let enemy_pos = (4usize, 0usize);
    let all_pos: Vec<(usize, usize)> = vec![enemy_pos];
    path_find.add_walk_influence(&all_pos, 100, 7 * MULT as u64).unwrap();
    let reach = (distance * MULT as f32) as u64;
    let r = path_find.find_low_inside_walk(start, enemy_pos, reach).unwrap().unwrap();
    let pos = r.0;
    let influence = path_find.map[pos.0][pos.1];
    let d = fixed_to_f32(octile_distance(enemy_pos, pos) as u64);
    (pos, influence, d)
}

#[test]
fn test_find_path_10x10() {
    let path_find = PathFind::new_internal(open_grid(10, 10)).unwrap();
    let r = path_find.find_path((0, 0), (8, 9), Some(0)).unwrap();
    let (_, distance) = r;
    assert_eq!(fixed_to_f32(distance), 12.3136);
}

#[test]
fn test_find_low_inside1() {
    let (_, influence, distance) = low_inside((5, 0), 8f32);
    assert!(distance <= 8f32);
    assert_eq!(influence, 1);
}

#[test]
fn test_find_low_inside2() {
    let (_, influence, distance) = low_inside((5, 0), 6f32);
    assert!(distance <= 6f32);
    assert_eq!(influence, 15);
}

#[test]
fn test_find_low_inside3() {
    let (_, influence, distance) = low_inside((8, 4), 8f32);
    assert!(distance <= 8f32);
    assert_eq!(influence, 1);
}

#[test]
fn test_find_low_inside_far1() {
    let (_, influence, distance) = low_inside((9, 9), 6f32);
    assert!(distance <= 6f32);
    assert_eq!(influence, 17);
}

#[test]
fn test_find_low_inside_far2() {
    let (_, influence, distance) = low_inside((9, 9), 8f32);
    assert!(distance <= 8f32);
    assert_eq!(influence, 1);
}

#[test]
fn path_starts_and_ends_at_query_cells() {
    let path_find = PathFind::new_internal(open_grid(6, 6)).unwrap();
    let (path, distance) = path_find.find_path((0, 0), (5, 3), Some(1)).unwrap();
    assert_eq!(path[0], (0, 0));
    assert_eq!(*path.last().unwrap(), (5, 3));
    // three diagonal steps and two straight ones
    assert_eq!(distance, 3 * 14142 + 2 * 10000);
}

#[test]
fn path_cost_matches_steps() {
    let mut grid = open_grid(5, 5);
    for y in 0..4 {
        grid[2][y] = 0;
    }
    let path_find = PathFind::new_internal(grid).unwrap();
    let (path, distance) = path_find.find_path((0, 0), (4, 0), Some(2)).unwrap();
    let mut total = 0u64;
    for w in path.windows(2) {
        let diagonal = w[0].0 != w[1].0 && w[0].1 != w[1].1;
        total += if diagonal { 14142 } else { 10000 };
    }
    assert_eq!(total, distance);
    assert!(path.iter().all(|c| c.0 != 2 || c.1 == 4));
}

#[test]
fn unreachable_end_gives_empty_path() {
    let mut grid = open_grid(5, 5);
    for y in 0..5 {
        grid[2][y] = 0;
    }
    let mut path_find = PathFind::new_internal(grid).unwrap();
    path_find.set_auto_correct(false);
    let (path, distance) = path_find.find_path((0, 0), (4, 4), None).unwrap();
    assert!(path.is_empty());
    assert_eq!(distance, 0);
}

#[test]
fn blocked_start_is_corrected() {
    let mut grid = open_grid(5, 5);
    grid[0][0] = 0;
    let path_find = PathFind::new_internal(grid).unwrap();
    let (path, _) = path_find.find_path((0, 0), (3, 0), Some(0)).unwrap();
    assert_eq!(path[0], (1, 0));
}

#[test]
fn out_of_bounds_query_is_rejected() {
    let path_find = PathFind::new_internal(open_grid(4, 4)).unwrap();
    assert_eq!(path_find.find_path((0, 0), (4, 0), None).unwrap_err(), PathError::OutOfBounds);
    assert!(path_find.find_destinations_in((9, 9), 10000).is_err());
}

#[test]
fn closer_than_stops_early() {
    let path_find = PathFind::new_internal(open_grid(10, 1)).unwrap();
    let (path, distance) = path_find.find_path_closer_than((0, 0), (9, 0), Some(0), 3 * MULT as u64).unwrap();
    assert_eq!(*path.last().unwrap(), (7, 0));
    assert_eq!(distance, 70000);
}

#[test]
fn influence_path_weights_cells() {
    let mut grid = open_grid(3, 1);
    grid[1][0] = 5;
    let path_find = PathFind::new_internal(grid).unwrap();
    let (_, distance) = path_find.find_path_influence((0, 0), (2, 0), Some(0)).unwrap();
    assert_eq!(distance, 5 * 10000 + 10000);
}

#[test]
fn large_agent_needs_room() {
    let mut grid = open_grid(3, 3);
    grid[1][0] = 0;
    grid[1][2] = 0;
    let path_find = PathFind::new_internal(grid).unwrap();
    let (path, _) = path_find.find_path_large((0, 1), (2, 1), None).unwrap();
    assert!(path.is_empty());
    let (path, _) = path_find.find_path((0, 1), (2, 1), None).unwrap();
    assert_eq!(path.len(), 3);
}

#[test]
fn construction_errors() {
    assert_eq!(PathFind::new_internal(vec![]).err(), Some(GridError::Empty));
    assert_eq!(PathFind::new_internal(vec![vec![1, 1], vec![1]]).err(), Some(GridError::Ragged));
    assert_eq!(PathFind::new_internal(vec![vec![1; 5000]]).err(), Some(GridError::TooLarge));
    assert_eq!(PathFind::new_internal(vec![vec![2_000_000]]).err(), Some(GridError::CostTooHigh));
}

#[test]
fn distance_metrics() {
    assert_eq!(octile_distance((0, 0), (3, 1)), 34142);
    assert_eq!(manhattan_distance((0, 0), (3, 1)), 40000);
    assert_eq!(euclidean_distance((0, 0), (3, 4)), 50000);
    assert_eq!(euclidean_distance((0, 0), (1, 1)), 14142);
    for (a, b) in [((0, 0), (7, 2)), ((5, 5), (1, 9)), ((3, 3), (3, 3))] {
        assert!(manhattan_distance(a, b) >= octile_distance(a, b));
    }
}

#[test]
fn destinations_within_distance() {
    let path_find = PathFind::new_internal(open_grid(5, 1)).unwrap();
    let mut d = path_find.find_destinations_in((0, 0), 20000).unwrap();
    d.sort();
    assert_eq!(d[0], ((1, 0), 10000));
    assert_eq!(d[1], ((2, 0), 20000));
    assert!(!d.iter().any(|e| e.0 == (0, 0)));
    let all = path_find.find_all_destinations((0, 0)).unwrap();
    assert_eq!(all.len(), 4);
}

#[test]
fn inverted_walk_uses_blocked_cells() {
    let grid = vec![vec![0], vec![0], vec![1]];
    let path_find = PathFind::new_internal(grid).unwrap();
    let d = path_find.invert_djiktra((0, 0), 100000).unwrap();
    assert_eq!(d, vec![((1, 0), 10000)]);
}

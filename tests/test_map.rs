use sc2pathlib::chokes::{group_chokes, Choke};
use sc2pathlib::climb::modify_climb;
use sc2pathlib::map::{MapError, MapType, TerrainMap};
use sc2pathlib::map_point::{Cliff, MapPoint};
use sc2pathlib::search::{heuristic_from_selector, Heuristic};

fn grid(w: usize, h: usize, v: usize) -> Vec<Vec<usize>> {
    vec![vec![v; h]; w]
}

#[test]
fn map_type_selector() {
    assert_eq!(MapType::from_selector(0), Some(MapType::Ground));
    assert_eq!(MapType::from_selector(3), Some(MapType::Air));
    assert_eq!(MapType::from_selector(4), None);
    assert_eq!(heuristic_from_selector(None), Heuristic::Manhattan);
    assert_eq!(heuristic_from_selector(Some(1)), Heuristic::Octile);
    assert_eq!(heuristic_from_selector(Some(7)), Heuristic::Euclidean);
}

#[test]
fn map_construction_errors() {
    let g = grid(6, 6, 1);
    assert_eq!(TerrainMap::new(vec![], g.clone(), g.clone(), 1, 1, 4, 4).err(), Some(MapError::BadGrid));
    assert_eq!(TerrainMap::new(grid(5, 6, 1), g.clone(), g.clone(), 1, 1, 4, 4).err(), Some(MapError::ShapeMismatch));
    assert_eq!(TerrainMap::new(g.clone(), g.clone(), g.clone(), 0, 1, 4, 4).err(), Some(MapError::BadArea));
    assert_eq!(TerrainMap::new(g.clone(), g.clone(), g.clone(), 1, 1, 6, 4).err(), Some(MapError::BadArea));
}

fn room() -> TerrainMap {
    let mut pathing = grid(8, 8, 0);
    for x in 2..6 {
        for y in 2..6 {
            pathing[x][y] = 1;
        }
    }
    let placement = grid(8, 8, 0);
    let heights = grid(8, 8, 10);
    TerrainMap::new(pathing, placement, heights, 1, 1, 6, 6).unwrap()
}

#[test]
fn map_grids_and_borders() {
    let map = room();
    let ground = map.get_ground_pathing();
    assert_eq!(ground[3][3], 1);
    assert_eq!(ground[1][1], 0);
    let air = map.get_air_pathing();
    assert_eq!(air[1][1], 1);
    assert_eq!(air[0][0], 0);
    let borders = map.get_borders();
    // the blocked cells next to the room, within the scanned columns and
    // rows 1..6: the left column and the bottom row of the ring
    assert_eq!(borders.len(), 9);
    assert!(!borders.contains(&(6, 3)));
    assert!(borders.contains(&(1, 1)));
    assert!(!borders.contains(&(3, 3)));
    let (path, d) = map.find_path(MapType::Ground, (2, 2), (5, 5), None).unwrap();
    assert_eq!(path.len(), 4);
    assert_eq!(d, 3 * 14142);
}

#[test]
fn map_draws() {
    let map = room();
    let chokes = map.draw_chokes();
    assert_eq!(chokes[1][1], 255);
    assert_eq!(chokes[3][3], 0);
    let climbs = map.draw_climbs();
    assert_eq!(climbs[3][3], 2);
    assert_eq!(climbs[0][0], 0);
}

#[test]
fn map_blocks_and_reset() {
    let mut map = room();
    map.create_blocks(&vec![(3, 3)], (1, 1));
    assert_eq!(map.ground_pathing.map[3][3], 0);
    assert_eq!(map.air_pathing.map[3][3], 1);
    map.reset();
    assert_eq!(map.ground_pathing.map[3][3], 1);
}

#[test]
fn climb_across_one_level() {
    // walkable low ground at x = 0, a blocked wall cell at x = 1, walkable
    // high ground at x = 2; the footprint to the right of the wall is one
    // level higher.
    let mut points = vec![vec![MapPoint::new(); 3]; 4];
    for x in 0..4 {
        for y in 0..3 {
            points[x][y].walkable = x != 1;
            points[x][y].height = if x >= 2 { 26 } else { 10 };
        }
    }
    modify_climb(&mut points, 0, 1, 1, 0);
    assert!(points[1][1].climbable);
    assert_eq!(points[0][1].cliff_type, Cliff::Low);
    assert_eq!(points[2][1].cliff_type, Cliff::High);
}

#[test]
fn choke_keeps_short_lines() {
    let mut c = Choke::new(((0, 0), (0, 4)));
    c.add_line((1, 0), (1, 4));
    c.add_line((2, 0), (2, 9));
    c.finalize();
    assert_eq!(c.get_lines().len(), 2);
    let mut points = vec![vec![MapPoint::new(); 5]; 5];
    for x in 0..5 {
        for y in 0..5 {
            points[x][y].walkable = true;
        }
    }
    c.set_points(&mut points);
    assert!(points[0][0].is_choke && points[0][4].is_choke);
    assert!(points[0][2].is_choke);
    let pixels = c.get_pixels();
    assert!(pixels.contains(&(0, 2)) && pixels.contains(&(1, 2)));
    assert!(!pixels.contains(&(0, 0)));
    assert_eq!(c.get_min_length(), 40000);
    let (a, b) = c.get_main_line();
    assert_eq!((a.x, a.y), (10000, 0));
    assert_eq!((b.x, b.y), (10000, 56666));
}

#[test]
fn parallel_segments_group_into_one_choke() {
    let mut points = vec![vec![MapPoint::new(); 6]; 6];
    for x in 0..6 {
        for y in 0..6 {
            points[x][y].walkable = true;
        }
    }
    let lines = vec![((0, 0), (0, 4)), ((1, 0), (1, 4)), ((2, 0), (2, 4)), ((3, 0), (3, 4)), ((5, 0), (5, 1))];
    let chokes = group_chokes(&lines, &mut points);
    assert_eq!(chokes.len(), 1);
    assert_eq!(chokes[0].get_lines().len(), 4);
    assert_eq!(chokes[0].get_min_length(), 40000);
    assert!(points[3][4].is_choke);
    assert!(points[2][2].is_choke);
    assert!(!points[5][0].is_choke);
}

use sc2pathlib::chokes::FixedPoint;
use sc2pathlib::map::{TerrainMap, MAPS_GROUND};
use sc2pathlib::map_point::MapPoint;
use sc2pathlib::pathfind::PathFind;
use sc2pathlib::vision::{ceiling_for, VisionMap, VisionUnit};

fn grid(w: usize, h: usize, v: usize) -> Vec<Vec<usize>> {
    vec![vec![v; h]; w]
}

fn room() -> TerrainMap {
    let mut pathing = grid(8, 8, 0);
    for x in 2..6 {
        for y in 2..6 {
            pathing[x][y] = 1;
        }
    }
    TerrainMap::new(pathing, grid(8, 8, 0), grid(8, 8, 10), 1, 1, 6, 6).unwrap()
}

fn flat_terrain(w: usize, h: usize) -> Vec<Vec<MapPoint>> {
    let mut t = vec![vec![MapPoint::new(); h]; w];
    for x in 0..w {
        for y in 0..h {
            t[x][y].walkable = true;
            t[x][y].height = 10;
        }
    }
    t
}

#[test]
fn flying_unit_sees_within_range() {
    let terrain = flat_terrain(10, 10);
    let mut v = VisionMap::new_internal(10, 10);
    v.add_unit(VisionUnit::new(false, true, (5, 5), 20000));
    v.calculate_vision_map(&terrain, &vec![]);
    assert_eq!(v.vision_status((5, 6)).unwrap(), 1);
    // exactly at sight range
    assert_eq!(v.vision_status((5, 7)).unwrap(), 1);
    assert_eq!(v.vision_status((7, 5)).unwrap(), 1);
    assert_eq!(v.vision_status((5, 8)).unwrap(), 0);
    assert_eq!(v.vision_status((9, 9)).unwrap(), 0);
    assert!(v.vision_status((10, 0)).is_err());
}

#[test]
fn flying_detector_detects() {
    let terrain = flat_terrain(10, 10);
    let mut v = VisionMap::new_internal(10, 10);
    v.add_unit(VisionUnit::new(true, true, (5, 5), 20000));
    v.calculate_vision_map(&terrain, &vec![]);
    assert_eq!(v.vision_status((4, 4)).unwrap(), 2);
    v.clear();
    assert_eq!(v.vision_status((4, 4)).unwrap(), 0);
}

#[test]
fn ground_ray_stops_at_high_ground() {
    let mut terrain = flat_terrain(10, 10);
    terrain[8][5].height = 30;
    let mut v = VisionMap::new_internal(10, 10);
    v.add_unit(VisionUnit::new(false, false, (5, 5), 50000));
    let rays = vec![vec![vec![(6, 5), (7, 5), (8, 5), (9, 5)]]];
    v.calculate_vision_map(&terrain, &rays);
    assert_eq!(v.vision_status((7, 5)).unwrap(), 1);
    assert_eq!(v.vision_status((8, 5)).unwrap(), 0);
    assert_eq!(v.vision_status((9, 5)).unwrap(), 0);
    let drawn = v.draw_vision();
    assert_eq!(drawn[6][5], 1);
}

#[test]
fn sight_ceiling_bands() {
    assert_eq!(ceiling_for(10), 15);
    assert_eq!(ceiling_for(12), 23);
    assert_eq!(ceiling_for(0), 7);
}

#[test]
fn connections_follow_ground_walk() {
    let mut map = room();
    map.calculate_connections((2, 2)).unwrap();
    assert!(map.is_connected((5, 5)));
    assert!(!map.is_connected((1, 1)));
    map.remove_connection((5, 5));
    assert!(!map.is_connected((5, 5)));
    assert!(map.calculate_connections((9, 9)).is_err());
}

#[test]
fn zones_flood_from_bases() {
    let mut map = room();
    map.calculate_zones(&vec![FixedPoint { x: 30000, y: 30000 }]);
    let zones = map.draw_zones();
    assert_eq!(zones[3][3], 70);
    assert_eq!(zones[5][5], 70);
    assert_eq!(zones[0][0], 0);
}

#[test]
fn fading_influence_on_map() {
    let mut map = room();
    map.add_influence_fading(MAPS_GROUND, &vec![(3, 3)], 10, 10000, 30000).unwrap();
    assert_eq!(map.ground_pathing.map[3][3], 11);
    assert_eq!(map.ground_pathing.map[4][3], 11);
    assert_eq!(map.ground_pathing.map[5][3], 6);
    assert_eq!(map.air_pathing.map[3][3], 1);
}

#[test]
fn hollow_influence_on_map() {
    let mut map = room();
    map.add_influence_flat_hollow(&vec![(3, 3)], 4, 10000, 30000).unwrap();
    assert_eq!(map.ground_pathing.map[3][3], 1);
    assert_eq!(map.ground_pathing.map[4][3], 1);
    assert_eq!(map.ground_pathing.map[5][3], 5);
}

#[test]
fn reset_after_edits() {
    let grid0 = grid(4, 4, 2);
    let mut p = PathFind::new_internal(grid0.clone()).unwrap();
    p.add_walk_influence(&vec![(1, 1)], 50, 30000).unwrap();
    p.create_blocks(&vec![(0, 0)], (2, 2));
    p.reset_void();
    assert_eq!(p.get_map(), grid0);
}

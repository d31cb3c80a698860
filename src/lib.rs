//! Grid pathfinding and terrain analysis: weighted walkability grids, A* and
//! bounded Dijkstra queries over them, influence layers, and terrain features
//! (climbable cliffs, chokepoints, zones, vision) derived from the same grids.

pub mod grid;
pub mod movement;
pub mod search;
pub mod free_finder;
pub mod rectangle;
pub mod pathfind;
pub mod influence;
pub mod lowest;
pub mod map_point;
pub mod climb;
pub mod chokes;
pub mod map;
pub mod pos;
pub mod connections;
pub mod vision;
pub mod zones;

//! Per-cell terrain features.
use vstd::prelude::*;

verus! {

/// Which side of a climbable cliff a cell is on.
#[derive(Clone, Copy, Debug, PartialEq, Eq, Structural)]
pub enum Cliff {
    Neither,
    Low,
    High,
    Both,
}

/// Terrain features of one cell.
#[derive(Clone, Copy, Debug, PartialEq, Eq, Structural)]
pub struct MapPoint {
    pub zone_index: i8,
    pub cliff_type: Cliff,
    pub pathable: bool,
    pub walkable: bool,
    pub climbable: bool,
    pub structure_index: i32,
    pub height: usize,
    pub overlord_spot: bool,
    pub is_border: bool,
    pub is_choke: bool,
    pub connected: bool,
}

impl MapPoint {
    /// A cell with no features, at height zero.
    pub fn new() -> (r: MapPoint)
        ensures
            r == MapPoint::blank(),
    {
        MapPoint {
            zone_index: 0,
            cliff_type: Cliff::Neither,
            pathable: false,
            walkable: false,
            climbable: false,
            structure_index: 0,
            height: 0,
            overlord_spot: false,
            is_border: false,
            is_choke: false,
            connected: false,
        }
    }

    pub open spec fn blank() -> MapPoint {
        MapPoint {
            zone_index: 0,
            cliff_type: Cliff::Neither,
            pathable: false,
            walkable: false,
            climbable: false,
            structure_index: 0,
            height: 0,
            overlord_spot: false,
            is_border: false,
            is_choke: false,
            connected: false,
        }
    }
}

/// A rectangular array of cells indexed `[x][y]`.
pub open spec fn points_ok(p: Seq<Vec<MapPoint>>) -> bool {
    &&& 0 < p.len()
    &&& 0 < p[0]@.len()
    &&& forall|x: int| 0 <= x < p.len() ==> (#[trigger] p[x]@.len()) == p[0]@.len()
}

pub open spec fn point_in(p: Seq<Vec<MapPoint>>, x: int, y: int) -> bool {
    0 <= x < p.len() && 0 <= y < p[x]@.len()
}

pub open spec fn pt(p: Seq<Vec<MapPoint>>, x: int, y: int) -> MapPoint {
    p[x]@[y]
}

/// Two arrays of cells of the same shape.
pub open spec fn same_shape(a: Seq<Vec<MapPoint>>, b: Seq<Vec<MapPoint>>) -> bool {
    &&& a.len() == b.len()
    &&& forall|x: int| 0 <= x < a.len() ==> (#[trigger] a[x]@.len()) == b[x]@.len()
}

} // verus!

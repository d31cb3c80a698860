//! Which cells a walk from a location reaches.
use vstd::prelude::*;

use crate::grid::{Cell, MULT};
use crate::influence::{listed, walk_found};
use crate::map::TerrainMap;
use crate::map_point::{point_in, points_ok, pt, MapPoint};

verus! {

/// How far, in cells, a connection search walks.
pub const CONNECTION_DISTANCE: usize = 400;

impl TerrainMap {
    /// Marks as connected exactly the cells a ground walk from `location`
    /// reaches within `CONNECTION_DISTANCE` cells (the location itself is
    /// not among them); every other cell is left unconnected.
    pub fn calculate_connections(&mut self, location: Cell) -> (r: Result<(), crate::pathfind::PathError>)
        requires
            old(self).wf(),
        ensures
            final(self).wf(),
            final(self).ground_pathing == old(self).ground_pathing,
            r is Err <==> !old(self).ground_pathing.contains(location),
            r is Err ==> final(self).points@ == old(self).points@,
            r is Ok ==> forall|x: int, y: int|
                point_in(old(self).points@, x, y) ==> (#[trigger] pt(final(self).points@, x, y)) == (MapPoint {
                    connected: listed(
                        walk_found(old(self).ground_pathing.map@, location, (CONNECTION_DISTANCE * MULT) as u64),
                        (x as usize, y as usize),
                    ),
                    ..pt(old(self).points@, x, y)
                }),
    {
        let found = match self.ground_pathing.djiktra(location, (CONNECTION_DISTANCE * MULT) as u64) {
            Ok(v) => v,
            Err(e) => {
                return Err(e);
            },
        };
        let ghost p0 = self.points@;
        let ghost set = walk_found(self.ground_pathing.map@, location, (CONNECTION_DISTANCE * MULT) as u64);
        let w = self.points.len();
        let h = self.points[0].len();
        let mut x: usize = 0;
        while x < w
            invariant
                self.wf(),
                self.ground_pathing == old(self).ground_pathing,
                p0 == old(self).points@,
                points_ok(p0),
                w == p0.len(),
                h == p0[0]@.len(),
                x <= w,
                self.points@.len() == w,
                forall|i: int| 0 <= i < w ==> (#[trigger] self.points@[i]@.len()) == p0[i]@.len(),
                forall|i: int, j: int|
                    point_in(p0, i, j) ==> (#[trigger] pt(self.points@, i, j)) == if i < x {
                        MapPoint { connected: false, ..pt(p0, i, j) }
                    } else {
                        pt(p0, i, j)
                    },
            decreases w - x,
        {
            assert(self.points@[x as int]@.len() == h) by {
                assert(p0[x as int]@.len() == p0[0]@.len());
            }
            let mut y: usize = 0;
            while y < h
                invariant
                    self.wf(),
                    self.ground_pathing == old(self).ground_pathing,
                    p0 == old(self).points@,
                    points_ok(p0),
                    w == p0.len(),
                    h == p0[0]@.len(),
                    x < w,
                    y <= h,
                    self.points@.len() == w,
                    self.points@[x as int]@.len() == h,
                    forall|i: int| 0 <= i < w ==> (#[trigger] self.points@[i]@.len()) == p0[i]@.len(),
                    forall|i: int, j: int|
                        point_in(p0, i, j) ==> (#[trigger] pt(self.points@, i, j)) == if i < x || (i == x && j < y) {
                            MapPoint { connected: false, ..pt(p0, i, j) }
                        } else {
                            pt(p0, i, j)
                        },
                decreases h - y,
            {
                let ghost before = self.points@;
                let mut p = self.points[x][y];
                p.connected = false;
                self.points[x][y] = p;
                proof {
                    assert(self.points@[x as int]@ == before[x as int]@.update(y as int, p));
                    assert forall|i: int| 0 <= i < w implies (#[trigger] self.points@[i]@.len()) == p0[i]@.len() by {
                        if i != x {
                            assert(self.points@[i] == before[i]);
                        }
                    }
                    assert forall|i: int, j: int| point_in(p0, i, j) implies (#[trigger] pt(self.points@, i, j)) == if i < x || (i == x && j < y + 1) {
                        MapPoint { connected: false, ..pt(p0, i, j) }
                    } else {
                        pt(p0, i, j)
                    } by {
                        let _ = pt(before, i, j);
                        if i != x {
                            assert(self.points@[i] == before[i]);
                        }
                    }
                    assert(points_ok(self.points@)) by {
                        assert forall|i: int| 0 <= i < self.points@.len() implies (#[trigger] self.points@[i]@.len()) == self.points@[0]@.len() by {
                            assert(p0[i]@.len() == p0[0]@.len());
                        }
                    }
                }
                y += 1;
            }
            x += 1;
        }
        let mut k: usize = 0;
        while k < found.len()
            invariant
                self.wf(),
                self.ground_pathing == old(self).ground_pathing,
                p0 == old(self).points@,
                points_ok(p0),
                w == p0.len(),
                h == p0[0]@.len(),
                found@.to_set() == set,
                forall|i: int| 0 <= i < found@.len() ==> self.ground_pathing.contains((#[trigger] found@[i]).0),
                k <= found@.len(),
                self.points@.len() == w,
                forall|i: int| 0 <= i < w ==> (#[trigger] self.points@[i]@.len()) == p0[i]@.len(),
                forall|i: int, j: int|
                    point_in(p0, i, j) ==> (#[trigger] pt(self.points@, i, j)) == (MapPoint {
                        connected: exists|q: int| 0 <= q < k && found@[q].0 == (i as usize, j as usize),
                        ..pt(p0, i, j)
                    }),
            decreases found@.len() - k,
        {
            let c = found[k].0;
            assert(self.ground_pathing.contains(found@[k as int].0));
            assert(self.points@[c.0 as int]@.len() == h) by {
                assert(p0[c.0 as int]@.len() == p0[0]@.len());
            }
            let ghost before = self.points@;
            let mut p = self.points[c.0][c.1];
            p.connected = true;
            self.points[c.0][c.1] = p;
            proof {
                assert(self.points@[c.0 as int]@ == before[c.0 as int]@.update(c.1 as int, p));
                assert forall|i: int| 0 <= i < w implies (#[trigger] self.points@[i]@.len()) == p0[i]@.len() by {
                    if i != c.0 {
                        assert(self.points@[i] == before[i]);
                    }
                }
                assert forall|i: int, j: int| point_in(p0, i, j) implies (#[trigger] pt(self.points@, i, j)) == (MapPoint {
                    connected: exists|q: int| 0 <= q < k + 1 && found@[q].0 == (i as usize, j as usize),
                    ..pt(p0, i, j)
                }) by {
                    let _ = pt(before, i, j);
                    if i != c.0 {
                        assert(self.points@[i] == before[i]);
                    }
                    if i == c.0 && j == c.1 {
                        assert(found@[k as int].0 == (i as usize, j as usize));
                    }
                    if exists|q: int| 0 <= q < k + 1 && found@[q].0 == (i as usize, j as usize) {
                        let q = choose|q: int| 0 <= q < k + 1 && found@[q].0 == (i as usize, j as usize);
                        if q < k {
                        } else {
                            assert(i == c.0 && j == c.1);
                        }
                    }
                }
                assert(points_ok(self.points@)) by {
                    assert forall|i: int| 0 <= i < self.points@.len() implies (#[trigger] self.points@[i]@.len()) == self.points@[0]@.len() by {
                        assert(p0[i]@.len() == p0[0]@.len());
                    }
                }
            }
            k += 1;
        }
        proof {
            assert forall|x: int, y: int| point_in(p0, x, y) implies (#[trigger] pt(self.points@, x, y)) == (MapPoint {
                connected: listed(set, (x as usize, y as usize)),
                ..pt(p0, x, y)
            }) by {
                let c = (x as usize, y as usize);
                if exists|q: int| 0 <= q < found@.len() && found@[q].0 == c {
                    let q = choose|q: int| 0 <= q < found@.len() && found@[q].0 == c;
                    assert(set.contains(found@[q]));
                }
                if listed(set, c) {
                    let e = choose|e: (Cell, u64)| set.contains(e) && e.0 == c;
                    let q = choose|q: int| 0 <= q < found@.len() && found@[q] == e;
                }
            }
        }
        Ok(())
    }

    /// Whether the cell was connected by the last `calculate_connections`.
    pub fn is_connected(&self, location: Cell) -> (r: bool)
        requires
            self.wf(),
            point_in(self.points@, location.0 as int, location.1 as int),
        ensures
            r == pt(self.points@, location.0 as int, location.1 as int).connected,
    {
        self.points[location.0][location.1].connected
    }

    /// Marks one cell as not connected.
    pub fn remove_connection(&mut self, location: Cell)
        requires
            old(self).wf(),
            point_in(old(self).points@, location.0 as int, location.1 as int),
        ensures
            final(self).wf(),
            forall|x: int, y: int|
                point_in(old(self).points@, x, y) ==> (#[trigger] pt(final(self).points@, x, y)) == if x == location.0 && y
                    == location.1 {
                    MapPoint { connected: false, ..pt(old(self).points@, x, y) }
                } else {
                    pt(old(self).points@, x, y)
                },
    {
        let ghost before = self.points@;
        let mut p = self.points[location.0][location.1];
        p.connected = false;
        self.points[location.0][location.1] = p;
        proof {
            assert forall|x: int, y: int| point_in(before, x, y) implies (#[trigger] pt(self.points@, x, y)) == if x == location.0 && y
                == location.1 {
                MapPoint { connected: false, ..pt(before, x, y) }
            } else {
                pt(before, x, y)
            } by {
                if x != location.0 {
                    assert(self.points@[x] == before[x]);
                }
            }
            assert(points_ok(self.points@)) by {
                assert forall|i: int| 0 <= i < self.points@.len() implies (#[trigger] self.points@[i]@.len()) == self.points@[0]@.len() by {
                    if i != location.0 {
                        assert(self.points@[i] == before[i]);
                    }
                    if location.0 != 0 {
                        assert(self.points@[0] == before[0]);
                    }
                }
            }
        }
    }
}

} // verus!

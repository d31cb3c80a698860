//! Vision: which cells units see or detect. Flying units see everything
//! within their sight range; ground units see along rays until the terrain
//! rises above what they can look over.
use vstd::prelude::*;

use crate::grid::{octile_distance, octile_spec, Cell, MULT};
use crate::map_point::{point_in, pt, MapPoint};
use crate::movement::MAX_SIDE;
use crate::pathfind::PathError;
use crate::rectangle::{rect_spec, Rectangle};

verus! {

/// What is known of a cell.
#[derive(Clone, Copy, Debug, PartialEq, Eq, Structural)]
pub enum VisionStatus {
    NotSeen,
    Seen,
    Detected,
}

/// A unit that gives vision: whether it detects, whether it flies, the cell
/// it stands on and its sight range (fixed point).
#[derive(Clone, Copy, Debug)]
pub struct VisionUnit {
    pub detector: bool,
    pub flying: bool,
    pub position: Cell,
    pub sight_range: u64,
}

impl VisionUnit {
    pub fn new(detector: bool, flying: bool, position: Cell, sight_range: u64) -> (r: VisionUnit)
        ensures
            r == (VisionUnit { detector, flying, position, sight_range }),
    {
        VisionUnit { detector, flying, position, sight_range }
    }
}

/// The status after a unit reveals a cell: detection overwrites, sight only
/// upgrades an unseen cell.
pub open spec fn revealed(s: VisionStatus, detector: bool) -> VisionStatus {
    if detector {
        VisionStatus::Detected
    } else if s == VisionStatus::NotSeen {
        VisionStatus::Seen
    } else {
        s
    }
}

fn reveal_status(s: VisionStatus, detector: bool) -> (r: VisionStatus)
    ensures
        r == revealed(s, detector),
{
    if detector {
        VisionStatus::Detected
    } else {
        match s {
            VisionStatus::NotSeen => VisionStatus::Seen,
            _ => s,
        }
    }
}

/// The highest terrain a ground unit standing at height `h` sees over: the
/// top of its band of eight, one band higher in the upper half of a band.
pub open spec fn sight_ceiling(h: int) -> int {
    h / 8 * 8 + 7 + if h % 8 >= 4 {
        8int
    } else {
        0
    }
}

pub open spec fn status_at(s: Seq<Vec<VisionStatus>>, x: int, y: int) -> VisionStatus {
    s[x]@[y]
}

pub open spec fn status_in(s: Seq<Vec<VisionStatus>>, x: int, y: int) -> bool {
    0 <= x < s.len() && 0 <= y < s[x]@.len()
}

/// The square scanned around a flying unit: its sight range in whole cells
/// on every side of it.
pub open spec fn sight_rect(u: VisionUnit, width: usize, height: usize) -> Rectangle {
    let d = u.sight_range as int / (MULT as int);
    let side = (if d > MAX_SIDE {
        2 * MAX_SIDE + 1
    } else {
        2 * d + 1
    }) as usize;
    rect_spec(u.position, (side, side), width, height)
}

/// The cells of the square that lie within sight range.
pub open spec fn rect_sight(u: VisionUnit, width: usize, height: usize, x: int, y: int) -> bool {
    sight_rect(u, width, height).contains(x, y) && octile_spec(u.position, (x as usize, y as usize)) <= u.sight_range
}

/// The cells a flying unit reveals: those of the grid within its sight range
/// (octile distance).
pub open spec fn in_sight(u: VisionUnit, width: usize, height: usize, x: int, y: int) -> bool {
    0 <= x < width && 0 <= y < height && octile_spec(u.position, (x as usize, y as usize)) <= u.sight_range
}

/// Every cell of the grid in sight lies in the scanned square.
proof fn lemma_sight_in_rect(u: VisionUnit, width: usize, height: usize, x: int, y: int)
    requires
        u.position.0 < width <= MAX_SIDE,
        u.position.1 < height <= MAX_SIDE,
    ensures
        in_sight(u, width, height, x, y) <==> rect_sight(u, width, height, x, y),
{
    if in_sight(u, width, height, x, y) {
        let c = u.position;
        let dx = crate::grid::abs_diff_spec(c.0 as int, x);
        let dy = crate::grid::abs_diff_spec(c.1 as int, y);
        let d = u.sight_range as int / (MULT as int);
        assert(10000 * dx <= u.sight_range && 10000 * dy <= u.sight_range);
        assert(dx <= d && dy <= d) by (nonlinear_arith)
            requires
                10000 * dx <= u.sight_range,
                10000 * dy <= u.sight_range,
                d == u.sight_range / 10000,
                dx >= 0,
                dy >= 0,
        ;
    }
}

/// How many cells from the start of `ray` a ground unit sees: up to the first
/// cell outside the terrain or above `ceiling`.
pub open spec fn seen_prefix(terrain: Seq<Vec<MapPoint>>, ray: Seq<Cell>, ceiling: int, n: int) -> bool {
    &&& 0 <= n <= ray.len()
    &&& forall|i: int|
        0 <= i < n ==> point_in(terrain, (#[trigger] ray[i]).0 as int, ray[i].1 as int) && pt(
            terrain,
            ray[i].0 as int,
            ray[i].1 as int,
        ).height <= ceiling
    &&& n < ray.len() ==> !(point_in(terrain, ray[n].0 as int, ray[n].1 as int) && pt(
        terrain,
        ray[n].0 as int,
        ray[n].1 as int,
    ).height <= ceiling)
}

pub open spec fn ray_cell_ok(terrain: Seq<Vec<MapPoint>>, c: Cell, ceiling: int) -> bool {
    point_in(terrain, c.0 as int, c.1 as int) && pt(terrain, c.0 as int, c.1 as int).height <= ceiling
}

/// The number of leading cells of `ray` inside the terrain and not above
/// `ceiling`.
pub open spec fn ray_len(terrain: Seq<Vec<MapPoint>>, ray: Seq<Cell>, ceiling: int) -> int
    decreases ray.len(),
{
    if ray.len() == 0 || !ray_cell_ok(terrain, ray[0], ceiling) {
        0
    } else {
        1 + ray_len(terrain, ray.drop_first(), ceiling)
    }
}

/// A unit looking along `ray` over terrain up to `ceiling` sees `(x, y)`.
pub open spec fn on_ray(terrain: Seq<Vec<MapPoint>>, ray: Seq<Cell>, ceiling: int, x: int, y: int) -> bool {
    exists|i: int| 0 <= i < ray_len(terrain, ray, ceiling) && (#[trigger] ray[i]) == (x as usize, y as usize)
}

proof fn lemma_ray_len(terrain: Seq<Vec<MapPoint>>, ray: Seq<Cell>, ceiling: int, n: int)
    requires
        seen_prefix(terrain, ray, ceiling, n),
    ensures
        ray_len(terrain, ray, ceiling) == n,
    decreases ray.len(),
{
    if n > 0 {
        assert(ray_cell_ok(terrain, ray[0], ceiling));
        let rest = ray.drop_first();
        assert forall|i: int| 0 <= i < n - 1 implies point_in(terrain, (#[trigger] rest[i]).0 as int, rest[i].1 as int) && pt(
            terrain,
            rest[i].0 as int,
            rest[i].1 as int,
        ).height <= ceiling by {
            assert(rest[i] == ray[i + 1]);
        }
        if n < ray.len() {
            assert(rest[n - 1] == ray[n]);
        }
        lemma_ray_len(terrain, rest, ceiling, n - 1);
    } else if ray.len() > 0 {
        assert(!ray_cell_ok(terrain, ray[0], ceiling));
    }
}

/// A grid of vision statuses indexed `[x][y]`, and the units that give it.
pub struct VisionMap {
    pub units: Vec<VisionUnit>,
    pub points: Vec<Vec<VisionStatus>>,
    pub width: usize,
    pub height: usize,
}

impl VisionMap {
    pub open spec fn wf(&self) -> bool {
        &&& self.points@.len() == self.width
        &&& 0 < self.width <= MAX_SIDE
        &&& 0 < self.height <= MAX_SIDE
        &&& forall|x: int| 0 <= x < self.width ==> (#[trigger] self.points@[x]@.len()) == self.height
    }

    /// An unseen `width × height` grid with no units.
    pub fn new_internal(width: usize, height: usize) -> (r: VisionMap)
        requires
            0 < width <= MAX_SIDE,
            0 < height <= MAX_SIDE,
        ensures
            r.wf(),
            r.width == width,
            r.height == height,
            r.units@.len() == 0,
            forall|x: int, y: int| status_in(r.points@, x, y) ==> status_at(r.points@, x, y) == VisionStatus::NotSeen,
    {
        let mut points: Vec<Vec<VisionStatus>> = Vec::new();
        let mut x: usize = 0;
        while x < width
            invariant
                x <= width,
                points@.len() == x,
                forall|i: int| 0 <= i < x ==> (#[trigger] points@[i]@.len()) == height,
                forall|i: int, j: int| status_in(points@, i, j) ==> status_at(points@, i, j) == VisionStatus::NotSeen,
            decreases width - x,
        {
            let mut row: Vec<VisionStatus> = Vec::new();
            let mut y: usize = 0;
            while y < height
                invariant
                    y <= height,
                    row@.len() == y,
                    forall|j: int| 0 <= j < y ==> (#[trigger] row@[j]) == VisionStatus::NotSeen,
                decreases height - y,
            {
                row.push(VisionStatus::NotSeen);
                y += 1;
            }
            let ghost prev = points@;
            points.push(row);
            proof {
                assert forall|i: int| 0 <= i < x + 1 implies (#[trigger] points@[i]@.len()) == height by {
                    if i < x {
                        assert(points@[i] == prev[i]);
                    }
                }
                assert forall|i: int, j: int| status_in(points@, i, j) implies status_at(points@, i, j) == VisionStatus::NotSeen by {
                    if i < x {
                        assert(points@[i] == prev[i]);
                        assert(status_in(prev, i, j));
                        let _ = status_at(prev, i, j);
                    } else {
                        assert(points@[i]@ == row@);
                        assert(row@[j] == VisionStatus::NotSeen);
                    }
                }
            }
            x += 1;
        }
        VisionMap { units: Vec::new(), points, width, height }
    }

    /// Sets every cell to unseen.
    fn clear_points(&mut self)
        requires
            old(self).wf(),
        ensures
            final(self).wf(),
            final(self).units@ == old(self).units@,
            final(self).width == old(self).width,
            final(self).height == old(self).height,
            forall|x: int, y: int| status_in(final(self).points@, x, y) ==> status_at(final(self).points@, x, y) == VisionStatus::NotSeen,
    {
        let mut x: usize = 0;
        while x < self.width
            invariant
                self.wf(),
                self.units@ == old(self).units@,
                self.width == old(self).width,
                self.height == old(self).height,
                x <= self.width,
                forall|i: int, j: int| status_in(self.points@, i, j) && i < x ==> status_at(self.points@, i, j) == VisionStatus::NotSeen,
            decreases self.width - x,
        {
            let mut y: usize = 0;
            while y < self.height
                invariant
                    self.wf(),
                    self.units@ == old(self).units@,
                    self.width == old(self).width,
                    self.height == old(self).height,
                    x < self.width,
                    y <= self.height,
                    forall|i: int, j: int|
                        status_in(self.points@, i, j) && (i < x || (i == x && j < y)) ==> status_at(self.points@, i, j)
                            == VisionStatus::NotSeen,
                decreases self.height - y,
            {
                let ghost before = self.points@;
                assert(self.points@[x as int]@.len() == self.height);
                self.points[x][y] = VisionStatus::NotSeen;
                proof {
                    assert(self.points@.len() == before.len());
                    assert(self.points@[x as int]@ == before[x as int]@.update(y as int, VisionStatus::NotSeen));
                    assert forall|i: int| 0 <= i < self.width implies (#[trigger] self.points@[i]@.len()) == self.height by {
                        if i != x {
                            assert(self.points@[i] == before[i]);
                        }
                    }
                    assert forall|i: int, j: int| status_in(self.points@, i, j) && (i < x || (i == x && j < y + 1)) implies status_at(self.points@, i, j)
                        == VisionStatus::NotSeen by {
                        if i != x {
                            assert(self.points@[i] == before[i]);
                        }
                        if status_in(before, i, j) {
                            let _ = status_at(before, i, j);
                        }
                    }
                }
                y += 1;
            }
            x += 1;
        }
    }

    /// Removes every unit and sets every cell to unseen.
    pub fn clear(&mut self)
        requires
            old(self).wf(),
        ensures
            final(self).wf(),
            final(self).units@.len() == 0,
            forall|x: int, y: int| status_in(final(self).points@, x, y) ==> status_at(final(self).points@, x, y) == VisionStatus::NotSeen,
    {
        self.units = Vec::new();
        self.clear_points();
    }

    pub fn add_unit(&mut self, unit: VisionUnit)
        requires
            old(self).wf(),
        ensures
            final(self).wf(),
            final(self).units@ == old(self).units@.push(unit),
            final(self).points@ == old(self).points@,
    {
        self.units.push(unit);
    }

    /// 0 unseen, 1 seen, 2 detected.
    pub fn vision_status(&self, position: Cell) -> (r: Result<usize, PathError>)
        requires
            self.wf(),
        ensures
            r is Err <==> !status_in(self.points@, position.0 as int, position.1 as int),
            r matches Ok(v) ==> v == match status_at(self.points@, position.0 as int, position.1 as int) {
                VisionStatus::NotSeen => 0usize,
                VisionStatus::Seen => 1usize,
                VisionStatus::Detected => 2usize,
            },
    {
        if position.0 >= self.width || position.1 >= self.height {
            return Err(PathError::OutOfBounds);
        }
        assert(self.points@[position.0 as int]@.len() == self.height);
        match self.points[position.0][position.1] {
            VisionStatus::NotSeen => Ok(0),
            VisionStatus::Seen => Ok(1),
            VisionStatus::Detected => Ok(2),
        }
    }

    /// Reveals every cell a flying unit sees (see `in_sight`).
    pub fn set_vision_around(&mut self, unit: VisionUnit)
        requires
            old(self).wf(),
            unit.position.0 < old(self).width,
            unit.position.1 < old(self).height,
        ensures
            final(self).wf(),
            final(self).units@ == old(self).units@,
            final(self).width == old(self).width,
            final(self).height == old(self).height,
            forall|x: int, y: int|
                status_in(old(self).points@, x, y) ==> status_at(final(self).points@, x, y) == if in_sight(
                    unit,
                    old(self).width,
                    old(self).height,
                    x,
                    y,
                ) {
                    revealed(status_at(old(self).points@, x, y), unit.detector)
                } else {
                    status_at(old(self).points@, x, y)
                },
    {
        let ghost p0 = self.points@;
        let d = unit.sight_range / (MULT as u64);
        let side: usize = if d > MAX_SIDE as u64 {
            2 * MAX_SIDE + 1
        } else {
            2 * (d as usize) + 1
        };
        let rect = Rectangle::init_from_center2(unit.position, (side, side), self.width, self.height);
        let ghost full = sight_rect(unit, self.width, self.height);
        assert(rect == full);
        let mut x: usize = rect.x;
        while x < rect.x_end
            invariant
                self.wf(),
                self.units@ == old(self).units@,
                self.width == old(self).width,
                self.height == old(self).height,
                p0 == old(self).points@,
                p0.len() == self.width,
                forall|i: int| 0 <= i < self.width ==> (#[trigger] p0[i]@.len()) == self.height,
                unit.position.0 < self.width,
                unit.position.1 < self.height,
                rect.x_end <= self.width,
                rect.y_end <= self.height,
                rect.x <= x,
                rect == sight_rect(unit, self.width, self.height),
                forall|i: int, j: int|
                    status_in(p0, i, j) ==> status_at(self.points@, i, j) == if i < x && rect_sight(unit, self.width, self.height, i, j) {
                        revealed(status_at(p0, i, j), unit.detector)
                    } else {
                        status_at(p0, i, j)
                    },
            decreases rect.x_end - x,
        {
            let mut y: usize = rect.y;
            while y < rect.y_end
                invariant
                    self.wf(),
                    self.units@ == old(self).units@,
                    self.width == old(self).width,
                    self.height == old(self).height,
                    p0 == old(self).points@,
                    p0.len() == self.width,
                    forall|i: int| 0 <= i < self.width ==> (#[trigger] p0[i]@.len()) == self.height,
                p0.len() == self.width,
                forall|i: int| 0 <= i < self.width ==> (#[trigger] p0[i]@.len()) == self.height,
                    unit.position.0 < self.width,
                    unit.position.1 < self.height,
                    rect.x_end <= self.width,
                    rect.y_end <= self.height,
                    rect.x <= x < rect.x_end,
                    rect.y <= y,
                    rect == sight_rect(unit, self.width, self.height),
                    forall|i: int, j: int|
                        status_in(p0, i, j) ==> status_at(self.points@, i, j) == if (i < x || (i == x && j < y)) && rect_sight(
                            unit,
                            self.width,
                            self.height,
                            i,
                            j,
                        ) {
                            revealed(status_at(p0, i, j), unit.detector)
                        } else {
                            status_at(p0, i, j)
                        },
                decreases rect.y_end - y,
            {
                let d = octile_distance(unit.position, (x, y)) as u64;
                if d <= unit.sight_range {
                    let ghost before = self.points@;
                    assert(self.points@[x as int]@.len() == self.height);
                    let s = reveal_status(self.points[x][y], unit.detector);
                    self.points[x][y] = s;
                    proof {
                        assert(self.points@.len() == before.len());
                        assert(self.points@[x as int]@ == before[x as int]@.update(y as int, s));
                        assert forall|i: int| 0 <= i < self.width implies (#[trigger] self.points@[i]@.len()) == self.height by {
                            if i != x {
                                assert(self.points@[i] == before[i]);
                            }
                        }
                        assert forall|i: int, j: int| status_in(p0, i, j) implies status_at(self.points@, i, j) == if (i < x || (i == x
                            && j < y + 1)) && rect_sight(unit, self.width, self.height, i, j) {
                            revealed(status_at(p0, i, j), unit.detector)
                        } else {
                            status_at(p0, i, j)
                        } by {
                            let _ = status_at(before, i, j);
                            if i != x {
                                assert(self.points@[i] == before[i]);
                            }
                        }
                    }
                }
                y += 1;
            }
            proof {
                assert forall|i: int, j: int| status_in(p0, i, j) && i == x && j >= rect.y_end implies !rect_sight(unit, self.width, self.height, i, j) by {}
            }
            x += 1;
        }
        proof {
            assert forall|i: int, j: int| status_in(p0, i, j) implies in_sight(unit, self.width, self.height, i, j)
                == rect_sight(unit, self.width, self.height, i, j) by {
                lemma_sight_in_rect(unit, self.width, self.height, i, j);
            }
        }
    }

    /// Reveals the cells of `ray` from its start up to the first one outside
    /// the terrain or higher than `ceiling`.
    pub fn reveal_ray(&mut self, terrain: &Vec<Vec<MapPoint>>, ray: &Vec<Cell>, ceiling: usize, detector: bool)
        requires
            old(self).wf(),
            terrain@.len() == old(self).width,
            forall|x: int| 0 <= x < terrain@.len() ==> (#[trigger] terrain@[x]@.len()) == old(self).height,
        ensures
            final(self).wf(),
            final(self).units@ == old(self).units@,
            final(self).width == old(self).width,
            final(self).height == old(self).height,
            forall|x: int, y: int|
                status_in(old(self).points@, x, y) ==> status_at(final(self).points@, x, y) == if on_ray(
                    terrain@,
                    ray@,
                    ceiling as int,
                    x,
                    y,
                ) {
                    revealed(status_at(old(self).points@, x, y), detector)
                } else {
                    status_at(old(self).points@, x, y)
                },
    {
        let ghost p0 = self.points@;
        let mut k: usize = 0;
        while k < ray.len()
            invariant
                self.wf(),
                self.units@ == old(self).units@,
                self.width == old(self).width,
                self.height == old(self).height,
                p0 == old(self).points@,
                p0.len() == self.width,
                forall|i: int| 0 <= i < self.width ==> (#[trigger] p0[i]@.len()) == self.height,
                terrain@.len() == self.width,
                forall|x: int| 0 <= x < terrain@.len() ==> (#[trigger] terrain@[x]@.len()) == self.height,
                k <= ray@.len(),
                forall|i: int|
                    0 <= i < k ==> point_in(terrain@, (#[trigger] ray@[i]).0 as int, ray@[i].1 as int) && pt(
                        terrain@,
                        ray@[i].0 as int,
                        ray@[i].1 as int,
                    ).height <= ceiling,
                forall|x: int, y: int|
                    status_in(p0, x, y) ==> status_at(self.points@, x, y) == if exists|i: int|
                        0 <= i < k && (#[trigger] ray@[i]) == (x as usize, y as usize) {
                        revealed(status_at(p0, x, y), detector)
                    } else {
                        status_at(p0, x, y)
                    },
            decreases ray@.len() - k,
        {
            let c = ray[k];
            if c.0 >= terrain.len() || c.1 >= terrain[c.0].len() || terrain[c.0][c.1].height > ceiling {
                assert(seen_prefix(terrain@, ray@, ceiling as int, k as int));
                proof {
                    lemma_ray_len(terrain@, ray@, ceiling as int, k as int);
                }
                return;
            }
            let ghost before = self.points@;
            assert(self.points@[c.0 as int]@.len() == self.height);
            let s = reveal_status(self.points[c.0][c.1], detector);
            self.points[c.0][c.1] = s;
            proof {
                assert(self.points@.len() == before.len());
                assert(self.points@[c.0 as int]@ == before[c.0 as int]@.update(c.1 as int, s));
                assert forall|i: int| 0 <= i < self.width implies (#[trigger] self.points@[i]@.len()) == self.height by {
                    if i != c.0 {
                        assert(self.points@[i] == before[i]);
                    }
                }
                assert forall|x: int, y: int| status_in(p0, x, y) implies status_at(self.points@, x, y) == if exists|i: int|
                    0 <= i < k + 1 && (#[trigger] ray@[i]) == (x as usize, y as usize) {
                    revealed(status_at(p0, x, y), detector)
                } else {
                    status_at(p0, x, y)
                } by {
                    let _ = status_at(before, x, y);
                    if x != c.0 {
                        assert(self.points@[x] == before[x]);
                    }
                    if x == c.0 && y == c.1 {
                        assert(ray@[k as int] == (x as usize, y as usize));
                    }
                    if exists|i: int| 0 <= i < k + 1 && (#[trigger] ray@[i]) == (x as usize, y as usize) {
                        let i = choose|i: int| 0 <= i < k + 1 && (#[trigger] ray@[i]) == (x as usize, y as usize);
                        if i == k {
                            assert(x == c.0 && y == c.1);
                        }
                    }
                }
            }
            k += 1;
        }
        assert(seen_prefix(terrain@, ray@, ceiling as int, k as int));
        proof {
            lemma_ray_len(terrain@, ray@, ceiling as int, k as int);
        }
    }
}

/// The ceiling of `sight_ceiling` for a unit standing at height `h`.
pub fn ceiling_for(h: usize) -> (r: usize)
    requires
        h <= usize::MAX - 16,
    ensures
        r == sight_ceiling(h as int),
{
    let base = h / 8 * 8 + 7;
    if h % 8 >= 4 {
        base + 8
    } else {
        base
    }
}

} // verus!

verus! {

/// The terrain height a walking unit sees over.
pub open spec fn unit_ceiling(terrain: Seq<Vec<MapPoint>>, u: VisionUnit) -> int {
    let h = pt(terrain, u.position.0 as int, u.position.1 as int).height;
    if h <= usize::MAX - 16 {
        sight_ceiling(h as int)
    } else {
        usize::MAX as int
    }
}

/// The rays of the `k`-th unit, none when `rays` has no entry for it.
pub open spec fn unit_rays(rays: Seq<Vec<Vec<Cell>>>, k: int) -> Seq<Vec<Cell>> {
    if 0 <= k < rays.len() {
        rays[k]@
    } else {
        Seq::empty()
    }
}

/// One of the first `r` rays shows `(x, y)`.
pub open spec fn rays_see(terrain: Seq<Vec<MapPoint>>, rs: Seq<Vec<Cell>>, r: int, ceiling: int, x: int, y: int) -> bool {
    exists|q: int| 0 <= q < r && #[trigger] on_ray(terrain, rs[q]@, ceiling, x, y)
}

/// The `k`-th unit sees `(x, y)`: it stands on the grid, and flies with the
/// cell in sight, or walks with the cell on one of its rays.
pub open spec fn unit_sees(
    terrain: Seq<Vec<MapPoint>>,
    rays: Seq<Vec<Vec<Cell>>>,
    units: Seq<VisionUnit>,
    k: int,
    width: usize,
    height: usize,
    x: int,
    y: int,
) -> bool {
    let u = units[k];
    &&& u.position.0 < width && u.position.1 < height
    &&& if u.flying {
        in_sight(u, width, height, x, y)
    } else {
        rays_see(terrain, unit_rays(rays, k), unit_rays(rays, k).len() as int, unit_ceiling(terrain, u), x, y)
    }
}

/// The status the first `n` units give `(x, y)`: detected when a detector
/// sees it, seen when any unit does, else unseen.
pub open spec fn status_from(
    terrain: Seq<Vec<MapPoint>>,
    rays: Seq<Vec<Vec<Cell>>>,
    units: Seq<VisionUnit>,
    n: int,
    width: usize,
    height: usize,
    x: int,
    y: int,
) -> VisionStatus {
    if exists|k: int| 0 <= k < n && units[k].detector && #[trigger] unit_sees(terrain, rays, units, k, width, height, x, y) {
        VisionStatus::Detected
    } else if exists|k: int| 0 <= k < n && #[trigger] unit_sees(terrain, rays, units, k, width, height, x, y) {
        VisionStatus::Seen
    } else {
        VisionStatus::NotSeen
    }
}

pub open spec fn updated(s: VisionStatus, sees: bool, detector: bool) -> VisionStatus {
    if sees {
        revealed(s, detector)
    } else {
        s
    }
}

proof fn lemma_status_step(
    terrain: Seq<Vec<MapPoint>>,
    rays: Seq<Vec<Vec<Cell>>>,
    units: Seq<VisionUnit>,
    k: int,
    width: usize,
    height: usize,
    x: int,
    y: int,
)
    requires
        0 <= k < units.len(),
    ensures
        status_from(terrain, rays, units, k + 1, width, height, x, y) == updated(
            status_from(terrain, rays, units, k, width, height, x, y),
            unit_sees(terrain, rays, units, k, width, height, x, y),
            units[k].detector,
        ),
{
    if unit_sees(terrain, rays, units, k, width, height, x, y) {
        if exists|q: int| 0 <= q < k && #[trigger] unit_sees(terrain, rays, units, q, width, height, x, y) {
            let q = choose|q: int| 0 <= q < k && #[trigger] unit_sees(terrain, rays, units, q, width, height, x, y);
            assert(0 <= q < k + 1 && unit_sees(terrain, rays, units, q, width, height, x, y));
        }
        if exists|q: int| 0 <= q < k && units[q].detector && #[trigger] unit_sees(terrain, rays, units, q, width, height, x, y) {
            let q = choose|q: int| 0 <= q < k && units[q].detector && #[trigger] unit_sees(terrain, rays, units, q, width, height, x, y);
            assert(0 <= q < k + 1 && units[q].detector && unit_sees(terrain, rays, units, q, width, height, x, y));
        }
    } else {
        if exists|q: int| 0 <= q < k + 1 && #[trigger] unit_sees(terrain, rays, units, q, width, height, x, y) {
            let q = choose|q: int| 0 <= q < k + 1 && #[trigger] unit_sees(terrain, rays, units, q, width, height, x, y);
            assert(q < k);
        }
        if exists|q: int| 0 <= q < k + 1 && units[q].detector && #[trigger] unit_sees(terrain, rays, units, q, width, height, x, y) {
            let q = choose|q: int| 0 <= q < k + 1 && units[q].detector && #[trigger] unit_sees(terrain, rays, units, q, width, height, x, y);
            assert(q < k);
        }
    }
}

impl VisionMap {
    /// Recomputes every status from the units: a cell is detected when a
    /// detector sees it, seen when any unit does, unseen otherwise (see
    /// `unit_sees`). `rays[k]` holds the rays of the `k`-th unit when it
    /// walks; a walking unit sees over terrain up to `sight_ceiling` of the
    /// height it stands at.
    pub fn calculate_vision_map(&mut self, terrain: &Vec<Vec<MapPoint>>, rays: &Vec<Vec<Vec<Cell>>>)
        requires
            old(self).wf(),
            terrain@.len() == old(self).width,
            forall|x: int| 0 <= x < terrain@.len() ==> (#[trigger] terrain@[x]@.len()) == old(self).height,
        ensures
            final(self).wf(),
            final(self).units@ == old(self).units@,
            final(self).width == old(self).width,
            final(self).height == old(self).height,
            forall|x: int, y: int|
                status_in(final(self).points@, x, y) ==> status_at(final(self).points@, x, y) == status_from(
                    terrain@,
                    rays@,
                    old(self).units@,
                    old(self).units@.len() as int,
                    old(self).width,
                    old(self).height,
                    x,
                    y,
                ),
    {
        self.clear_points();
        let ghost units = self.units@;
        let n = self.units.len();
        let mut k: usize = 0;
        while k < n
            invariant
                self.wf(),
                self.units@ == old(self).units@,
                units == self.units@,
                n == units.len(),
                k <= n,
                self.width == old(self).width,
                self.height == old(self).height,
                terrain@.len() == self.width,
                forall|x: int| 0 <= x < terrain@.len() ==> (#[trigger] terrain@[x]@.len()) == self.height,
                forall|x: int, y: int|
                    status_in(self.points@, x, y) ==> status_at(self.points@, x, y) == status_from(
                        terrain@,
                        rays@,
                        units,
                        k as int,
                        self.width,
                        self.height,
                        x,
                        y,
                    ),
            decreases n - k,
        {
            let unit = self.units[k];
            let ghost before = self.points@;
            if unit.position.0 < self.width && unit.position.1 < self.height {
                if unit.flying {
                    self.set_vision_around(unit);
                } else if k < rays.len() {
                    assert(terrain@[unit.position.0 as int]@.len() == self.height);
                    let h = terrain[unit.position.0][unit.position.1].height;
                    let ceiling = if h <= usize::MAX - 16 {
                        ceiling_for(h)
                    } else {
                        usize::MAX
                    };
                    assert(ceiling as int == unit_ceiling(terrain@, unit));
                    let unit_rays = &rays[k];
                    let mut r: usize = 0;
                    while r < unit_rays.len()
                        invariant
                            self.wf(),
                            self.units@ == old(self).units@,
                            units == self.units@,
                            self.width == old(self).width,
                            self.height == old(self).height,
                            terrain@.len() == self.width,
                            forall|x: int| 0 <= x < terrain@.len() ==> (#[trigger] terrain@[x]@.len()) == self.height,
                            r <= unit_rays@.len(),
                            before.len() == self.width,
                            forall|x: int| 0 <= x < self.width ==> (#[trigger] before[x]@.len()) == self.height,
                            forall|x: int, y: int|
                                status_in(before, x, y) ==> status_at(self.points@, x, y) == updated(
                                    status_at(before, x, y),
                                    rays_see(terrain@, unit_rays@, r as int, ceiling as int, x, y),
                                    unit.detector,
                                ),
                        decreases unit_rays@.len() - r,
                    {
                        let ghost mid = self.points@;
                        self.reveal_ray(terrain, &unit_rays[r], ceiling, unit.detector);
                        proof {
                            assert forall|x: int, y: int| status_in(before, x, y) implies status_at(self.points@, x, y) == updated(
                                status_at(before, x, y),
                                rays_see(terrain@, unit_rays@, r as int + 1, ceiling as int, x, y),
                                unit.detector,
                            ) by {
                                assert(status_in(mid, x, y));
                                if on_ray(terrain@, unit_rays@[r as int]@, ceiling as int, x, y) {
                                    assert(0 <= r < r + 1 && on_ray(terrain@, unit_rays@[r as int]@, ceiling as int, x, y));
                                }
                                if rays_see(terrain@, unit_rays@, r as int, ceiling as int, x, y) {
                                    let q = choose|q: int| 0 <= q < r && #[trigger] on_ray(terrain@, unit_rays@[q]@, ceiling as int, x, y);
                                    assert(0 <= q < r + 1);
                                }
                                if rays_see(terrain@, unit_rays@, r as int + 1, ceiling as int, x, y) {
                                    let q = choose|q: int| 0 <= q < r + 1 && #[trigger] on_ray(terrain@, unit_rays@[q]@, ceiling as int, x, y);
                                    if q < r {
                                        assert(rays_see(terrain@, unit_rays@, r as int, ceiling as int, x, y));
                                    }
                                }
                            }
                        }
                        r += 1;
                    }
                }
            }
            proof {
                assert forall|x: int, y: int| status_in(self.points@, x, y) implies status_at(self.points@, x, y) == status_from(
                    terrain@,
                    rays@,
                    units,
                    k as int + 1,
                    self.width,
                    self.height,
                    x,
                    y,
                ) by {
                    assert(status_in(before, x, y));
                    lemma_status_step(terrain@, rays@, units, k as int, self.width, self.height, x, y);
                    assert(unit_rays(rays@, k as int) == if k < rays@.len() { rays@[k as int]@ } else { Seq::<Vec<Cell>>::empty() });
                }
            }
            k += 1;
        }
    }

    /// A grid of codes: 0 unseen, 1 seen, 2 detected.
    pub fn draw_vision(&self) -> (r: Vec<Vec<usize>>)
        requires
            self.wf(),
        ensures
            r@.len() == self.width,
            forall|x: int| 0 <= x < self.width ==> (#[trigger] r@[x]@.len()) == self.height,
            forall|x: int, y: int|
                0 <= x < self.width && 0 <= y < self.height ==> (#[trigger] r@[x]@[y]) == match status_at(self.points@, x, y) {
                    VisionStatus::NotSeen => 0usize,
                    VisionStatus::Seen => 1usize,
                    VisionStatus::Detected => 2usize,
                },
    {
        let mut out: Vec<Vec<usize>> = Vec::new();
        let mut x: usize = 0;
        while x < self.width
            invariant
                self.wf(),
                x <= self.width,
                out@.len() == x,
                forall|i: int| 0 <= i < x ==> (#[trigger] out@[i]@.len()) == self.height,
                forall|i: int, j: int|
                    0 <= i < x && 0 <= j < self.height ==> (#[trigger] out@[i]@[j]) == match status_at(self.points@, i, j) {
                        VisionStatus::NotSeen => 0usize,
                        VisionStatus::Seen => 1usize,
                        VisionStatus::Detected => 2usize,
                    },
            decreases self.width - x,
        {
            assert(self.points@[x as int]@.len() == self.height);
            let mut row: Vec<usize> = Vec::new();
            let mut y: usize = 0;
            while y < self.height
                invariant
                    self.wf(),
                    x < self.width,
                    y <= self.height,
                    self.points@[x as int]@.len() == self.height,
                    row@.len() == y,
                    forall|j: int| 0 <= j < y ==> (#[trigger] row@[j]) == match status_at(self.points@, x as int, j) {
                        VisionStatus::NotSeen => 0usize,
                        VisionStatus::Seen => 1usize,
                        VisionStatus::Detected => 2usize,
                    },
                decreases self.height - y,
            {
                let code: usize = match self.points[x][y] {
                    VisionStatus::NotSeen => 0,
                    VisionStatus::Seen => 1,
                    VisionStatus::Detected => 2,
                };
                row.push(code);
                y += 1;
            }
            let ghost prev = out@;
            out.push(row);
            proof {
                assert forall|i: int, j: int| 0 <= i < x + 1 && 0 <= j < self.height implies (#[trigger] out@[i]@[j]) == match status_at(self.points@, i, j) {
                    VisionStatus::NotSeen => 0usize,
                    VisionStatus::Seen => 1usize,
                    VisionStatus::Detected => 2usize,
                } by {
                    if i < x {
                        assert(out@[i] == prev[i]);
                    }
                }
                assert forall|i: int| 0 <= i < x + 1 implies (#[trigger] out@[i]@.len()) == self.height by {
                    if i < x {
                        assert(out@[i] == prev[i]);
                    }
                }
            }
            x += 1;
        }
        out
    }
}

} // verus!

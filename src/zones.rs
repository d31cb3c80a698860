//! Zones: regions of walkable ground flood filled from base locations,
//! bounded by height bands, chokes and distance.
use vstd::prelude::*;

use crate::chokes::FixedPoint;
use crate::grid::{Cell, MULT};
use crate::map::{count_false, lemma_count_false_nonneg, lemma_count_false_set, lemma_all_false, TerrainMap};
use crate::map_point::{point_in, points_ok, pt, same_shape, MapPoint};
use crate::movement::{cell_in, Movement, MAX_SIDE};
use crate::pathfind::closest_spec;
use crate::search::{astar_found, path_cost, Heuristic};

verus! {

/// Height difference beyond which a flood fill leaves a zone.
pub const ZONE_DIFFERENCE: usize = 12;

/// How far, in cells, a zone reaches from its base location.
pub const ZONE_RADIUS: u64 = 30;

/// `b` is `a` with at most the zone indices changed.
pub open spec fn only_zones_change(a: Seq<Vec<MapPoint>>, b: Seq<Vec<MapPoint>>) -> bool {
    &&& same_shape(a, b)
    &&& forall|i: int, j: int|
        point_in(a, i, j) ==> (#[trigger] pt(b, i, j)) == (MapPoint { zone_index: pt(b, i, j).zone_index, ..pt(a, i, j) })
}

/// Cells whose zone changed between `a` and `b` are walkable and now hold a
/// zone in `1..=count`.
pub open spec fn zoned_walkable(a: Seq<Vec<MapPoint>>, b: Seq<Vec<MapPoint>>, count: int) -> bool {
    forall|i: int, j: int|
        point_in(a, i, j) && (#[trigger] pt(b, i, j)).zone_index != pt(a, i, j).zone_index ==> pt(a, i, j).walkable
            && 1 <= pt(b, i, j).zone_index <= count
}


/// The zone index of every cell.
pub open spec fn zones_of(p: Seq<Vec<MapPoint>>) -> Seq<Seq<i8>> {
    Seq::new(p.len(), |i: int| Seq::new(p[i]@.len(), |j: int| p[i]@[j].zone_index))
}

/// The cell a fixed-point location lies in.
pub open spec fn cell_of(p: FixedPoint) -> Cell {
    ((p.x / (MULT as u64)) as usize, (p.y / (MULT as u64)) as usize)
}

/// The length of the path `find_path` returns on `g` from `a` to `b` with
/// the Euclidean estimate.
pub open spec fn route_len(g: Seq<Vec<usize>>, auto_correct: bool, a: Cell, b: Cell) -> int {
    match astar_found(
        Movement::Normal,
        crate::movement::cells(g),
        closest_spec(g, auto_correct, a),
        closest_spec(g, auto_correct, b),
        Heuristic::Euclidean,
        1,
        None,
    ) {
        Some(f) => path_cost(Movement::Normal, g, f.0),
        None => 0,
    }
}

/// The cell `c` stays in its earlier zone `zone`: both base cells lie on the
/// reaper grid and the route from `c` to that zone's base is shorter than to
/// `origin`.
pub open spec fn keeps_zone(
    reaper: Seq<Vec<usize>>,
    auto_correct: bool,
    bases: Seq<FixedPoint>,
    zone: i8,
    origin: FixedPoint,
    c: Cell,
) -> bool {
    &&& zone > 0
    &&& zone - 1 < bases.len()
    &&& cell_in(reaper, cell_of(bases[zone - 1]))
    &&& cell_in(reaper, cell_of(origin))
    &&& route_len(reaper, auto_correct, c, cell_of(bases[zone - 1])) < route_len(reaper, auto_correct, c, cell_of(origin))
}

/// The height `h` lies within `ZONE_DIFFERENCE` of `target`.
pub open spec fn in_band(target: int, h: int) -> bool {
    !(target > h + ZONE_DIFFERENCE || h > target + ZONE_DIFFERENCE)
}

/// The neighbours of `c` a fill visits next, pushed right, up, left, down
/// (so visited down, left, up, right).
pub open spec fn pushes(stack: Seq<Cell>, c: Cell, w: int, h: int) -> Seq<Cell> {
    let s1 = if c.0 + 1 < w { stack.push(((c.0 + 1) as usize, c.1)) } else { stack };
    let s2 = if c.1 + 1 < h { s1.push((c.0, (c.1 + 1) as usize)) } else { s1 };
    let s3 = if c.0 > 0 { s2.push(((c.0 - 1) as usize, c.1)) } else { s2 };
    if c.1 > 0 { s3.push((c.0, (c.1 - 1) as usize)) } else { s3 }
}

/// The zones after a depth-first fill of zone `idx` with cells `stack` still to
/// visit: a cell already in `idx` or not walkable is passed over; a cell that
/// `keeps_zone` is passed over; any other cell joins `idx` and, unless it is
/// outside the height band, a choke cell or beyond `ZONE_RADIUS` of `origin`,
/// its neighbours are visited. `fuel` bounds the number of visits.
pub open spec fn fill_spec(
    t: Seq<Vec<MapPoint>>,
    reaper: Seq<Vec<usize>>,
    auto_correct: bool,
    bases: Seq<FixedPoint>,
    z: Seq<Seq<i8>>,
    stack: Seq<Cell>,
    target: int,
    idx: i8,
    origin: FixedPoint,
    fuel: nat,
) -> Seq<Seq<i8>>
    decreases fuel,
{
    if fuel == 0 || stack.len() == 0 {
        z
    } else {
        let c = stack.last();
        let rest = stack.drop_last();
        let zone = z[c.0 as int][c.1 as int];
        let p = pt(t, c.0 as int, c.1 as int);
        if zone == idx || !p.walkable || keeps_zone(reaper, auto_correct, bases, zone, origin, c) {
            fill_spec(t, reaper, auto_correct, bases, z, rest, target, idx, origin, (fuel - 1) as nat)
        } else {
            let z2 = z.update(c.0 as int, z[c.0 as int].update(c.1 as int, idx));
            if !in_band(target, p.height as int) || p.is_choke || beyond_radius(origin, c.0 as int, c.1 as int) {
                fill_spec(t, reaper, auto_correct, bases, z2, rest, target, idx, origin, (fuel - 1) as nat)
            } else {
                fill_spec(
                    t,
                    reaper,
                    auto_correct,
                    bases,
                    z2,
                    pushes(rest, c, t.len() as int, t[0]@.len() as int),
                    target,
                    idx,
                    origin,
                    (fuel - 1) as nat,
                )
            }
        }
    }
}

/// Enough visits for a fill of `t` to finish.
pub open spec fn fill_fuel(t: Seq<Vec<MapPoint>>) -> nat {
    (5 * t.len() * t[0]@.len() + 1) as nat
}

/// The zones after filling from the bases `k..`, zone `k + 1` from base `k`;
/// bases off the map are skipped.
pub open spec fn zones_from(
    t: Seq<Vec<MapPoint>>,
    reaper: Seq<Vec<usize>>,
    auto_correct: bool,
    bases: Seq<FixedPoint>,
    z: Seq<Seq<i8>>,
    k: int,
) -> Seq<Seq<i8>>
    decreases bases.len() - k,
{
    if k >= bases.len() || k < 0 {
        z
    } else {
        let c = cell_of(bases[k]);
        if bases[k].x / (MULT as u64) < t.len() && bases[k].y / (MULT as u64) < t[0]@.len() {
            zones_from(
                t,
                reaper,
                auto_correct,
                bases,
                fill_spec(t, reaper, auto_correct, bases, z, seq![c], pt(t, c.0 as int, c.1 as int).height as int, (k + 1) as i8, bases[k], fill_fuel(t)),
                k + 1,
            )
        } else {
            zones_from(t, reaper, auto_correct, bases, z, k + 1)
        }
    }
}

/// A fill reads only walkability, height and choke marks of the terrain.
proof fn lemma_fill_same_terrain(
    t: Seq<Vec<MapPoint>>,
    u: Seq<Vec<MapPoint>>,
    reaper: Seq<Vec<usize>>,
    auto_correct: bool,
    bases: Seq<FixedPoint>,
    z: Seq<Seq<i8>>,
    stack: Seq<Cell>,
    target: int,
    idx: i8,
    origin: FixedPoint,
    fuel: nat,
)
    requires
        only_zones_change(t, u),
        points_ok(t),
        forall|k: int| 0 <= k < stack.len() ==> point_in(t, (#[trigger] stack[k]).0 as int, stack[k].1 as int),
    ensures
        fill_spec(t, reaper, auto_correct, bases, z, stack, target, idx, origin, fuel) == fill_spec(
            u,
            reaper,
            auto_correct,
            bases,
            z,
            stack,
            target,
            idx,
            origin,
            fuel,
        ),
    decreases fuel,
{
    if fuel > 0 && stack.len() > 0 {
        let c = stack.last();
        let rest = stack.drop_last();
        assert(point_in(t, c.0 as int, c.1 as int));
        let _ = pt(u, c.0 as int, c.1 as int);
        assert(u.len() == t.len());
        assert(u[0]@.len() == t[0]@.len());
        assert forall|k: int| 0 <= k < rest.len() implies point_in(t, (#[trigger] rest[k]).0 as int, rest[k].1 as int) by {
            assert(rest[k] == stack[k]);
        }
        let w = t.len() as int;
        let h = t[0]@.len() as int;
        let pu = pushes(rest, c, w, h);
        assert(t[c.0 as int]@.len() == h);
        assert forall|k: int| 0 <= k < pu.len() implies point_in(t, (#[trigger] pu[k]).0 as int, pu[k].1 as int) by {
            if k < rest.len() {
                assert(pu[k] == rest[k]) by {
                    assert(pu == pushes(rest, c, w, h));
                }
            }
            if c.0 > 0 {
                assert(t[c.0 - 1]@.len() == h);
            }
            if c.0 + 1 < w {
                assert(t[c.0 + 1]@.len() == h);
            }
        }
        let zone = z[c.0 as int][c.1 as int];
        let z2 = z.update(c.0 as int, z[c.0 as int].update(c.1 as int, idx));
        lemma_fill_same_terrain(t, u, reaper, auto_correct, bases, z, rest, target, idx, origin, (fuel - 1) as nat);
        lemma_fill_same_terrain(t, u, reaper, auto_correct, bases, z2, rest, target, idx, origin, (fuel - 1) as nat);
        lemma_fill_same_terrain(t, u, reaper, auto_correct, bases, z2, pu, target, idx, origin, (fuel - 1) as nat);
    }
}

/// The cell `(x, y)` is farther than `ZONE_RADIUS` from `origin`.
pub open spec fn beyond_radius(origin: FixedPoint, x: int, y: int) -> bool {
    let dx: int = if origin.x >= x * MULT { origin.x - x * MULT } else { x * MULT - origin.x };
    let dy: int = if origin.y >= y * MULT { origin.y - y * MULT } else { y * MULT - origin.y };
    dx * dx + dy * dy > (ZONE_RADIUS * MULT) * (ZONE_RADIUS * MULT)
}

fn beyond(origin: FixedPoint, x: usize, y: usize) -> (r: bool)
    requires
        x < MAX_SIDE,
        y < MAX_SIDE,
    ensures
        r == beyond_radius(origin, x as int, y as int),
{
    let cx = x as u64 * 10000;
    let cy = y as u64 * 10000;
    let dx = if origin.x >= cx { origin.x - cx } else { cx - origin.x };
    let dy = if origin.y >= cy { origin.y - cy } else { cy - origin.y };
    let limit: u64 = ZONE_RADIUS * MULT as u64;
    if dx > limit || dy > limit {
        assert(dx * dx + dy * dy > limit * limit) by (nonlinear_arith)
            requires
                dx > limit || dy > limit,
                dx >= 0,
                dy >= 0,
        ;
        return true;
    }
    assert(dx * dx <= limit * limit && dy * dy <= limit * limit) by (nonlinear_arith)
        requires
            dx <= limit,
            dy <= limit,
    ;
    let a = dx as u128;
    let b = dy as u128;
    assert(a * a <= 300000 * 300000 && b * b <= 300000 * 300000) by (nonlinear_arith)
        requires
            a <= 300000,
            b <= 300000,
    ;
    a * a + b * b > (limit as u128) * (limit as u128)
}

proof fn lemma_zones_widen(a: Seq<Vec<MapPoint>>, b: Seq<Vec<MapPoint>>, k: int)
    requires
        zoned_walkable(a, b, k),
    ensures
        zoned_walkable(a, b, k + 1),
{
}

proof fn lemma_zones_compose(a: Seq<Vec<MapPoint>>, b: Seq<Vec<MapPoint>>, c: Seq<Vec<MapPoint>>, k: int)
    requires
        only_zones_change(a, b),
        zoned_walkable(a, b, k),
        only_zones_change(b, c),
        zoned_walkable(b, c, k + 1),
    ensures
        only_zones_change(a, c),
        zoned_walkable(a, c, k + 1),
{
    assert forall|i: int, j: int| point_in(a, i, j) implies (#[trigger] pt(c, i, j)) == (MapPoint {
        zone_index: pt(c, i, j).zone_index,
        ..pt(a, i, j)
    }) by {
        assert(point_in(b, i, j));
        let _ = pt(b, i, j);
    }
    assert forall|x: int| 0 <= x < a.len() implies (#[trigger] a[x]@.len()) == c[x]@.len() by {
        assert(b[x]@.len() == a[x]@.len());
    }
    assert forall|i: int, j: int| point_in(a, i, j) && (#[trigger] pt(c, i, j)).zone_index != pt(a, i, j).zone_index
        implies pt(a, i, j).walkable && 1 <= pt(c, i, j).zone_index <= k + 1 by {
        assert(point_in(b, i, j));
        let _ = pt(b, i, j);
    }
}

impl TerrainMap {
    /// Whether the cell `c`, in zone `zone`, stays there rather than joining
    /// the zone based at `origin` (see `keeps_zone`).
    fn keeps_zone_exec(&self, zone: i8, origin: FixedPoint, bases: &Vec<FixedPoint>, c: Cell) -> (r: bool)
        requires
            self.wf(),
            self.reaper_pathing.contains(c),
        ensures
            r == keeps_zone(self.reaper_pathing.map@, self.reaper_pathing.auto_correct, bases@, zone, origin, c),
    {
        if zone <= 0 {
            return false;
        }
        let z = (zone - 1) as usize;
        if z >= bases.len() {
            return false;
        }
        let base = bases[z];
        let end = ((base.x / MULT as u64) as usize, (base.y / MULT as u64) as usize);
        let end2 = ((origin.x / MULT as u64) as usize, (origin.y / MULT as u64) as usize);
        assert(end == cell_of(bases@[zone - 1]));
        assert(end2 == cell_of(origin));
        let old_path = self.reaper_pathing.find_path(c, end, Some(2u8));
        let new_path = self.reaper_pathing.find_path(c, end2, Some(2u8));
        match (old_path, new_path) {
            (Ok(op), Ok(np)) => {
                proof {
                    let g = self.reaper_pathing.map@;
                    let a = self.reaper_pathing.auto_correct;
                    assert(crate::search::heuristic_spec_of(Some(2u8)) == Heuristic::Euclidean);
                    assert(op.1 == route_len(g, a, c, end)) by {
                        if op.0@.len() == 0 {
                            assert(path_cost(Movement::Normal, g, op.0@) == 0);
                        }
                    }
                    assert(np.1 == route_len(g, a, c, end2)) by {
                        if np.0@.len() == 0 {
                            assert(path_cost(Movement::Normal, g, np.0@) == 0);
                        }
                    }
                }
                op.1 < np.1
            },
            _ => false,
        }
    }

    /// Flood fills zone `zone_index` from `(x, y)` through walkable cells, in
    /// depth-first order (down, left, up, right). A cell already in another
    /// zone joins only when its ground path to that zone's base is not
    /// shorter than to `origin`. The fill stops at cells outside the height
    /// band around `target_height`, at choke cells and beyond `ZONE_RADIUS`.
    fn zone_fill(&mut self, x: usize, y: usize, target_height: usize, zone_index: i8, origin: FixedPoint, bases: &Vec<FixedPoint>)
        requires
            old(self).wf(),
            old(self).width() <= MAX_SIDE,
            old(self).height() <= MAX_SIDE,
            point_in(old(self).points@, x as int, y as int),
            1 <= zone_index,
        ensures
            final(self).wf(),
            only_zones_change(old(self).points@, final(self).points@),
            zoned_walkable(old(self).points@, final(self).points@, zone_index as int),
            zones_of(final(self).points@) == fill_spec(
                old(self).points@,
                old(self).reaper_pathing.map@,
                old(self).reaper_pathing.auto_correct,
                bases@,
                zones_of(old(self).points@),
                seq![(x, y)],
                target_height as int,
                zone_index,
                origin,
                fill_fuel(old(self).points@),
            ),
            final(self).ground_pathing == old(self).ground_pathing,
            final(self).air_pathing == old(self).air_pathing,
            final(self).colossus_pathing == old(self).colossus_pathing,
            final(self).reaper_pathing == old(self).reaper_pathing,
            final(self).influence_colossus_map == old(self).influence_colossus_map,
            final(self).influence_reaper_map == old(self).influence_reaper_map,
    {
        let ghost p0 = self.points@;
        let w = self.points.len();
        let h = self.points[0].len();
        proof {
            assert(w * h <= MAX_SIDE * MAX_SIDE) by (nonlinear_arith)
                requires
                    w <= MAX_SIDE,
                    h <= MAX_SIDE,
            ;
        }
        let total = w * h;
        let mut claimed: Vec<bool> = Vec::new();
        let mut k: usize = 0;
        while k < total
            invariant
                k <= total,
                claimed@.len() == k,
                forall|i: int| 0 <= i < k ==> !(#[trigger] claimed@[i]),
            decreases total - k,
        {
            claimed.push(false);
            k += 1;
        }
        proof {
            lemma_all_false(claimed@);
        }
        let mut remaining: usize = total;
        let end2 = ((origin.x / MULT as u64) as usize, (origin.y / MULT as u64) as usize);
        let mut stack: Vec<Cell> = Vec::new();
        stack.push((x, y));
        let ghost goal = fill_spec(
            p0,
            self.reaper_pathing.map@,
            self.reaper_pathing.auto_correct,
            bases@,
            zones_of(p0),
            seq![(x, y)],
            target_height as int,
            zone_index,
            origin,
            fill_fuel(p0),
        );
        let ghost mut fuel: nat = fill_fuel(p0);
        assert(fill_fuel(p0) == 5 * total + 1) by (nonlinear_arith)
            requires
                fill_fuel(p0) == (5 * p0.len() * p0[0]@.len() + 1) as nat,
                total == w * h,
                w == p0.len(),
                h == p0[0]@.len(),
        ;
        assert(stack@ =~= seq![(x, y)]);
        while stack.len() > 0
            invariant
                self.wf(),
                w == p0.len(),
                h == p0[0]@.len(),
                points_ok(p0),
                w <= MAX_SIDE,
                h <= MAX_SIDE,
                total == w * h,
                claimed@.len() == total,
                remaining == count_false(claimed@),
                only_zones_change(p0, self.points@),
                zoned_walkable(p0, self.points@, zone_index as int),
                1 <= zone_index,
                self.ground_pathing == old(self).ground_pathing,
                self.air_pathing == old(self).air_pathing,
                self.colossus_pathing == old(self).colossus_pathing,
                self.reaper_pathing == old(self).reaper_pathing,
                self.influence_colossus_map == old(self).influence_colossus_map,
                self.influence_reaper_map == old(self).influence_reaper_map,
                forall|c: int| 0 <= c < total && #[trigger] claimed@[c] ==> pt(self.points@, c / (h as int), c % (h as int)).zone_index == zone_index,
                forall|k: int| 0 <= k < stack@.len() ==> point_in(p0, (#[trigger] stack@[k]).0 as int, stack@[k].1 as int),
                remaining <= total,
                fuel >= remaining * 5 + stack@.len(),
                fill_spec(
                    p0,
                    self.reaper_pathing.map@,
                    self.reaper_pathing.auto_correct,
                    bases@,
                    zones_of(self.points@),
                    stack@,
                    target_height as int,
                    zone_index,
                    origin,
                    fuel,
                ) == goal,
            ensures
                stack@.len() == 0,
            decreases remaining * 5 + stack@.len(),
        {
            let ghost st0 = stack@;
            let ghost z0 = zones_of(self.points@);
            let ghost f0 = fuel;
            let c = match stack.pop() {
                Some(c) => c,
                None => {
                    break;
                },
            };
            let (cx, cy) = c;
            let ghost pc = self.points@;
            assert(c == st0.last() && stack@ == st0.drop_last());
            proof {
                fuel = (fuel - 1) as nat;
            }
            assert(point_in(p0, cx as int, cy as int));
            assert(p0[cx as int]@.len() == h);
            assert(point_in(pc, cx as int, cy as int));
            assert(cx * h + cy < w * h) by (nonlinear_arith)
                requires
                    cx < w,
                    cy < h,
            ;
            assert(cx * h <= w * h) by (nonlinear_arith)
                requires
                    cx < w,
            ;
            let idx = cx * h + cy;
            assert((idx as int) / (h as int) == cx && (idx as int) % (h as int) == cy) by (nonlinear_arith)
                requires
                    idx == cx * h + cy,
                    cy < h,
                    h > 0,
            ;
            let point = self.points[cx][cy];
            let zone = point.zone_index;
            proof {
                let _ = pt(p0, cx as int, cy as int);
                assert(pt(pc, cx as int, cy as int) == point);
                assert(point_in(p0, cx as int, cy as int));
                assert(z0[cx as int][cy as int] == zone);
                assert(point.walkable == pt(p0, cx as int, cy as int).walkable);
                assert(point.height == pt(p0, cx as int, cy as int).height);
                assert(point.is_choke == pt(p0, cx as int, cy as int).is_choke);
                assert(self.reaper_pathing.contains(c)) by {
                    assert(self.reaper_pathing.map@[cx as int]@.len() == self.reaper_pathing.height);
                }
            }
            if zone == zone_index || !point.walkable {
                continue;
            }
            if self.keeps_zone_exec(zone, origin, bases, c) {
                continue;
            }
            assert(!claimed@[idx as int]);
            proof {
                lemma_count_false_set(claimed@, idx as int);
                lemma_count_false_nonneg(claimed@.update(idx as int, true));
            }
            let ghost claimed_before = claimed@;
            claimed.set(idx, true);
            remaining = remaining - 1;
            let mut p = point;
            p.zone_index = zone_index;
            self.points[cx][cy] = p;
            proof {
                assert(self.points@.len() == pc.len());
                assert(zones_of(self.points@) =~~= z0.update(cx as int, z0[cx as int].update(cy as int, zone_index))) by {
                    assert forall|i: int| 0 <= i < pc.len() && i != cx implies self.points@[i] == pc[i] by {}
                }
                assert(self.points@[cx as int]@ == pc[cx as int]@.update(cy as int, p));
                assert forall|i: int| 0 <= i < p0.len() implies (#[trigger] p0[i]@.len()) == self.points@[i]@.len() by {
                    if i != cx {
                        assert(self.points@[i] == pc[i]);
                    }
                    assert(pc[i]@.len() == p0[i]@.len());
                }
                assert forall|i: int, j: int| point_in(p0, i, j) implies (#[trigger] pt(self.points@, i, j)) == (MapPoint {
                    zone_index: pt(self.points@, i, j).zone_index,
                    ..pt(p0, i, j)
                }) by {
                    let _ = pt(pc, i, j);
                    assert(point_in(pc, i, j));
                    if i != cx {
                        assert(self.points@[i] == pc[i]);
                    }
                }
                assert forall|i: int, j: int| point_in(p0, i, j) && (#[trigger] pt(self.points@, i, j)).zone_index != pt(p0, i, j).zone_index
                    implies pt(p0, i, j).walkable && 1 <= pt(self.points@, i, j).zone_index <= zone_index by {
                    let _ = pt(pc, i, j);
                    assert(point_in(pc, i, j));
                    if i != cx {
                        assert(self.points@[i] == pc[i]);
                    }
                }
                assert forall|q: int| 0 <= q < total && #[trigger] claimed@[q] implies pt(self.points@, q / (h as int), q % (h as int)).zone_index == zone_index by {
                    let i = q / (h as int);
                    let j = q % (h as int);
                    assert(0 <= i < w && 0 <= j < h) by (nonlinear_arith)
                        requires
                            0 <= q < w * h,
                            h > 0,
                            i == q / (h as int),
                            j == q % (h as int),
                    ;
                    if q != idx {
                        assert(claimed_before[q]);
                        let _ = pt(pc, i, j);
                    }
                    if i != cx {
                        assert(self.points@[i] == pc[i]);
                    }
                }
                assert(points_ok(self.points@)) by {
                    assert forall|i: int| 0 <= i < self.points@.len() implies (#[trigger] self.points@[i]@.len()) == self.points@[0]@.len() by {
                        assert(p0[i]@.len() == p0[0]@.len());
                    }
                }
            }
            let ph = point.height;
            let ghost st1 = stack@;
            if (target_height as u128) > (ph as u128) + (ZONE_DIFFERENCE as u128) || (ph as u128) > (target_height as u128)
                + (ZONE_DIFFERENCE as u128) {
                continue;
            }
            if point.is_choke {
                continue;
            }
            if beyond(origin, cx, cy) {
                continue;
            }
            if cx + 1 < w {
                stack.push((cx + 1, cy));
            }
            if cy + 1 < h {
                stack.push((cx, cy + 1));
            }
            if cx > 0 {
                stack.push((cx - 1, cy));
            }
            if cy > 0 {
                stack.push((cx, cy - 1));
            }
            assert(stack@ =~= pushes(st1, c, w as int, h as int));
            proof {
                assert forall|k: int| 0 <= k < stack@.len() implies point_in(p0, (#[trigger] stack@[k]).0 as int, stack@[k].1 as int) by {
                    if cx > 0 {
                        assert(p0[(cx - 1) as int]@.len() == h);
                    }
                    if cx + 1 < w {
                        assert(p0[(cx + 1) as int]@.len() == h);
                    }
                }
            }
        }
    }

    /// Assigns zones 1, 2, … from the base locations in order (fixed point);
    /// locations outside the map are skipped but still take their number.
    pub fn calculate_zones(&mut self, sorted_base_locations: &Vec<FixedPoint>)
        requires
            old(self).wf(),
            old(self).width() <= MAX_SIDE,
            old(self).height() <= MAX_SIDE,
            sorted_base_locations@.len() < 127,
        ensures
            final(self).wf(),
            only_zones_change(old(self).points@, final(self).points@),
            zoned_walkable(old(self).points@, final(self).points@, sorted_base_locations@.len() as int),
            zones_of(final(self).points@) == zones_from(
                old(self).points@,
                old(self).reaper_pathing.map@,
                old(self).reaper_pathing.auto_correct,
                sorted_base_locations@,
                zones_of(old(self).points@),
                0,
            ),
    {
        let ghost p0 = self.points@;
        let n = sorted_base_locations.len();
        let ghost goal = zones_from(
            p0,
            self.reaper_pathing.map@,
            self.reaper_pathing.auto_correct,
            sorted_base_locations@,
            zones_of(p0),
            0,
        );
        let mut k: usize = 0;
        while k < n
            invariant
                self.wf(),
                self.width() == old(self).width(),
                self.height() == old(self).height(),
                self.width() <= MAX_SIDE,
                self.height() <= MAX_SIDE,
                n == sorted_base_locations@.len(),
                n < 127,
                p0 == old(self).points@,
                only_zones_change(p0, self.points@),
                k <= n,
                zoned_walkable(p0, self.points@, k as int),
                self.reaper_pathing == old(self).reaper_pathing,
                zones_from(
                    p0,
                    self.reaper_pathing.map@,
                    self.reaper_pathing.auto_correct,
                    sorted_base_locations@,
                    zones_of(self.points@),
                    k as int,
                ) == goal,
            decreases n - k,
        {
            let base = sorted_base_locations[k];
            let ghost before_k = self.points@;
            let x = (base.x / MULT as u64) as usize;
            let y = (base.y / MULT as u64) as usize;
            if base.x / (MULT as u64) < self.points.len() as u64 {
                assert(self.points@[x as int]@.len() == self.points@[0]@.len());
                if base.y / (MULT as u64) < self.points[x].len() as u64 {
                    let target = self.points[x][y].height;
                    let ghost pb = self.points@;
                    self.zone_fill(x, y, target, (k + 1) as i8, base, sorted_base_locations);
                    proof {
                        assert(point_in(p0, x as int, y as int));
                        let _ = pt(p0, x as int, y as int);
                        assert(pt(pb, x as int, y as int).height == pt(p0, x as int, y as int).height);
                        assert(cell_of(base) == (x, y));
                        lemma_fill_same_terrain(
                            p0,
                            pb,
                            self.reaper_pathing.map@,
                            self.reaper_pathing.auto_correct,
                            sorted_base_locations@,
                            zones_of(pb),
                            seq![(x, y)],
                            target as int,
                            (k + 1) as i8,
                            base,
                            fill_fuel(p0),
                        );
                        assert(pb[0]@.len() == p0[0]@.len());
                        assert(fill_fuel(pb) == fill_fuel(p0));
                        assert(p0[0]@.len() == pb[x as int]@.len());
                        assert(zones_from(p0, self.reaper_pathing.map@, self.reaper_pathing.auto_correct, sorted_base_locations@, zones_of(pb), k as int)
                            == zones_from(p0, self.reaper_pathing.map@, self.reaper_pathing.auto_correct, sorted_base_locations@, zones_of(self.points@), k + 1));
                        lemma_zones_compose(p0, pb, self.points@, k as int);
                        if self.points@ == before_k {
                            lemma_zones_widen(p0, self.points@, k as int);
                        }
                    }
                }
            }
            proof {
                if self.points@ == before_k {
                    lemma_zones_widen(p0, self.points@, k as int);
                    assert(p0[0]@.len() == before_k[0]@.len());
                    if base.x / (MULT as u64) < p0.len() {
                        assert(before_k[x as int]@.len() == p0[0]@.len());
                    }
                }
            }
            k += 1;
        }
    }
}

} // verus!

verus! {

/// The diagnostic code of a cell in the zone drawing: walkable cells 255,
/// or `50 + 20 · zone` inside a zone; everything else 0.
pub open spec fn zone_code(p: MapPoint) -> int {
    if p.walkable {
        if p.zone_index > 0 {
            50 + 20 * p.zone_index
        } else {
            255
        }
    } else {
        0
    }
}

impl TerrainMap {
    pub fn draw_zones(&self) -> (r: Vec<Vec<usize>>)
        requires
            self.wf(),
        ensures
            r@.len() == self.width(),
            forall|x: int| 0 <= x < self.width() ==> (#[trigger] r@[x]@.len()) == self.height(),
            forall|x: int, y: int|
                0 <= x < self.width() && 0 <= y < self.height() ==> (#[trigger] r@[x]@[y]) == zone_code(pt(self.points@, x, y)),
    {
        let w = self.points.len();
        let h = self.points[0].len();
        let mut out: Vec<Vec<usize>> = Vec::new();
        let mut x: usize = 0;
        while x < w
            invariant
                self.wf(),
                w == self.width(),
                h == self.height(),
                x <= w,
                out@.len() == x,
                forall|i: int| 0 <= i < x ==> (#[trigger] out@[i]@.len()) == h,
                forall|i: int, j: int| 0 <= i < x && 0 <= j < h ==> (#[trigger] out@[i]@[j]) == zone_code(pt(self.points@, i, j)),
            decreases w - x,
        {
            assert(self.points@[x as int]@.len() == h);
            let mut row: Vec<usize> = Vec::new();
            let mut y: usize = 0;
            while y < h
                invariant
                    self.wf(),
                    w == self.width(),
                    h == self.height(),
                    x < w,
                    y <= h,
                    self.points@[x as int]@.len() == h,
                    row@.len() == y,
                    forall|j: int| 0 <= j < y ==> (#[trigger] row@[j]) == zone_code(pt(self.points@, x as int, j)),
                decreases h - y,
            {
                let p = self.points[x][y];
                let code: usize = if p.walkable {
                    if p.zone_index > 0 {
                        50 + 20 * (p.zone_index as usize)
                    } else {
                        255
                    }
                } else {
                    0
                };
                row.push(code);
                y += 1;
            }
            let ghost prev = out@;
            out.push(row);
            proof {
                assert forall|i: int, j: int| 0 <= i < x + 1 && 0 <= j < h implies (#[trigger] out@[i]@[j]) == zone_code(pt(self.points@, i, j)) by {
                    if i < x {
                        assert(out@[i] == prev[i]);
                    }
                }
                assert forall|i: int| 0 <= i < x + 1 implies (#[trigger] out@[i]@.len()) == h by {
                    if i < x {
                        assert(out@[i] == prev[i]);
                    }
                }
            }
            x += 1;
        }
        out
    }
}

} // verus!

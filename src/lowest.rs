//! Lowest-cost cell queries: in a rectangle, within walking distance, and
//! the low-influence spot near a target.
use vstd::prelude::*;

use crate::grid::{euclidean_distance, euclidean_spec, octile_distance, octile_spec, Cell, MULT};
use crate::influence::walk_found;
use crate::movement::{cell_in, grid_ok, in_grid, Movement, MAX_CELL};
use crate::pathfind::{route, scaled_bound, PathError, PathFind};
use crate::rectangle::{rect_spec, Rectangle};
use crate::search::Heuristic;

verus! {

/// Cell `a` ranks before cell `b`: lower cost, then lower distance, then
/// lower `x`, then lower `y`.
pub open spec fn ranks_before(va: int, da: int, a: Cell, vb: int, db: int, b: Cell) -> bool {
    ||| va < vb
    ||| va == vb && da < db
    ||| va == vb && da == db && a.0 < b.0
    ||| va == vb && da == db && a.0 == b.0 && a.1 < b.1
}

/// An open cell of the rectangle around `center`.
pub open spec fn rect_candidate(g: Seq<Vec<usize>>, r: Rectangle, c: Cell) -> bool {
    cell_in(g, c) && r.contains(c.0 as int, c.1 as int) && g[c.0 as int]@[c.1 as int] > 0
}

pub open spec fn cost_of(g: Seq<Vec<usize>>, c: Cell) -> int {
    g[c.0 as int]@[c.1 as int] as int
}

/// `best` is the first-ranked open cell of the rectangle (by cost, octile
/// distance to `center`, then position), or, when there is none, `center`
/// with distance `u64::MAX`.
pub open spec fn lowest_in_rect(g: Seq<Vec<usize>>, r: Rectangle, center: Cell, best: (Cell, u64)) -> bool {
    if exists|c: Cell| #[trigger] rect_candidate(g, r, c) {
        &&& rect_candidate(g, r, best.0)
        &&& best.1 == octile_spec(best.0, center)
        &&& forall|c: Cell|
            #[trigger] rect_candidate(g, r, c) ==> !ranks_before(
                cost_of(g, c),
                octile_spec(c, center),
                c,
                cost_of(g, best.0),
                octile_spec(best.0, center),
                best.0,
            )
    } else {
        best == (center, u64::MAX)
    }
}

/// An open cell among the destinations `found`.
pub open spec fn walk_candidate(g: Seq<Vec<usize>>, found: Set<(Cell, u64)>, e: (Cell, u64)) -> bool {
    found.contains(e) && cell_in(g, e.0) && g[e.0.0 as int]@[e.0.1 as int] > 0
}

/// `best` is the first-ranked open destination (by cost, walk distance, then
/// position), or `start` with distance `u64::MAX` when there is none.
pub open spec fn lowest_in_walk(g: Seq<Vec<usize>>, found: Set<(Cell, u64)>, start: Cell, best: (Cell, u64)) -> bool {
    if exists|e: (Cell, u64)| #[trigger] walk_candidate(g, found, e) {
        &&& walk_candidate(g, found, best)
        &&& forall|e: (Cell, u64)|
            #[trigger] walk_candidate(g, found, e) ==> !ranks_before(
                cost_of(g, e.0),
                e.1 as int,
                e.0,
                cost_of(g, best.0),
                best.1 as int,
                best.0,
            )
    } else {
        best == (start, u64::MAX)
    }
}

impl PathFind {
    /// The lowest-cost open cell of the `distance × distance` square around
    /// `center`, with its fixed-point octile distance to `center`; ties go to
    /// the nearer cell, then the lower position.
    pub fn lowest_influence(&self, center: Cell, distance: usize) -> (r: Result<(Cell, u64), PathError>)
        requires
            self.wf(),
        ensures
            r is Err <==> !self.contains(center),
            r matches Ok(best) ==> lowest_in_rect(
                self.map@,
                rect_spec(center, (distance, distance), self.width, self.height),
                center,
                best,
            ),
    {
        self.inline_lowest_value(center, distance)
    }

    /// Same as `lowest_influence`.
    pub fn inline_lowest_value(&self, center: Cell, distance: usize) -> (r: Result<(Cell, u64), PathError>)
        requires
            self.wf(),
        ensures
            r is Err <==> !self.contains(center),
            r matches Ok(best) ==> lowest_in_rect(
                self.map@,
                rect_spec(center, (distance, distance), self.width, self.height),
                center,
                best,
            ),
    {
        if !self.in_bounds(center) {
            return Err(PathError::OutOfBounds);
        }
        let rect = Rectangle::init_from_center2(center, (distance, distance), self.width, self.height);
        let ghost g = self.map@;
        let mut found = false;
        let mut best: Cell = center;
        let mut best_value: usize = 0;
        let mut best_distance: usize = 0;
        let mut x: usize = rect.x;
        while x < rect.x_end
            invariant
                self.wf(),
                g == self.map@,
                self.contains(center),
                rect.x_end <= self.width,
                rect.y_end <= self.height,
                found ==> rect_candidate(g, rect, best) && best_value == cost_of(g, best)
                    && best_distance == octile_spec(best, center),
                rect.x <= x,
                found ==> best.0 < x,
                found <==> exists|c: Cell| #[trigger] rect_candidate(g, rect, c) && c.0 < x,
                found ==> forall|c: Cell|
                    #[trigger] rect_candidate(g, rect, c) && c.0 < x ==> !ranks_before(
                        cost_of(g, c),
                        octile_spec(c, center),
                        c,
                        cost_of(g, best),
                        octile_spec(best, center),
                        best,
                    ),
            decreases rect.x_end - x,
        {
            let mut y: usize = rect.y;
            while y < rect.y_end
                invariant
                    self.wf(),
                    g == self.map@,
                    self.contains(center),
                    rect.x <= x < rect.x_end,
                    rect.x_end <= self.width,
                    rect.y_end <= self.height,
                    found ==> rect_candidate(g, rect, best) && best_value == cost_of(g, best)
                        && best_distance == octile_spec(best, center),
                    rect.y <= y,
                    found ==> best.0 < x || (best.0 == x && best.1 < y),
                    found <==> exists|c: Cell|
                        #[trigger] rect_candidate(g, rect, c) && (c.0 < x || (c.0 == x && c.1 < y)),
                    found ==> forall|c: Cell|
                        #[trigger] rect_candidate(g, rect, c) && (c.0 < x || (c.0 == x && c.1 < y))
                            ==> !ranks_before(
                            cost_of(g, c),
                            octile_spec(c, center),
                            c,
                            cost_of(g, best),
                            octile_spec(best, center),
                            best,
                        ),
                decreases rect.y_end - y,
            {
                assert(self.map@[x as int]@.len() == self.height);
                let v = self.map[x][y];
                if v > 0 {
                    let d = octile_distance((x, y), center);
                    if !found || v < best_value || (v == best_value && d < best_distance) {
                        found = true;
                        best = (x, y);
                        best_value = v;
                        best_distance = d;
                    }
                }
                proof {
                    if v > 0 {
                        assert(rect_candidate(g, rect, (x, y)));
                    }
                }
                y += 1;
            }
            x += 1;
        }
        if found {
            Ok((best, best_distance as u64))
        } else {
            Ok((center, u64::MAX))
        }
    }

    /// The lowest-cost cell among those a bounded Dijkstra search from the
    /// (corrected) `center` found within `distance`, with its walk distance;
    /// ties go to the nearer cell, then the lower position.
    pub fn lowest_influence_walk(&self, center: Cell, distance: u64) -> (r: Result<(Cell, u64), PathError>)
        requires
            self.wf(),
        ensures
            r is Err <==> !self.contains(center),
            r matches Ok(best) ==> lowest_in_walk(
                self.map@,
                walk_found(self.map@, self.closest(center), distance),
                self.closest(center),
                best,
            ),
    {
        if !self.in_bounds(center) {
            return Err(PathError::OutOfBounds);
        }
        let start = self.get_closest_pathable(center);
        Ok(self.lowest_influence_walk_inline(start, distance))
    }

    fn lowest_influence_walk_inline(&self, start: Cell, distance: u64) -> (r: (Cell, u64))
        requires
            self.wf(),
            self.contains(start),
        ensures
            lowest_in_walk(self.map@, walk_found(self.map@, start, distance), start, r),
    {
        let list = self.reach_from(Movement::Normal, start, Some(distance));
        let ghost g = self.map@;
        let ghost set = walk_found(g, start, distance);
        assert(list@.to_set() == set);
        let mut found = false;
        let mut best: (Cell, u64) = (start, u64::MAX);
        let mut best_value: usize = 0;
        let mut k: usize = 0;
        while k < list.len()
            invariant
                self.wf(),
                g == self.map@,
                list@.to_set() == set,
                forall|i: int| 0 <= i < list@.len() ==> self.contains((#[trigger] list@[i]).0),
                k <= list@.len(),
                found ==> walk_candidate(g, set, best) && best_value == cost_of(g, best.0),
                !found ==> best == (start, u64::MAX),
                found <==> exists|i: int| 0 <= i < k && #[trigger] walk_candidate(g, set, list@[i]),
                found ==> forall|i: int|
                    0 <= i < k && #[trigger] walk_candidate(g, set, list@[i]) ==> !ranks_before(
                        cost_of(g, list@[i].0),
                        list@[i].1 as int,
                        list@[i].0,
                        cost_of(g, best.0),
                        best.1 as int,
                        best.0,
                    ),
            decreases list@.len() - k,
        {
            let e = list[k];
            assert(set.contains(list@[k as int]));
            assert(self.map@[e.0.0 as int]@.len() == self.height);
            let v = self.map[e.0.0][e.0.1];
            if v > 0 {
                if !found || v < best_value || (v == best_value && (e.1 < best.1 || (e.1 == best.1 && (
                e.0.0 < best.0.0 || (e.0.0 == best.0.0 && e.0.1 < best.0.1))))) {
                    found = true;
                    best = e;
                    best_value = v;
                }
            }
            proof {
                if v > 0 {
                    assert(walk_candidate(g, set, e));
                }
            }
            k += 1;
        }
        proof {
            if found {
                assert forall|e: (Cell, u64)| #[trigger] walk_candidate(g, set, e) implies !ranks_before(
                    cost_of(g, e.0),
                    e.1 as int,
                    e.0,
                    cost_of(g, best.0),
                    best.1 as int,
                    best.0,
                ) by {
                    assert(list@.to_set().contains(e));
                    let i = choose|i: int| 0 <= i < list@.len() && list@[i] == e;
                }
            } else {
                assert forall|e: (Cell, u64)| !(#[trigger] walk_candidate(g, set, e)) by {
                    if walk_candidate(g, set, e) {
                        assert(list@.to_set().contains(e));
                        let i = choose|i: int| 0 <= i < list@.len() && list@[i] == e;
                    }
                }
            }
        }
        best
    }
}

} // verus!

verus! {

/// The score of a spot near the target, scaled by `4 · MULT`: its cost plus a
/// quarter of its octile distance from the start times the normal influence.
pub open spec fn low_score(g: Seq<Vec<usize>>, influence: int, start: Cell, c: Cell) -> int {
    cost_of(g, c) * (4 * MULT) + octile_spec(start, c) * influence
}

/// A destination within `distance` (octile) of the target that scores below
/// the start, when the start itself counts.
pub open spec fn low_candidate(
    g: Seq<Vec<usize>>,
    influence: int,
    start: Cell,
    target: Cell,
    distance: u64,
    start_counts: bool,
    found: Set<(Cell, u64)>,
    e: (Cell, u64),
) -> bool {
    &&& found.contains(e)
    &&& octile_spec(target, e.0) <= distance
    &&& start_counts ==> low_score(g, influence, start, e.0) < cost_of(g, start) * (4 * MULT)
}

/// `r` is the best spot near the target: the candidate with the lowest score
/// (then the lowest position), paired with `distance`; or the start with 0
/// when no candidate exists.
pub open spec fn low_inside(
    g: Seq<Vec<usize>>,
    influence: int,
    start: Cell,
    target: Cell,
    distance: u64,
    start_counts: bool,
    r: (Cell, u64),
) -> bool {
    let found = walk_found(g, target, distance);
    if exists|e: (Cell, u64)|
        #[trigger] low_candidate(g, influence, start, target, distance, start_counts, found, e) {
        &&& r.1 == distance
        &&& exists|e: (Cell, u64)|
            #[trigger] low_candidate(g, influence, start, target, distance, start_counts, found, e) && e.0
                == r.0
        &&& forall|e: (Cell, u64)|
            #[trigger] low_candidate(g, influence, start, target, distance, start_counts, found, e)
                ==> !ranks_before(
                low_score(g, influence, start, e.0),
                0,
                e.0,
                low_score(g, influence, start, r.0),
                0,
                r.0,
            )
    } else {
        r == (start, 0u64)
    }
}

/// The influence-weighted walk from `cs` towards `ct` with goal bound
/// `below`: `None` when no walk passes the goal test, else where a route stops
/// and its cost.
pub open spec fn far_result(
    g: Seq<Vec<usize>>,
    influence: int,
    cs: Cell,
    ct: Cell,
    below: u64,
    res: Option<(Cell, u64)>,
) -> bool {
    match res {
        None => !exists|p: Seq<Cell>|
            p.len() > 0 && p[0] == cs && #[trigger] crate::search::is_walk(Movement::Influenced, g, p)
                && crate::search::goal_test(Heuristic::Octile, influence, ct, Some(below), p.last()),
        Some(found) => exists|p: Seq<Cell>|
            #[trigger] route(Movement::Influenced, g, cs, ct, Heuristic::Octile, influence, Some(below), p, found.1)
                && p.len() > 0 && p.last() == found.0,
    }
}

impl PathFind {
    fn low_far(&self, cs: Cell, ct: Cell, below: u64) -> (r: Option<(Cell, u64)>)
        requires
            self.wf(),
            self.contains(cs),
            self.contains(ct),
        ensures
            far_result(self.map@, self.normal_influence as int, cs, ct, below, r),
    {
        let (path, d) = self.route_query(
            Movement::Influenced,
            cs,
            ct,
            Heuristic::Octile,
            self.normal_influence as u64,
            Some(below),
        );
        if path.len() == 0 {
            return None;
        }
        let last = path[path.len() - 1];
        assert(path@.last() == last);
        assert(route(
            Movement::Influenced,
            self.map@,
            cs,
            ct,
            Heuristic::Octile,
            self.normal_influence as int,
            Some(below),
            path@,
            d,
        ));
        assert(exists|p: Seq<Cell>|
            #[trigger] route(Movement::Influenced, self.map@, cs, ct, Heuristic::Octile, self.normal_influence as int, Some(below), p, d)
                && p.len() > 0 && p.last() == last);
        let r = Some((last, d));
        assert(r->Some_0.0 == last && r->Some_0.1 == d);
        assert(far_result(self.map@, self.normal_influence as int, cs, ct, below, r));
        r
    }

    /// Looks for a spot within `distance` of `target` (fixed point) that
    /// trades low cost against staying close to `start`. When `start` is more
    /// than two cells beyond that distance, it instead walks an
    /// influence-weighted path towards the target and returns where the path
    /// stops and its cost (`None` when no path gets there).
    pub fn find_low_inside_walk(&self, start: Cell, target: Cell, distance: u64) -> (r: Result<
        Option<(Cell, u64)>,
        PathError,
    >)
        requires
            self.wf(),
        ensures
            r is Err <==> !self.contains(start) || !self.contains(target),
            r matches Ok(res) ==> {
                let cs = self.closest(start);
                let ct = self.closest(target);
                let straight = euclidean_spec(start, target);
                let infl = self.normal_influence as int;
                if straight > distance + 2 * MULT {
                    far_result(self.map@, infl, cs, ct, scaled_bound(distance, self.normal_influence as u64), res)
                } else {
                    &&& res is Some
                    &&& low_inside(self.map@, infl, cs, ct, distance, straight < distance, res->Some_0)
                }
            },
    {
        if !self.in_bounds(start) || !self.in_bounds(target) {
            return Err(PathError::OutOfBounds);
        }
        let straight = euclidean_distance(start, target) as u64;
        let cs = self.get_closest_pathable(start);
        let ct = self.get_closest_pathable(target);
        if (straight as u128) > (distance as u128) + 2 * (MULT as u128) {
            let below = crate::pathfind::scale_bound(distance, self.normal_influence as u64);
            return Ok(self.low_far(cs, ct, below));
        }
        Ok(Some(self.low_near(cs, ct, distance, straight < distance)))
    }

    fn low_near(&self, cs: Cell, ct: Cell, distance: u64, start_counts: bool) -> (r: (Cell, u64))
        requires
            self.wf(),
            self.contains(cs),
            self.contains(ct),
        ensures
            low_inside(self.map@, self.normal_influence as int, cs, ct, distance, start_counts, r),
    {
        let ghost g = self.map@;
        let ghost infl = self.normal_influence as int;
        let list = self.reach_from(Movement::Normal, ct, Some(distance));
        let ghost set = walk_found(g, ct, distance);
        assert(self.map@[cs.0 as int]@.len() == self.height);
        let start_cost = self.map[cs.0][cs.1] as u64;
        assert(start_cost * 40000 <= MAX_CELL * 40000) by (nonlinear_arith)
            requires
                start_cost <= MAX_CELL,
        ;
        let start_score = start_cost * (4 * MULT as u64);
        let mut found = false;
        let mut best: Cell = cs;
        let mut best_score: u64 = 0;
        let mut k: usize = 0;
        while k < list.len()
            invariant
                self.wf(),
                g == self.map@,
                infl == self.normal_influence,
                list@.to_set() == set,
                self.contains(cs),
                self.contains(ct),
                start_score == cost_of(g, cs) * (4 * MULT),
                forall|i: int| 0 <= i < list@.len() ==> self.contains((#[trigger] list@[i]).0),
                k <= list@.len(),
                found ==> (exists|i: int|
                    0 <= i < k && #[trigger] low_candidate(g, infl, cs, ct, distance, start_counts, set, list@[i])
                        && list@[i].0 == best) && best_score == low_score(g, infl, cs, best),
                !found ==> best == cs,
                found <==> exists|i: int|
                    0 <= i < k && #[trigger] low_candidate(g, infl, cs, ct, distance, start_counts, set, list@[i]),
                found ==> forall|i: int|
                    0 <= i < k && #[trigger] low_candidate(g, infl, cs, ct, distance, start_counts, set, list@[i])
                        ==> !ranks_before(
                        low_score(g, infl, cs, list@[i].0),
                        0,
                        list@[i].0,
                        low_score(g, infl, cs, best),
                        0,
                        best,
                    ),
            decreases list@.len() - k,
        {
            let e = list[k];
            assert(set.contains(list@[k as int]));
            let c = e.0;
            let from_target = octile_distance(ct, c) as u64;
            if from_target <= distance {
                assert(self.map@[c.0 as int]@.len() == self.height);
                let v = self.map[c.0][c.1] as u64;
                let from_start = octile_distance(cs, c) as u64;
                let nf = self.normal_influence as u64;
                assert(v * 40000 <= MAX_CELL * 40000) by (nonlinear_arith)
                    requires
                        v <= MAX_CELL,
                ;
                assert(from_start * nf <= 0x1_0000_0000 * MAX_CELL) by (nonlinear_arith)
                    requires
                        from_start <= 0x1_0000_0000,
                        nf <= MAX_CELL,
                ;
                let score = v * (4 * MULT as u64) + from_start * nf;
                if !start_counts || score < start_score {
                    if !found || score < best_score || (score == best_score && (c.0 < best.0 || (c.0
                        == best.0 && c.1 < best.1))) {
                        found = true;
                        best = c;
                        best_score = score;
                    }
                    proof {
                        assert(low_candidate(g, infl, cs, ct, distance, start_counts, set, e));
                    }
                }
            }
            k += 1;
        }
        proof {
            if found {
                assert forall|e: (Cell, u64)| #[trigger] low_candidate(g, infl, cs, ct, distance, start_counts, set, e) implies !ranks_before(
                    low_score(g, infl, cs, e.0),
                    0,
                    e.0,
                    low_score(g, infl, cs, best),
                    0,
                    best,
                ) by {
                    assert(list@.to_set().contains(e));
                    let i = choose|i: int| 0 <= i < list@.len() && list@[i] == e;
                }
            } else {
                assert forall|e: (Cell, u64)| !(#[trigger] low_candidate(g, infl, cs, ct, distance, start_counts, set, e)) by {
                    if low_candidate(g, infl, cs, ct, distance, start_counts, set, e) {
                        assert(list@.to_set().contains(e));
                        let i = choose|i: int| 0 <= i < list@.len() && list@[i] == e;
                    }
                }
            }
        }
        if found {
            (best, distance)
        } else {
            (cs, 0)
        }
    }
}

} // verus!

//! A cost grid with its construction-time copy, and the path and reachability
//! queries over it.
use vstd::prelude::*;

use crate::free_finder::{first_free, search_order, FreeFinder};
use crate::grid::{Cell, MULT};
use crate::movement::{
    cell_in, cells, grid_ok, height_of, lemma_same_cells, width_of, Movement, MAX_CELL, MAX_SIDE,
};
use crate::search::{
    admissible, astar_found, astar_search, dijkstra_found, dijkstra_search, goal_test, heuristic_from_selector,
    heuristic_spec_of, is_walk, lemma_walk_in_grid, path_cost, walk_cost, Heuristic, Reached,
};

verus! {

/// Why a grid cannot be used.
#[derive(Clone, Copy, Debug, PartialEq, Eq, Structural)]
pub enum GridError {
    /// No columns, or no rows.
    Empty,
    /// Wider or taller than `MAX_SIDE`.
    TooLarge,
    /// Columns of different lengths.
    Ragged,
    /// A cell cost above `MAX_CELL`, or an influence addition that would
    /// reach it (beyond it path costs could overflow a `u64`).
    CostTooHigh,
}

/// A query named a cell outside the grid.
#[derive(Clone, Copy, Debug, PartialEq, Eq, Structural)]
pub enum PathError {
    OutOfBounds,
}

/// The first defect of `g`, if any.
pub open spec fn grid_error(g: Seq<Vec<usize>>) -> Option<GridError> {
    if g.len() == 0 || g[0]@.len() == 0 {
        Some(GridError::Empty)
    } else if g.len() > MAX_SIDE || g[0]@.len() > MAX_SIDE {
        Some(GridError::TooLarge)
    } else if exists|x: int| 0 <= x < g.len() && (#[trigger] g[x]@.len()) != g[0]@.len() {
        Some(GridError::Ragged)
    } else if exists|x: int, y: int|
        0 <= x < g.len() && 0 <= y < g[0]@.len() && (#[trigger] g[x]@[y]) > MAX_CELL {
        Some(GridError::CostTooHigh)
    } else {
        None
    }
}

/// Finds the first defect of a grid.
pub fn check_grid(g: &Vec<Vec<usize>>) -> (r: Option<GridError>)
    ensures
        r == grid_error(g@),
        r is None <==> grid_ok(g@),
{
    if g.len() == 0 || g[0].len() == 0 {
        return Some(GridError::Empty);
    }
    if g.len() > MAX_SIDE || g[0].len() > MAX_SIDE {
        return Some(GridError::TooLarge);
    }
    let h = g[0].len();
    let mut x: usize = 0;
    while x < g.len()
        invariant
            x <= g@.len(),
            h == g@[0]@.len(),
            0 < g@.len() <= MAX_SIDE,
            0 < h <= MAX_SIDE,
            forall|i: int| 0 <= i < x ==> (#[trigger] g@[i]@.len()) == h,
        decreases g@.len() - x,
    {
        if g[x].len() != h {
            assert(g@[x as int]@.len() != g@[0]@.len());
            return Some(GridError::Ragged);
        }
        x += 1;
    }
    let mut x: usize = 0;
    while x < g.len()
        invariant
            x <= g@.len(),
            h == g@[0]@.len(),
            0 < g@.len() <= MAX_SIDE,
            0 < h <= MAX_SIDE,
            forall|i: int| 0 <= i < g@.len() ==> (#[trigger] g@[i]@.len()) == h,
            forall|i: int, j: int| 0 <= i < x && 0 <= j < h ==> (#[trigger] g@[i]@[j]) <= MAX_CELL,
        decreases g@.len() - x,
    {
        let mut y: usize = 0;
        while y < h
            invariant
                x < g@.len(),
                y <= h,
                h == g@[0]@.len(),
                0 < g@.len() <= MAX_SIDE,
                0 < h <= MAX_SIDE,
            0 < g@.len() <= MAX_SIDE,
            0 < h <= MAX_SIDE,
                forall|i: int| 0 <= i < g@.len() ==> (#[trigger] g@[i]@.len()) == h,
                forall|i: int, j: int| 0 <= i < x && 0 <= j < h ==> (#[trigger] g@[i]@[j]) <= MAX_CELL,
                forall|j: int| 0 <= j < y ==> (#[trigger] g@[x as int]@[j]) <= MAX_CELL,
            decreases h - y,
        {
            if g[x][y] > MAX_CELL {
                assert(g@[x as int]@[y as int] > MAX_CELL);
                assert(!exists|i: int| 0 <= i < g@.len() && (#[trigger] g@[i]@.len()) != g@[0]@.len());
                return Some(GridError::CostTooHigh);
            }
            y += 1;
        }
        x += 1;
    }
    None
}

/// The cell a query starts or ends at: `c` itself when it is open or
/// correction is off, else the nearest open cell of the probe order.
pub open spec fn closest_spec(g: Seq<Vec<usize>>, auto_correct: bool, c: Cell) -> Cell {
    if !auto_correct || g[c.0 as int]@[c.1 as int] > 0 {
        c
    } else {
        first_free(search_order(), 0, g, width_of(g), height_of(g), c)
    }
}

/// `path` with cost `d` answers a search from `s` towards `e`: it is empty
/// exactly when no walk from `s` passes the goal test, and otherwise it is
/// such a walk, ending on a cell that passes, and `d` is its cost.
pub open spec fn route(
    mv: Movement,
    g: Seq<Vec<usize>>,
    s: Cell,
    e: Cell,
    h: Heuristic,
    scale: int,
    below: Option<u64>,
    path: Seq<Cell>,
    d: u64,
) -> bool {
    &&& path.len() > 0 <==> exists|p: Seq<Cell>|
        p.len() > 0 && p[0] == s && #[trigger] is_walk(mv, g, p) && goal_test(h, scale, e, below, p.last())
    &&& path.len() > 0 ==> {
        &&& path[0] == s
        &&& is_walk(mv, g, path)
        &&& goal_test(h, scale, e, below, path.last())
        &&& d == path_cost(mv, g, path)
    }
    &&& path.len() == 0 ==> d == 0
    &&& path == match astar_found(mv, cells(g), s, e, h, scale as u64, below) {
        Some(found) => found.0,
        None => Seq::<Cell>::empty(),
    }
}

/// With `below` absent and a heuristic that never overestimates, `path` is
/// no costlier than any walk from `s` to `e`.
pub open spec fn shortest_when_admissible(
    mv: Movement,
    g: Seq<Vec<usize>>,
    s: Cell,
    e: Cell,
    h: Heuristic,
    scale: int,
    below: Option<u64>,
    path: Seq<Cell>,
) -> bool {
    (below is None && admissible(mv, g, h, scale, e) && path.len() > 0) ==> forall|q: Seq<Cell>|
        q.len() > 0 && q[0] == s && #[trigger] is_walk(mv, g, q) && q.last() == e ==> path_cost(mv, g, path) <= path_cost(mv, g, q)
}

/// The destinations `v` list each cell that a bounded Dijkstra search found,
/// once, with its cost from the start.
pub open spec fn destinations(v: Seq<(Cell, u64)>, found: Set<Reached>) -> bool {
    &&& v.to_set() == found.map(|e: Reached| (e.0, e.2))
    &&& forall|i: int, j: int| 0 <= i < j < v.len() ==> v[i].0 != v[j].0
}

/// `v * scale`, or `u64::MAX` when that does not fit.
pub open spec fn scaled_bound(v: u64, scale: u64) -> u64 {
    if v * scale > u64::MAX {
        u64::MAX
    } else {
        (v * scale) as u64
    }
}

pub(crate) fn scale_bound(v: u64, scale: u64) -> (r: u64)
    ensures
        r == scaled_bound(v, scale),
{
    if scale > 0 && v > u64::MAX / scale {
        assert(v * scale > u64::MAX) by (nonlinear_arith)
            requires
                scale > 0,
                v > u64::MAX / scale,
        ;
        u64::MAX
    } else {
        assert(v * scale <= u64::MAX) by (nonlinear_arith)
            requires
                scale == 0 || v <= u64::MAX / scale,
        ;
        v * scale
    }
}

/// A cost grid for path queries. `map` holds the current costs (zero is
/// blocked); `original_map` the costs it was built with.
pub struct PathFind {
    pub map: Vec<Vec<usize>>,
    pub original_map: Vec<Vec<usize>>,
    pub width: usize,
    pub height: usize,
    pub normal_influence: usize,
    pub auto_correct: bool,
    pub free_finder: FreeFinder,
}

impl PathFind {
    pub open spec fn wf(&self) -> bool {
        &&& grid_ok(self.map@)
        &&& grid_ok(self.original_map@)
        &&& self.width == width_of(self.map@)
        &&& self.height == height_of(self.map@)
        &&& self.width == width_of(self.original_map@)
        &&& self.height == height_of(self.original_map@)
        &&& self.normal_influence <= MAX_CELL
        &&& self.free_finder.wf()
    }

    pub open spec fn contains(&self, c: Cell) -> bool {
        cell_in(self.map@, c)
    }

    pub open spec fn closest(&self, c: Cell) -> Cell {
        closest_spec(self.map@, self.auto_correct, c)
    }

    /// Builds a grid from costs indexed `[x][y]`; the grid keeps a copy to
    /// reset to. Starts with normal influence 1 and correction on.
    pub fn new_internal(map: Vec<Vec<usize>>) -> (r: Result<PathFind, GridError>)
        ensures
            r matches Err(e) ==> grid_error(map@) == Some(e),
            r is Ok <==> grid_error(map@) is None,
            r matches Ok(p) ==> {
                &&& p.wf()
                &&& p.map@ == map@
                &&& cells(p.original_map@) == cells(map@)
                &&& p.normal_influence == 1
                &&& p.auto_correct
            },
    {
        match check_grid(&map) {
            Some(e) => Err(e),
            None => {
                let width = map.len();
                let height = map[0].len();
                let original_map = clone_grid(&map);
                proof {
                    lemma_same_cells(original_map@, map@);
                }
                Ok(
                    PathFind {
                        map,
                        original_map,
                        width,
                        height,
                        normal_influence: 1,
                        auto_correct: true,
                        free_finder: FreeFinder::new(),
                    },
                )
            },
        }
    }

    /// Builds a grid from costs already known to be well formed.
    pub fn from_grid(map: Vec<Vec<usize>>) -> (r: PathFind)
        requires
            grid_ok(map@),
        ensures
            r.wf(),
            r.map@ == map@,
            cells(r.original_map@) == cells(map@),
            r.normal_influence == 1,
            r.auto_correct,
    {
        let width = map.len();
        let height = map[0].len();
        let original_map = clone_grid(&map);
        proof {
            lemma_same_cells(original_map@, map@);
        }
        PathFind {
            map,
            original_map,
            width,
            height,
            normal_influence: 1,
            auto_correct: true,
            free_finder: FreeFinder::new(),
        }
    }

    pub fn get_width(&self) -> (r: usize)
        ensures
            r == self.width,
    {
        self.width
    }

    pub fn get_height(&self) -> (r: usize)
        ensures
            r == self.height,
    {
        self.height
    }

    pub fn get_normal_influence(&self) -> (r: usize)
        ensures
            r == self.normal_influence,
    {
        self.normal_influence
    }

    pub fn get_auto_correct(&self) -> (r: bool)
        ensures
            r == self.auto_correct,
    {
        self.auto_correct
    }

    pub fn set_auto_correct(&mut self, value: bool)
        requires
            old(self).wf(),
        ensures
            final(self).wf(),
            final(self).auto_correct == value,
            final(self).map@ == old(self).map@,
            final(self).original_map@ == old(self).original_map@,
            final(self).normal_influence == old(self).normal_influence,
    {
        self.auto_correct = value;
    }

    /// A copy of the current costs.
    pub fn get_map(&self) -> (r: Vec<Vec<usize>>)
        ensures
            cells(r@) == cells(self.map@),
    {
        clone_grid(&self.map)
    }

    /// Replaces the current costs with a grid of the same shape.
    pub fn set_map(&mut self, value: Vec<Vec<usize>>) -> (r: Result<(), GridError>)
        requires
            old(self).wf(),
        ensures
            final(self).wf(),
            final(self).original_map@ == old(self).original_map@,
            final(self).normal_influence == old(self).normal_influence,
            final(self).auto_correct == old(self).auto_correct,
            r is Ok <==> grid_error(value@) is None && value@.len() == old(self).width
                && value@[0]@.len() == old(self).height,
            r is Ok ==> final(self).map@ == value@,
            r is Err ==> final(self).map@ == old(self).map@,
    {
        match check_grid(&value) {
            Some(e) => Err(e),
            None => {
                if value.len() != self.width || value[0].len() != self.height {
                    Err(GridError::Ragged)
                } else {
                    self.map = value;
                    Ok(())
                }
            },
        }
    }

    /// The current cost of one cell.
    pub fn current_influence(&self, position: Cell) -> (r: usize)
        requires
            self.wf(),
            self.contains(position),
        ensures
            r == self.map@[position.0 as int]@[position.1 as int],
    {
        self.map[position.0][position.1]
    }

    /// Restores the costs the grid was built with.
    pub fn reset(&mut self)
        requires
            old(self).wf(),
        ensures
            final(self).wf(),
            cells(final(self).map@) == cells(old(self).original_map@),
            final(self).original_map@ == old(self).original_map@,
            final(self).normal_influence == old(self).normal_influence,
            final(self).auto_correct == old(self).auto_correct,
    {
        self.map = clone_grid(&self.original_map);
        proof {
            lemma_same_cells(self.map@, self.original_map@);
        }
    }

    /// Same as `reset`.
    pub fn reset_void(&mut self)
        requires
            old(self).wf(),
        ensures
            final(self).wf(),
            cells(final(self).map@) == cells(old(self).original_map@),
            final(self).original_map@ == old(self).original_map@,
            final(self).normal_influence == old(self).normal_influence,
            final(self).auto_correct == old(self).auto_correct,
    {
        self.reset();
    }

    /// `start` itself when it is open or correction is off, else the nearest
    /// open cell of the probe order (or `start` when there is none).
    pub fn get_closest_pathable(&self, start: Cell) -> (r: Cell)
        requires
            self.wf(),
            self.contains(start),
        ensures
            r == self.closest(start),
            self.contains(r),
    {
        proof {
            lemma_first_free_in_grid(self.map@, start, 0);
        }
        if !self.auto_correct || self.map[start.0][start.1] > 0 {
            start
        } else {
            self.free_finder.find_free(start, &self.map, self.width, self.height)
        }
    }

    /// A search with `mv` from `start` until the goal test passes.
    pub(crate) fn route_query(&self, mv: Movement, start: Cell, end: Cell, h: Heuristic, scale: u64, below: Option<u64>) -> (r: (
        Vec<Cell>,
        u64,
    ))
        requires
            self.wf(),
            self.contains(start),
            self.contains(end),
            scale <= MAX_CELL,
        ensures
            route(mv, self.map@, start, end, h, scale as int, below, r.0@, r.1),
            shortest_when_admissible(mv, self.map@, start, end, h, scale as int, below, r.0@),
    {
        match astar_search(mv, &self.map, start, end, h, scale, below) {
            None => {
                (Vec::new(), 0)
            },
            Some((path, _)) => {
                let d = walk_cost(mv, &self.map, &path);
                (path, d)
            },
        }
    }

    fn corrected_route(
        &self,
        mv: Movement,
        start: Cell,
        end: Cell,
        possible_heuristic: Option<u8>,
        scale: u64,
        below: Option<u64>,
    ) -> (r: Result<(Vec<Cell>, u64), PathError>)
        requires
            self.wf(),
            scale <= MAX_CELL,
        ensures
            r is Err <==> !self.contains(start) || !self.contains(end),
            r matches Ok((path, d)) ==> route(
                mv,
                self.map@,
                self.closest(start),
                self.closest(end),
                heuristic_spec_of(possible_heuristic),
                scale as int,
                below,
                path@,
                d,
            ),
            r matches Ok((path, d)) ==> shortest_when_admissible(
                mv,
                self.map@,
                self.closest(start),
                self.closest(end),
                heuristic_spec_of(possible_heuristic),
                scale as int,
                below,
                path@,
            ),
    {
        if start.0 >= self.width || start.1 >= self.height || end.0 >= self.width || end.1
            >= self.height {
            return Err(PathError::OutOfBounds);
        }
        proof {
            assert(self.map@[start.0 as int]@.len() == self.height);
            assert(self.map@[end.0 as int]@.len() == self.height);
        }
        let s = self.get_closest_pathable(start);
        let e = self.get_closest_pathable(end);
        let h = heuristic_from_selector(possible_heuristic);
        Ok(self.route_query(mv, s, e, h, scale, below))
    }

    /// Shortest-path search for a one-cell agent on uniform step costs.
    /// Returns the cells from the (corrected) start to the (corrected) end and
    /// the path's fixed-point length; an empty path with length 0 when the end
    /// cannot be reached.
    pub fn find_path(&self, start: Cell, end: Cell, possible_heuristic: Option<u8>) -> (r: Result<
        (Vec<Cell>, u64),
        PathError,
    >)
        requires
            self.wf(),
        ensures
            r is Err <==> !self.contains(start) || !self.contains(end),
            r matches Ok((path, d)) ==> route(
                Movement::Normal,
                self.map@,
                self.closest(start),
                self.closest(end),
                heuristic_spec_of(possible_heuristic),
                1,
                None,
                path@,
                d,
            ),
            r matches Ok((path, d)) ==> (possible_heuristic == Some(1u8) && path@.len() > 0) ==> forall|q: Seq<Cell>|
                q.len() > 0 && q[0] == self.closest(start) && #[trigger] is_walk(Movement::Normal, self.map@, q) && q.last()
                    == self.closest(end) ==> d <= path_cost(Movement::Normal, self.map@, q),
    {
        let r = self.corrected_route(Movement::Normal, start, end, possible_heuristic, 1, None);
        proof {
            if r is Ok {
                crate::search::lemma_octile_admissible(self.map@, self.closest(end));
            }
        }
        r
    }

    /// As `find_path`, for a two-by-two agent.
    pub fn find_path_large(&self, start: Cell, end: Cell, possible_heuristic: Option<u8>) -> (r:
        Result<(Vec<Cell>, u64), PathError>)
        requires
            self.wf(),
        ensures
            r is Err <==> !self.contains(start) || !self.contains(end),
            r matches Ok((path, d)) ==> route(
                Movement::Large,
                self.map@,
                self.closest(start),
                self.closest(end),
                heuristic_spec_of(possible_heuristic),
                1,
                None,
                path@,
                d,
            ),
    {
        self.corrected_route(Movement::Large, start, end, possible_heuristic, 1, None)
    }

    /// As `find_path`, with each step weighted by the cost of the cell entered.
    pub fn find_path_influence(&self, start: Cell, end: Cell, possible_heuristic: Option<u8>) -> (r:
        Result<(Vec<Cell>, u64), PathError>)
        requires
            self.wf(),
        ensures
            r is Err <==> !self.contains(start) || !self.contains(end),
            r matches Ok((path, d)) ==> route(
                Movement::Influenced,
                self.map@,
                self.closest(start),
                self.closest(end),
                heuristic_spec_of(possible_heuristic),
                self.normal_influence as int,
                None,
                path@,
                d,
            ),
    {
        self.corrected_route(
            Movement::Influenced,
            start,
            end,
            possible_heuristic,
            self.normal_influence as u64,
            None,
        )
    }

    /// As `find_path_influence`, for a two-by-two agent.
    pub fn find_path_influence_large(&self, start: Cell, end: Cell, possible_heuristic: Option<u8>) -> (r:
        Result<(Vec<Cell>, u64), PathError>)
        requires
            self.wf(),
        ensures
            r is Err <==> !self.contains(start) || !self.contains(end),
            r matches Ok((path, d)) ==> route(
                Movement::InfluencedLarge,
                self.map@,
                self.closest(start),
                self.closest(end),
                heuristic_spec_of(possible_heuristic),
                self.normal_influence as int,
                None,
                path@,
                d,
            ),
    {
        self.corrected_route(
            Movement::InfluencedLarge,
            start,
            end,
            possible_heuristic,
            self.normal_influence as u64,
            None,
        )
    }

    /// As `find_path`, but stops at the first cell whose heuristic distance to
    /// the end is below `distance_from_target` (fixed point).
    pub fn find_path_closer_than(
        &self,
        start: Cell,
        end: Cell,
        possible_heuristic: Option<u8>,
        distance_from_target: u64,
    ) -> (r: Result<(Vec<Cell>, u64), PathError>)
        requires
            self.wf(),
        ensures
            r is Err <==> !self.contains(start) || !self.contains(end),
            r matches Ok((path, d)) ==> route(
                Movement::Normal,
                self.map@,
                self.closest(start),
                self.closest(end),
                heuristic_spec_of(possible_heuristic),
                1,
                Some(distance_from_target),
                path@,
                d,
            ),
    {
        self.corrected_route(
            Movement::Normal,
            start,
            end,
            possible_heuristic,
            1,
            Some(distance_from_target),
        )
    }

    /// As `find_path_closer_than`, for a two-by-two agent.
    pub fn find_path_large_closer_than(
        &self,
        start: Cell,
        end: Cell,
        possible_heuristic: Option<u8>,
        distance_from_target: u64,
    ) -> (r: Result<(Vec<Cell>, u64), PathError>)
        requires
            self.wf(),
        ensures
            r is Err <==> !self.contains(start) || !self.contains(end),
            r matches Ok((path, d)) ==> route(
                Movement::Large,
                self.map@,
                self.closest(start),
                self.closest(end),
                heuristic_spec_of(possible_heuristic),
                1,
                Some(distance_from_target),
                path@,
                d,
            ),
    {
        self.corrected_route(
            Movement::Large,
            start,
            end,
            possible_heuristic,
            1,
            Some(distance_from_target),
        )
    }

    /// As `find_path_influence`, stopping once the heuristic distance to the
    /// end (scaled by the normal influence) is below `distance_from_target`
    /// times the normal influence.
    pub fn find_path_influence_closer_than(
        &self,
        start: Cell,
        end: Cell,
        possible_heuristic: Option<u8>,
        distance_from_target: u64,
    ) -> (r: Result<(Vec<Cell>, u64), PathError>)
        requires
            self.wf(),
        ensures
            r is Err <==> !self.contains(start) || !self.contains(end),
            r matches Ok((path, d)) ==> route(
                Movement::Influenced,
                self.map@,
                self.closest(start),
                self.closest(end),
                heuristic_spec_of(possible_heuristic),
                self.normal_influence as int,
                Some(scaled_bound(distance_from_target, self.normal_influence as u64)),
                path@,
                d,
            ),
    {
        let below = scale_bound(distance_from_target, self.normal_influence as u64);
        self.corrected_route(
            Movement::Influenced,
            start,
            end,
            possible_heuristic,
            self.normal_influence as u64,
            Some(below),
        )
    }

    /// As `find_path_influence_closer_than`, for a two-by-two agent.
    pub fn find_path_influence_large_closer_than(
        &self,
        start: Cell,
        end: Cell,
        possible_heuristic: Option<u8>,
        distance_from_target: u64,
    ) -> (r: Result<(Vec<Cell>, u64), PathError>)
        requires
            self.wf(),
        ensures
            r is Err <==> !self.contains(start) || !self.contains(end),
            r matches Ok((path, d)) ==> route(
                Movement::InfluencedLarge,
                self.map@,
                self.closest(start),
                self.closest(end),
                heuristic_spec_of(possible_heuristic),
                self.normal_influence as int,
                Some(scaled_bound(distance_from_target, self.normal_influence as u64)),
                path@,
                d,
            ),
    {
        let below = scale_bound(distance_from_target, self.normal_influence as u64);
        self.corrected_route(
            Movement::InfluencedLarge,
            start,
            end,
            possible_heuristic,
            self.normal_influence as u64,
            Some(below),
        )
    }

    /// Bounded Dijkstra with `mv` from `start`, listing the cells it found with
    /// their costs.
    pub fn reach_from(&self, mv: Movement, start: Cell, limit: Option<u64>) -> (r: Vec<(Cell, u64)>)
        requires
            self.wf(),
            self.contains(start),
        ensures
            destinations(r@, dijkstra_found(mv, cells(self.map@), start, 1, limit)),
            forall|i: int| 0 <= i < r@.len() ==> self.contains((#[trigger] r@[i]).0) && r@[i].0 != start,
            limit is None ==> forall|p: Seq<Cell>|
                p.len() > 0 && p[0] == start && #[trigger] is_walk(mv, self.map@, p) && p.last() != start ==> exists|i: int|
                    0 <= i < r@.len() && r@[i].0 == p.last(),
            limit is None ==> forall|i: int, p: Seq<Cell>|
                0 <= i < r@.len() && p.len() > 0 && p[0] == start && #[trigger] is_walk(mv, self.map@, p) && p.last() == (#[trigger] r@[i]).0
                    ==> r@[i].1 <= path_cost(mv, self.map@, p),
    {
        let found = dijkstra_search(mv, &self.map, start, 1, limit);
        proof {
            assert forall|i: int| 0 <= i < found@.len() implies self.contains((#[trigger] found@[i]).0) by {
                crate::movement::lemma_successor_in_grid(mv, self.map@, found@[i].1, found@[i].0);
            }
        }
        let mut out: Vec<(Cell, u64)> = Vec::new();
        let mut i: usize = 0;
        while i < found.len()
            invariant
                i <= found@.len(),
                out@ == found@.subrange(0, i as int).map_values(|e: Reached| (e.0, e.2)),
                forall|k: int| 0 <= k < found@.len() ==> self.contains((#[trigger] found@[k]).0) && found@[k].0 != start,
            decreases found@.len() - i,
        {
            let e = found[i];
            out.push((e.0, e.2));
            proof {
                assert(found@.subrange(0, i as int + 1) =~= found@.subrange(0, i as int).push(e));
            }
            i += 1;
        }
        proof {
            assert(found@.subrange(0, found@.len() as int) =~= found@);
            let f = |e: Reached| (e.0, e.2);
            assert(out@.to_set() =~= found@.to_set().map(f)) by {
                assert forall|v: (Cell, u64)| out@.to_set().contains(v) implies found@.to_set().map(f).contains(v) by {
                    let k = choose|k: int| 0 <= k < out@.len() && out@[k] == v;
                    assert(found@.to_set().contains(found@[k]));
                }
                assert forall|v: (Cell, u64)| found@.to_set().map(f).contains(v) implies out@.to_set().contains(v) by {
                    let e = choose|e: Reached| found@.to_set().contains(e) && f(e) == v;
                    let k = choose|k: int| 0 <= k < found@.len() && found@[k] == e;
                    assert(out@[k] == v);
                }
            }
        }
        proof {
            if limit is None {
                assert forall|p: Seq<Cell>|
                    p.len() > 0 && p[0] == start && #[trigger] is_walk(mv, self.map@, p) && p.last() != start implies exists|i: int|
                        0 <= i < out@.len() && out@[i].0 == p.last() by {
                    let i = choose|i: int| 0 <= i < found@.len() && found@[i].0 == p.last();
                    assert(out@[i] == (found@[i].0, found@[i].2));
                }
                assert forall|i: int, p: Seq<Cell>|
                    0 <= i < out@.len() && p.len() > 0 && p[0] == start && #[trigger] is_walk(mv, self.map@, p) && p.last() == (#[trigger] out@[i]).0
                        implies out@[i].1 <= path_cost(mv, self.map@, p) by {
                    assert(out@[i] == (found@[i].0, found@[i].2));
                }
            }
        }
        out
    }

    /// All cells reachable from `start` with uniform step costs, excluding
    /// `start`, with their fixed-point walk distances.
    pub fn find_all_destinations(&self, start: Cell) -> (r: Result<Vec<(Cell, u64)>, PathError>)
        requires
            self.wf(),
        ensures
            r is Err <==> !self.contains(start),
            r matches Ok(v) ==> destinations(v@, dijkstra_found(Movement::Normal, cells(self.map@), start, 1, None)),
            r is Ok ==> forall|p: Seq<Cell>|
                p.len() > 0 && p[0] == start && #[trigger] is_walk(Movement::Normal, self.map@, p) && p.last() != start ==> exists|i: int|
                    0 <= i < r->Ok_0@.len() && r->Ok_0@[i].0 == p.last(),
            r is Ok ==> forall|i: int, p: Seq<Cell>|
                0 <= i < r->Ok_0@.len() && p.len() > 0 && p[0] == start && #[trigger] is_walk(Movement::Normal, self.map@, p) && p.last()
                    == (#[trigger] r->Ok_0@[i]).0 ==> r->Ok_0@[i].1 <= path_cost(Movement::Normal, self.map@, p),
    {
        if !self.in_bounds(start) {
            return Err(PathError::OutOfBounds);
        }
        let v = self.reach_from(Movement::Normal, start, None);
        assert(forall|p: Seq<Cell>|
            p.len() > 0 && p[0] == start && #[trigger] is_walk(Movement::Normal, self.map@, p) && p.last() != start ==> exists|i: int|
                0 <= i < v@.len() && v@[i].0 == p.last());
        let r: Result<Vec<(Cell, u64)>, PathError> = Ok(v);
        assert(r->Ok_0 == v);
        r
    }

    /// Bounded Dijkstra from `start`: it stops once it examines a cell farther
    /// than `distance` (fixed-point octile distance) from `start`.
    pub fn find_destinations_in(&self, start: Cell, distance: u64) -> (r: Result<
        Vec<(Cell, u64)>,
        PathError,
    >)
        requires
            self.wf(),
        ensures
            r is Err <==> !self.contains(start),
            r matches Ok(v) ==> destinations(
                v@,
                dijkstra_found(Movement::Normal, cells(self.map@), start, 1, Some(distance)),
            ),
            r matches Ok(v) ==> forall|i: int| 0 <= i < v@.len() ==> self.contains((#[trigger] v@[i]).0),
    {
        if !self.in_bounds(start) {
            return Err(PathError::OutOfBounds);
        }
        Ok(self.reach_from(Movement::Normal, start, Some(distance)))
    }

    /// Same as `find_destinations_in`.
    pub fn find_destinations_in_inline(&self, start: Cell, distance: u64) -> (r: Result<Vec<(Cell, u64)>, PathError>)
        requires
            self.wf(),
        ensures
            r is Err <==> !self.contains(start),
            r matches Ok(v) ==> destinations(
                v@,
                dijkstra_found(Movement::Normal, cells(self.map@), start, 1, Some(distance)),
            ),
    {
        self.find_destinations_in(start, distance)
    }

    /// Same as `find_destinations_in`.
    pub fn djiktra(&self, start: Cell, distance: u64) -> (r: Result<Vec<(Cell, u64)>, PathError>)
        requires
            self.wf(),
        ensures
            r is Err <==> !self.contains(start),
            r matches Ok(v) ==> destinations(
                v@,
                dijkstra_found(Movement::Normal, cells(self.map@), start, 1, Some(distance)),
            ),
            r matches Ok(v) ==> forall|i: int| 0 <= i < v@.len() ==> self.contains((#[trigger] v@[i]).0),
    {
        self.find_destinations_in(start, distance)
    }

    /// Bounded Dijkstra over the blocked cells from `start`.
    pub fn invert_djiktra(&self, start: Cell, distance: u64) -> (r: Result<Vec<(Cell, u64)>, PathError>)
        requires
            self.wf(),
        ensures
            r is Err <==> !self.contains(start),
            r matches Ok(v) ==> destinations(
                v@,
                dijkstra_found(Movement::Inverted, cells(self.map@), start, 1, Some(distance)),
            ),
    {
        if !self.in_bounds(start) {
            return Err(PathError::OutOfBounds);
        }
        Ok(self.reach_from(Movement::Inverted, start, Some(distance)))
    }

    pub fn in_bounds(&self, c: Cell) -> (r: bool)
        requires
            self.wf(),
        ensures
            r == self.contains(c),
    {
        if c.0 < self.width && c.1 < self.height {
            assert(self.map@[c.0 as int]@.len() == self.height);
            true
        } else {
            false
        }
    }
}

/// The nearest-open-cell search never leaves the grid.
pub proof fn lemma_first_free_in_grid(g: Seq<Vec<usize>>, lookup: Cell, i: int)
    requires
        grid_ok(g),
        cell_in(g, lookup),
    ensures
        cell_in(g, first_free(search_order(), i, g, width_of(g), height_of(g), lookup)),
    decreases search_order().len() - i,
{
    if 0 <= i < search_order().len() {
        lemma_first_free_in_grid(g, lookup, i + 1);
        let (x, y) = crate::free_finder::probe(lookup, search_order()[i]);
        if 0 <= x < width_of(g) && 0 <= y < height_of(g) {
            assert(g[x]@.len() == height_of(g));
        }
    }
}

/// A copy of a grid.
pub fn clone_grid(g: &Vec<Vec<usize>>) -> (r: Vec<Vec<usize>>)
    ensures
        r@.len() == g@.len(),
        forall|i: int| 0 <= i < g@.len() ==> (#[trigger] r@[i])@ == g@[i]@,
{
    let mut r: Vec<Vec<usize>> = Vec::new();
    let mut i: usize = 0;
    while i < g.len()
        invariant
            i <= g@.len(),
            r@.len() == i,
            forall|k: int| 0 <= k < i ==> (#[trigger] r@[k])@ == g@[k]@,
        decreases g@.len() - i,
    {
        let row = clone_row(&g[i]);
        r.push(row);
        i += 1;
    }
    r
}

fn clone_row(v: &Vec<usize>) -> (r: Vec<usize>)
    ensures
        r@ == v@,
{
    let mut r: Vec<usize> = Vec::new();
    let mut i: usize = 0;
    while i < v.len()
        invariant
            i <= v@.len(),
            r@ == v@.subrange(0, i as int),
        decreases v@.len() - i,
    {
        r.push(v[i]);
        i += 1;
    }
    assert(v@.subrange(0, v@.len() as int) =~= v@);
    r
}

} // verus!

verus! {

/// Resetting after any sequence of edits reproduces the grid as it was
/// built: `states` are the grid after construction and after each edit (each
/// edit of this module keeps the construction-time copy), and `after` is the
/// grid once reset.
pub proof fn lemma_reset_after_sequence(g: Seq<Vec<usize>>, states: Seq<PathFind>, after: PathFind)
    requires
        states.len() > 0,
        cells(states[0].original_map@) == cells(g),
        forall|i: int| 0 <= i < states.len() - 1 ==> (#[trigger] states[i + 1]).original_map@ == states[i].original_map@,
        cells(after.map@) == cells(states.last().original_map@),
    ensures
        cells(after.map@) == cells(g),
{
    assert forall|i: int| 0 <= i < states.len() implies (#[trigger] states[i]).original_map@ == states[0].original_map@ by {
        lemma_originals_kept(states, i);
    }
}

proof fn lemma_originals_kept(states: Seq<PathFind>, i: int)
    requires
        0 <= i < states.len(),
        forall|k: int| 0 <= k < states.len() - 1 ==> (#[trigger] states[k + 1]).original_map@ == states[k].original_map@,
    ensures
        states[i].original_map@ == states[0].original_map@,
    decreases i,
{
    if i > 0 {
        lemma_originals_kept(states, i - 1);
        let k = i - 1;
        assert(states[k + 1].original_map@ == states[k].original_map@);
    }
}

} // verus!

verus! {

/// The cost of a walk inside the grid depends only on the grid's cells.
pub proof fn lemma_path_cost_same_cells(mv: Movement, a: Seq<Vec<usize>>, b: Seq<Vec<usize>>, p: Seq<Cell>)
    requires
        cells(a) == cells(b),
        forall|i: int| 0 <= i < p.len() ==> cell_in(a, #[trigger] p[i]),
    ensures
        path_cost(mv, a, p) == path_cost(mv, b, p),
    decreases p.len(),
{
    if p.len() > 1 {
        let q = p.drop_last();
        assert forall|i: int| 0 <= i < q.len() implies cell_in(a, #[trigger] q[i]) by {
            assert(q[i] == p[i]);
        }
        lemma_path_cost_same_cells(mv, a, b, q);
        let c = p[p.len() - 1];
        assert(cell_in(a, c));
        assert(cells(a).len() == a.len() && cells(b).len() == b.len());
        assert(cells(a)[c.0 as int] == a[c.0 as int]@);
        assert(cells(b)[c.0 as int] == b[c.0 as int]@);
    }
}

/// Path queries are deterministic: on grids with the same cells, two answers
/// to the same query from the same ends are the same path with the same
/// length.
pub proof fn lemma_route_deterministic(
    mv: Movement,
    ga: Seq<Vec<usize>>,
    gb: Seq<Vec<usize>>,
    s: Cell,
    e: Cell,
    h: Heuristic,
    scale: int,
    below: Option<u64>,
    pa: Seq<Cell>,
    da: u64,
    pb: Seq<Cell>,
    db: u64,
)
    requires
        grid_ok(ga),
        cells(ga) == cells(gb),
        cell_in(ga, s),
        route(mv, ga, s, e, h, scale, below, pa, da),
        route(mv, gb, s, e, h, scale, below, pb, db),
    ensures
        pa == pb,
        da == db,
{
    if pa.len() > 0 {
        lemma_walk_in_grid(mv, ga, pa);
        lemma_path_cost_same_cells(mv, ga, gb, pa);
    }
}

} // verus!

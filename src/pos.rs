//! Grid positions and the movement policies a search can use.
use arrayvec::ArrayVec;
use vstd::prelude::*;

use crate::grid::{
    euclidean_distance, euclidean_spec, manhattan_distance, manhattan_spec, octile_distance, octile_spec, small_cell,
    Cell,
};
use crate::movement::{
    full_window, grid_ok, successor_at, successor_count, successor_items, successors, successors_spec,
    successors_within, Movement, Step, Window,
};

verus! {

/// A grid cell used as a search node.
#[derive(Clone, Copy, Debug, PartialEq, Eq, Hash, PartialOrd, Ord, Structural)]
pub struct Pos(pub usize, pub usize);

/// A grid cell used as a node of an influence-weighted search.
#[derive(Clone, Copy, Debug, PartialEq, Eq, Hash, PartialOrd, Ord, Structural)]
pub struct InfluencedPos(pub usize, pub usize);

/// The successor list of `mv` from `c` as positions.
pub open spec fn successor_positions(mv: Movement, g: Seq<Vec<usize>>, c: Cell) -> Seq<(Pos, u64)> {
    successors_spec(mv, g, c, full_window(g)).map_values(|s: Step| (Pos(s.0.0, s.0.1), s.1))
}

fn successor_vec(mv: Movement, c: Cell, grid: &Vec<Vec<usize>>) -> (r: Vec<(Pos, u64)>)
    requires
        grid_ok(grid@),
    ensures
        r@ == successor_positions(mv, grid@, c),
{
    let list = successors(mv, c, grid);
    let n = successor_count(&list);
    let mut out: Vec<(Pos, u64)> = Vec::new();
    let mut i: usize = 0;
    while i < n
        invariant
            n == successor_items(list).len(),
            successor_items(list) == successors_spec(mv, grid@, c, full_window(grid@)),
            i <= n,
            out@ == successor_items(list).subrange(0, i as int).map_values(|s: Step| (Pos(s.0.0, s.0.1), s.1)),
        decreases n - i,
    {
        let s = successor_at(&list, i);
        out.push((Pos(s.0.0, s.0.1), s.1));
        proof {
            assert(successor_items(list).subrange(0, i as int + 1) =~= successor_items(list).subrange(0, i as int).push(s));
        }
        i += 1;
    }
    assert(successor_items(list).subrange(0, n as int) =~= successor_items(list));
    out
}

impl Pos {
    pub open spec fn cell(&self) -> Cell {
        (self.0, self.1)
    }

    pub fn manhattan_distance(&self, other: &Pos) -> (r: usize)
        requires
            small_cell(self.cell()),
            small_cell(other.cell()),
        ensures
            r == manhattan_spec(self.cell(), other.cell()),
    {
        manhattan_distance((self.0, self.1), (other.0, other.1))
    }

    pub fn euclidean_distance(&self, other: &Pos) -> (r: usize)
        requires
            small_cell(self.cell()),
            small_cell(other.cell()),
        ensures
            r == euclidean_spec(self.cell(), other.cell()),
    {
        euclidean_distance((self.0, self.1), (other.0, other.1))
    }

    /// Octile distance.
    pub fn quick_distance(&self, other: &Pos) -> (r: usize)
        requires
            small_cell(self.cell()),
            small_cell(other.cell()),
        ensures
            r == octile_spec(self.cell(), other.cell()),
    {
        octile_distance((self.0, self.1), (other.0, other.1))
    }

    /// The neighbours a one-cell agent can step to, with uniform costs.
    pub fn successors(&self, grid: &Vec<Vec<usize>>) -> (r: Vec<(Pos, u64)>)
        requires
            grid_ok(grid@),
        ensures
            r@ == successor_positions(Movement::Normal, grid@, self.cell()),
    {
        successor_vec(Movement::Normal, (self.0, self.1), grid)
    }
}

impl InfluencedPos {
    pub open spec fn cell(&self) -> Cell {
        (self.0, self.1)
    }

    pub fn manhattan_distance(&self, other: &InfluencedPos, normal_influence: u64) -> (r: u64)
        requires
            small_cell(self.cell()),
            small_cell(other.cell()),
            normal_influence <= crate::movement::MAX_CELL,
        ensures
            r == crate::search::estimate_spec(crate::search::Heuristic::Manhattan, normal_influence as int, self.cell(), other.cell()),
    {
        crate::search::estimate(crate::search::Heuristic::Manhattan, normal_influence, (self.0, self.1), (other.0, other.1))
    }

    pub fn euclidean_distance(&self, other: &InfluencedPos, normal_influence: u64) -> (r: u64)
        requires
            small_cell(self.cell()),
            small_cell(other.cell()),
            normal_influence <= crate::movement::MAX_CELL,
        ensures
            r == crate::search::estimate_spec(crate::search::Heuristic::Euclidean, normal_influence as int, self.cell(), other.cell()),
    {
        crate::search::estimate(crate::search::Heuristic::Euclidean, normal_influence, (self.0, self.1), (other.0, other.1))
    }

    /// Octile distance, scaled by the normal influence.
    pub fn quick_distance(&self, other: &InfluencedPos, normal_influence: u64) -> (r: u64)
        requires
            small_cell(self.cell()),
            small_cell(other.cell()),
            normal_influence <= crate::movement::MAX_CELL,
        ensures
            r == crate::search::estimate_spec(crate::search::Heuristic::Octile, normal_influence as int, self.cell(), other.cell()),
    {
        crate::search::estimate(crate::search::Heuristic::Octile, normal_influence, (self.0, self.1), (other.0, other.1))
    }

    /// The neighbours a one-cell agent can step to, each weighted by the cost
    /// of the cell entered.
    pub fn successors(&self, grid: &Vec<Vec<usize>>) -> (r: Vec<(Pos, u64)>)
        requires
            grid_ok(grid@),
        ensures
            r@ == successor_positions(Movement::Influenced, grid@, self.cell()),
    {
        successor_vec(Movement::Influenced, (self.0, self.1), grid)
    }
}

/// One-cell agent, uniform step costs.
pub struct NormalPosAPI();

/// One-cell agent, steps weighted by cell cost; estimates scaled by the
/// normal influence.
pub struct InfluencedPosAPI {
    pub normal_influence: usize,
}

/// Walks over blocked cells.
pub struct InvertPosAPI();

/// Two-by-two agent, uniform step costs.
pub struct PosLargeAPI();

/// Two-by-two agent, steps weighted by cell cost.
pub struct InfluencedPosLargeAPI {
    pub normal_influence: usize,
}

impl NormalPosAPI {
    pub fn successors_within(&self, pos: &Pos, grid: &Vec<Vec<usize>>, window: Window) -> (r: ArrayVec<Step, 8>)
        requires
            grid_ok(grid@),
        ensures
            successor_items(r) == successors_spec(Movement::Normal, grid@, pos.cell(), window),
    {
        successors_within(Movement::Normal, (pos.0, pos.1), grid, window)
    }
}

impl InfluencedPosAPI {
    pub fn successors_within(&self, pos: &Pos, grid: &Vec<Vec<usize>>, window: Window) -> (r: ArrayVec<Step, 8>)
        requires
            grid_ok(grid@),
        ensures
            successor_items(r) == successors_spec(Movement::Influenced, grid@, pos.cell(), window),
    {
        successors_within(Movement::Influenced, (pos.0, pos.1), grid, window)
    }
}

impl InvertPosAPI {
    pub fn successors_within(&self, pos: &Pos, grid: &Vec<Vec<usize>>, window: Window) -> (r: ArrayVec<Step, 8>)
        requires
            grid_ok(grid@),
        ensures
            successor_items(r) == successors_spec(Movement::Inverted, grid@, pos.cell(), window),
    {
        successors_within(Movement::Inverted, (pos.0, pos.1), grid, window)
    }
}

impl PosLargeAPI {
    pub fn successors_within(&self, pos: &Pos, grid: &Vec<Vec<usize>>, window: Window) -> (r: ArrayVec<Step, 8>)
        requires
            grid_ok(grid@),
        ensures
            successor_items(r) == successors_spec(Movement::Large, grid@, pos.cell(), window),
    {
        successors_within(Movement::Large, (pos.0, pos.1), grid, window)
    }
}

impl InfluencedPosLargeAPI {
    pub fn successors_within(&self, pos: &Pos, grid: &Vec<Vec<usize>>, window: Window) -> (r: ArrayVec<Step, 8>)
        requires
            grid_ok(grid@),
        ensures
            successor_items(r) == successors_spec(Movement::InfluencedLarge, grid@, pos.cell(), window),
    {
        successors_within(Movement::InfluencedLarge, (pos.0, pos.1), grid, window)
    }
}

} // verus!

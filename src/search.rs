//! A* and bounded Dijkstra over a cost grid, behind the `pathfinding` crate.
use pathfinding::prelude::{astar, dijkstra_partial};
use vstd::prelude::*;
use vstd::set_lib::{lemma_int_range, lemma_len_subset, set_int_range};

use crate::grid::{
    euclidean_distance, euclidean_spec, manhattan_distance, manhattan_spec, octile_distance,
    octile_spec, small_cell, Cell,
};
use crate::movement::{
    cells,
    cell_in, grid_ok, height_of, move_cost, successors, successors_spec, full_window, width_of,
    Movement, MAX_CELL, MAX_SIDE,
};

verus! {

/// The estimate A* uses for the remaining cost.
#[derive(Clone, Copy, Debug, PartialEq, Eq, Structural)]
pub enum Heuristic {
    Manhattan,
    Octile,
    Euclidean,
}

/// Reads the small-integer selector of the query surface: `0` (or none) is
/// Manhattan, `1` octile, anything else Euclidean.
pub fn heuristic_from_selector(selector: Option<u8>) -> (r: Heuristic)
    ensures
        r == heuristic_spec_of(selector),
{
    match selector {
        None => Heuristic::Manhattan,
        Some(0) => Heuristic::Manhattan,
        Some(1) => Heuristic::Octile,
        Some(_) => Heuristic::Euclidean,
    }
}

pub open spec fn heuristic_spec_of(selector: Option<u8>) -> Heuristic {
    match selector {
        None => Heuristic::Manhattan,
        Some(v) => if v == 0 {
            Heuristic::Manhattan
        } else if v == 1 {
            Heuristic::Octile
        } else {
            Heuristic::Euclidean
        },
    }
}

/// The heuristic's distance between two cells, scaled by `scale`.
pub open spec fn estimate_spec(h: Heuristic, scale: int, a: Cell, b: Cell) -> int {
    scale * match h {
        Heuristic::Manhattan => manhattan_spec(a, b),
        Heuristic::Octile => octile_spec(a, b),
        Heuristic::Euclidean => euclidean_spec(a, b),
    }
}

pub fn estimate(h: Heuristic, scale: u64, a: Cell, b: Cell) -> (r: u64)
    requires
        small_cell(a),
        small_cell(b),
        scale <= MAX_CELL,
    ensures
        r == estimate_spec(h, scale as int, a, b),
{
    let d = match h {
        Heuristic::Manhattan => manhattan_distance(a, b),
        Heuristic::Octile => octile_distance(a, b),
        Heuristic::Euclidean => euclidean_distance(a, b),
    } as u64;
    assert(d <= 0x1_0000_0000) by {
        assert(manhattan_spec(a, b) <= 0x1_0000_0000);
        assert(octile_spec(a, b) <= 0x1_0000_0000);
    }
    assert(scale * d <= MAX_CELL * 0x1_0000_0000) by (nonlinear_arith)
        requires
            scale <= MAX_CELL,
            d <= 0x1_0000_0000,
    ;
    scale * d
}

/// `b` is one of the successors of `a`.
pub open spec fn is_step(mv: Movement, g: Seq<Vec<usize>>, a: Cell, b: Cell) -> bool {
    successors_spec(mv, g, a, full_window(g)).contains((b, move_cost(mv, g, a, b) as u64))
}

/// Each cell of `p` after the first is a successor of the one before it.
pub open spec fn is_walk(mv: Movement, g: Seq<Vec<usize>>, p: Seq<Cell>) -> bool {
    forall|i: int| 0 <= i < p.len() - 1 ==> #[trigger] is_step(mv, g, p[i], p[i + 1])
}

/// Some walk leads from `a` to `b`.
pub open spec fn reachable(mv: Movement, g: Seq<Vec<usize>>, a: Cell, b: Cell) -> bool {
    exists|p: Seq<Cell>|
        p.len() > 0 && p[0] == a && #[trigger] is_walk(mv, g, p) && p.last() == b
}

/// The sum of the step costs along `p`.
pub open spec fn path_cost(mv: Movement, g: Seq<Vec<usize>>, p: Seq<Cell>) -> int
    decreases p.len(),
{
    if p.len() <= 1 {
        0
    } else {
        path_cost(mv, g, p.drop_last()) + move_cost(mv, g, p[p.len() - 2], p[p.len() - 1])
    }
}

/// The goal test of a search: the goal itself, or (with a bound) any cell
/// whose estimate to the goal is below the bound.
pub open spec fn goal_test(h: Heuristic, scale: int, goal: Cell, below: Option<u64>, p: Cell) -> bool {
    match below {
        None => p == goal,
        Some(b) => estimate_spec(h, scale, p, goal) < b,
    }
}

fn goal_reached(h: Heuristic, scale: u64, goal: Cell, below: Option<u64>, p: Cell) -> (r: bool)
    requires
        small_cell(p),
        small_cell(goal),
        scale <= MAX_CELL,
    ensures
        r == goal_test(h, scale as int, goal, below, p),
{
    match below {
        None => p.0 == goal.0 && p.1 == goal.1,
        Some(b) => estimate(h, scale, p, goal) < b,
    }
}

/// What the A* search of `astar_search` returns, as a path and a cost.
pub uninterp spec fn astar_found(
    mv: Movement,
    g: Seq<Seq<usize>>,
    start: Cell,
    goal: Cell,
    h: Heuristic,
    scale: u64,
    below: Option<u64>,
) -> Option<(Seq<Cell>, u64)>;

/// The heuristic never overestimates the cost of a walk to `goal`.
pub open spec fn admissible(mv: Movement, g: Seq<Vec<usize>>, h: Heuristic, scale: int, goal: Cell) -> bool {
    forall|q: Seq<Cell>|
        q.len() > 0 && #[trigger] is_walk(mv, g, q) && q.last() == goal ==> estimate_spec(h, scale, q[0], goal)
            <= path_cost(mv, g, q)
}

/// Relies on `pathfinding::directed::astar::astar`. A returned path starts at
/// `start`, steps from each cell to one of its successors, holds no cell twice
/// and ends on a cell that passes the goal test. `None` comes only once every
/// cell reachable from `start` was examined and failed the goal test. Costs
/// stay far below `u64::MAX`: a grid holds at most 2^24 cells and a step
/// costs under 2^34. The search is deterministic (a fixed hasher and a binary
/// heap), so its result is a function of the arguments. With a heuristic that
/// never overestimates, the path is a shortest one: the crate documents the
/// returned cost as the shortest, and the path's own cost is at most that cost
/// because costs recorded along the parent links only ever decrease.
#[verifier::external_body]
pub(crate) fn astar_search(
    mv: Movement,
    grid: &Vec<Vec<usize>>,
    start: Cell,
    goal: Cell,
    h: Heuristic,
    scale: u64,
    below: Option<u64>,
) -> (r: Option<(Vec<Cell>, u64)>)
    requires
        grid_ok(grid@),
        cell_in(grid@, start),
        cell_in(grid@, goal),
        scale <= MAX_CELL,
    ensures
        match r {
            Some((path, _)) => {
                &&& path@.len() > 0
                &&& path@[0] == start
                &&& is_walk(mv, grid@, path@)
                &&& path@.no_duplicates()
                &&& goal_test(h, scale as int, goal, below, path@.last())
                &&& astar_found(mv, cells(grid@), start, goal, h, scale, below) == Some((path@, r->Some_0.1))
                &&& (below is None && admissible(mv, grid@, h, scale as int, goal)) ==> forall|q: Seq<Cell>|
                    q.len() > 0 && q[0] == start && #[trigger] is_walk(mv, grid@, q) && q.last() == goal ==> path_cost(
                        mv,
                        grid@,
                        path@,
                    ) <= path_cost(mv, grid@, q)
            },
            None => astar_found(mv, cells(grid@), start, goal, h, scale, below) is None && forall|p: Seq<Cell>|
                p.len() > 0 && p[0] == start && #[trigger] is_walk(mv, grid@, p) ==> !goal_test(
                    h,
                    scale as int,
                    goal,
                    below,
                    p.last(),
                ),
        },
{
    astar(
        &start,
        |p| successors(mv, *p, grid),
        |p| estimate(h, scale, *p, goal),
        |p| goal_reached(h, scale, goal, below, *p),
    )
}

/// One cell found by a bounded Dijkstra search: the cell, the cell it was
/// reached from, and its cost from the start.
pub type Reached = (Cell, Cell, u64);

/// What a bounded Dijkstra search from `start` finds, as a set: the search
/// stops once it examines a cell whose octile distance from `start`, times
/// `scale`, exceeds `limit`.
pub uninterp spec fn dijkstra_found(
    mv: Movement,
    g: Seq<Seq<usize>>,
    start: Cell,
    scale: u64,
    limit: Option<u64>,
) -> Set<(Cell, Cell, u64)>;

/// Relies on `pathfinding::directed::dijkstra::dijkstra_partial`. The cells it
/// found (`start` excluded) come each once, in no particular order, each with
/// the cell it was reached from, which is `start` or another found cell, and a
/// cost equal to that cell's cost plus the step between them. What it finds is
/// a function of its arguments; only the order varies. Without a limit it
/// finds every cell reachable from `start` (the crate documents
/// `dijkstra_all`, which is this search with no stop, as returning every
/// reachable node), each with the least cost of a walk to it (the crate
/// documents the costs of `dijkstra_all` as minimal).
#[verifier::external_body]
pub(crate) fn dijkstra_search(
    mv: Movement,
    grid: &Vec<Vec<usize>>,
    start: Cell,
    scale: u64,
    limit: Option<u64>,
) -> (r: Vec<Reached>)
    requires
        grid_ok(grid@),
        cell_in(grid@, start),
        scale <= MAX_CELL,
    ensures
        r@.to_set() == dijkstra_found(mv, cells(grid@), start, scale, limit),
        limit is None ==> forall|p: Seq<Cell>|
            p.len() > 0 && p[0] == start && #[trigger] is_walk(mv, grid@, p) && p.last() != start ==> exists|i: int|
                0 <= i < r@.len() && r@[i].0 == p.last(),
        limit is None ==> forall|i: int, p: Seq<Cell>|
            0 <= i < r@.len() && p.len() > 0 && p[0] == start && #[trigger] is_walk(mv, grid@, p) && p.last() == (#[trigger] r@[i]).0
                ==> r@[i].2 <= path_cost(mv, grid@, p),
        forall|i: int, j: int| 0 <= i < j < r@.len() ==> r@[i].0 != r@[j].0,
        forall|i: int|
            0 <= i < r@.len() ==> {
                &&& (#[trigger] r@[i]).0 != start
                &&& is_step(mv, grid@, r@[i].1, r@[i].0)
                &&& (r@[i].1 == start && r@[i].2 == move_cost(mv, grid@, start, r@[i].0)) || exists|
                    j: int,
                |
                    0 <= j < r@.len() && r@[j].0 == r@[i].1 && r@[i].2 == r@[j].2 + move_cost(
                        mv,
                        grid@,
                        r@[j].0,
                        r@[i].0,
                    )
            },
{
    dijkstra_partial(
        &start,
        |p| successors(mv, *p, grid),
        |p| past_limit(scale, limit, start, *p),
    ).0.into_iter().map(|(n, (p, c))| (n, p, c)).collect()
}

fn past_limit(scale: u64, limit: Option<u64>, start: Cell, p: Cell) -> (r: bool)
    requires
        small_cell(p),
        small_cell(start),
        scale <= MAX_CELL,
    ensures
        r == match limit {
            None => false,
            Some(l) => estimate_spec(Heuristic::Octile, scale as int, p, start) > l,
        },
{
    match limit {
        None => false,
        Some(l) => estimate(Heuristic::Octile, scale, p, start) > l,
    }
}

} // verus!

verus! {

/// A sequence of distinct cells of a grid is no longer than the grid has cells.
pub proof fn lemma_distinct_cells_fit(g: Seq<Vec<usize>>, p: Seq<Cell>)
    requires
        grid_ok(g),
        p.no_duplicates(),
        forall|i: int| 0 <= i < p.len() ==> cell_in(g, #[trigger] p[i]),
    ensures
        p.len() <= width_of(g) * height_of(g),
{
    let w = width_of(g);
    let h = height_of(g);
    let f = |c: Cell| c.0 as int * h + c.1 as int;
    let idx = p.map_values(f);
    assert forall|i: int, j: int| 0 <= i < j < idx.len() implies idx[i] != idx[j] by {
        let a = p[i];
        let b = p[j];
        assert(a != b);
        assert(cell_in(g, a) && cell_in(g, b));
        assert(g[a.0 as int]@.len() == h);
        assert(g[b.0 as int]@.len() == h);
        if a.0 == b.0 {
            assert(a.1 != b.1);
        } else if a.0 < b.0 {
            assert(a.0 as int * h + a.1 < b.0 as int * h) by (nonlinear_arith)
                requires
                    a.0 < b.0,
                    a.1 < h,
            ;
        } else {
            assert(b.0 as int * h + b.1 < a.0 as int * h) by (nonlinear_arith)
                requires
                    b.0 < a.0,
                    b.1 < h,
            ;
        }
    }
    assert(idx.no_duplicates());
    idx.unique_seq_to_set();
    assert forall|v: int| idx.to_set().contains(v) implies set_int_range(0, w * h).contains(v) by {
        let i = choose|i: int| 0 <= i < idx.len() && idx[i] == v;
        let a = p[i];
        assert(cell_in(g, a));
        assert(g[a.0 as int]@.len() == h);
        assert(0 <= a.0 as int * h + a.1 < w * h) by (nonlinear_arith)
            requires
                a.0 < w,
                a.1 < h,
        ;
    }
    lemma_int_range(0, w * h);
    lemma_len_subset(idx.to_set(), set_int_range(0, w * h));
}

/// The cost of a walk, summed step by step.
pub fn walk_cost(mv: Movement, grid: &Vec<Vec<usize>>, path: &Vec<Cell>) -> (r: u64)
    requires
        grid_ok(grid@),
        path@.len() > 0,
        cell_in(grid@, path@[0]),
        is_walk(mv, grid@, path@),
        path@.no_duplicates(),
    ensures
        r == path_cost(mv, grid@, path@),
{
    proof {
        lemma_walk_in_grid(mv, grid@, path@);
        lemma_distinct_cells_fit(grid@, path@);
        assert(width_of(grid@) * height_of(grid@) <= MAX_SIDE * MAX_SIDE) by (nonlinear_arith)
            requires
                width_of(grid@) <= MAX_SIDE,
                height_of(grid@) <= MAX_SIDE,
        ;
    }
    let mut total: u64 = 0;
    let mut i: usize = 1;
    while i < path.len()
        invariant
            grid_ok(grid@),
            1 <= i <= path@.len(),
            path@.len() <= MAX_SIDE * MAX_SIDE,
            forall|k: int| 0 <= k < path@.len() ==> cell_in(grid@, #[trigger] path@[k]),
            total == path_cost(mv, grid@, path@.subrange(0, i as int)),
            total <= i * 14828961792,
        decreases path@.len() - i,
    {
        let step = crate::movement::step_cost_of(mv, grid, path[i - 1], path[i]);
        proof {
            let s = path@.subrange(0, i as int + 1);
            assert(s.drop_last() =~= path@.subrange(0, i as int));
            assert(s[s.len() - 2] == path@[i - 1]);
        }
        total = total + step;
        i += 1;
    }
    assert(path@.subrange(0, path@.len() as int) =~= path@);
    total
}

/// Every cell of a walk that starts inside the grid lies inside the grid.
pub proof fn lemma_walk_in_grid(mv: Movement, g: Seq<Vec<usize>>, p: Seq<Cell>)
    requires
        grid_ok(g),
        p.len() > 0,
        cell_in(g, p[0]),
        is_walk(mv, g, p),
    ensures
        forall|k: int| 0 <= k < p.len() ==> cell_in(g, #[trigger] p[k]),
{
    assert forall|k: int| 0 <= k < p.len() implies cell_in(g, #[trigger] p[k]) by {
        lemma_walk_prefix_in_grid(mv, g, p, k);
    }
}

proof fn lemma_walk_prefix_in_grid(mv: Movement, g: Seq<Vec<usize>>, p: Seq<Cell>, k: int)
    requires
        grid_ok(g),
        0 <= k < p.len(),
        cell_in(g, p[0]),
        is_walk(mv, g, p),
    ensures
        cell_in(g, p[k]),
    decreases k,
{
    if k > 0 {
        lemma_walk_prefix_in_grid(mv, g, p, k - 1);
        let j = k - 1;
        assert(is_step(mv, g, p[j], p[j + 1]));
        crate::movement::lemma_successor_in_grid(mv, g, p[k - 1], p[k]);
    }
}

} // verus!

verus! {

/// Octile distance obeys the triangle inequality.
pub proof fn lemma_octile_triangle(a: Cell, b: Cell, c: Cell)
    ensures
        octile_spec(a, c) <= octile_spec(a, b) + octile_spec(b, c),
{
}

proof fn lemma_walk_octile(g: Seq<Vec<usize>>, q: Seq<Cell>)
    requires
        grid_ok(g),
        q.len() > 0,
        is_walk(Movement::Normal, g, q),
    ensures
        octile_spec(q[0], q.last()) <= path_cost(Movement::Normal, g, q),
    decreases q.len(),
{
    if q.len() > 1 {
        let r = q.drop_last();
        assert forall|i: int| 0 <= i < r.len() - 1 implies #[trigger] is_step(Movement::Normal, g, r[i], r[i + 1]) by {
            assert(is_step(Movement::Normal, g, q[i], q[i + 1]));
        }
        lemma_walk_octile(g, r);
        let a = q[q.len() - 2];
        let b = q[q.len() - 1];
        let j = q.len() - 2;
        assert(is_step(Movement::Normal, g, q[j], q[j + 1]));
        let s = successors_spec(Movement::Normal, g, a, full_window(g));
        crate::movement::lemma_successors_adjacent(Movement::Normal, g, a);
        let k = choose|k: int| 0 <= k < s.len() && s[k] == (b, move_cost(Movement::Normal, g, a, b) as u64);
        assert(crate::movement::adjacent(a, s[k].0));
        assert(move_cost(Movement::Normal, g, a, b) == octile_spec(a, b));
        lemma_octile_triangle(q[0], a, b);
    }
}

/// With uniform step costs the octile estimate never overestimates.
pub proof fn lemma_octile_admissible(g: Seq<Vec<usize>>, goal: Cell)
    requires
        grid_ok(g),
    ensures
        admissible(Movement::Normal, g, Heuristic::Octile, 1, goal),
{
    assert forall|q: Seq<Cell>|
        q.len() > 0 && #[trigger] is_walk(Movement::Normal, g, q) && q.last() == goal implies estimate_spec(
        Heuristic::Octile,
        1,
        q[0],
        goal,
    ) <= path_cost(Movement::Normal, g, q) by {
        lemma_walk_octile(g, q);
    }
}

} // verus!

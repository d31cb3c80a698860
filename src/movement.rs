//! Movement policies: which neighbouring cells a search may step to, and at
//! what fixed-point cost.
use arrayvec::ArrayVec;
use vstd::prelude::*;

use crate::grid::{Cell, MULT, SQRT2};

verus! {

/// Largest width or height of a grid.
pub const MAX_SIDE: usize = 4096;

/// Largest cost one cell may hold. With at most `MAX_SIDE²` cells on a path
/// and `SQRT2 · MAX_CELL` per step, every fixed-point path cost, plus any
/// estimate, stays below 2^59 and so fits a `u64`; influence additions that
/// would reach it are refused.
pub const MAX_CELL: usize = 1048576;

/// A successor cell with the cost of stepping onto it.
pub type Step = (Cell, u64);

/// An inclusive-exclusive window `((x0, y0), (x1, y1))` that bounds the
/// straight neighbours a search may use.
pub type Window = ((usize, usize), (usize, usize));

#[verifier::external_type_specification]
#[verifier::external_body]
#[verifier::reject_recursive_types(T)]
pub struct ExArrayVec<T, const CAP: usize>(ArrayVec<T, CAP>);

/// What a successor list holds, in order.
pub uninterp spec fn successor_items(v: ArrayVec<((usize, usize), u64), 8>) -> Seq<((usize, usize), u64)>;

/// Relies on `ArrayVec::new`: a new list holds nothing.
#[verifier::external_body]
fn empty_successors() -> (r: ArrayVec<Step, 8>)
    ensures
        successor_items(r) == Seq::<Step>::empty(),
{
    ArrayVec::new()
}

/// Relies on `ArrayVec::push`: the item is appended at the end; it panics only
/// when the list is full.
#[verifier::external_body]
fn push_successor(list: &mut ArrayVec<Step, 8>, item: Step)
    requires
        successor_items(*old(list)).len() < 8,
    ensures
        successor_items(*final(list)) == successor_items(*old(list)).push(item),
{
    list.push(item)
}

/// The movement rule a search uses.
#[derive(Clone, Copy, Debug, PartialEq, Eq, Structural)]
pub enum Movement {
    /// One-cell agent, uniform step cost.
    Normal,
    /// One-cell agent, each step weighted by the cost of the cell entered.
    Influenced,
    /// Two-by-two agent, uniform step cost.
    Large,
    /// Two-by-two agent, each step weighted by the cost of the cell entered.
    InfluencedLarge,
    /// Walks over blocked (zero) cells instead of open ones.
    Inverted,
}

/// A rectangular grid of cell costs indexed `[x][y]`, within the size and
/// cost limits.
pub open spec fn grid_ok(g: Seq<Vec<usize>>) -> bool {
    &&& 0 < g.len() <= MAX_SIDE
    &&& 0 < g[0]@.len() <= MAX_SIDE
    &&& forall|x: int| 0 <= x < g.len() ==> (#[trigger] g[x]@.len()) == g[0]@.len()
    &&& forall|x: int, y: int|
        0 <= x < g.len() && 0 <= y < g[0]@.len() ==> (#[trigger] g[x]@[y]) <= MAX_CELL
}

pub open spec fn width_of(g: Seq<Vec<usize>>) -> int {
    g.len() as int
}

pub open spec fn height_of(g: Seq<Vec<usize>>) -> int {
    g[0]@.len() as int
}

pub open spec fn in_grid(g: Seq<Vec<usize>>, x: int, y: int) -> bool {
    0 <= x < g.len() && 0 <= y < g[x]@.len()
}

pub open spec fn cell_in(g: Seq<Vec<usize>>, c: Cell) -> bool {
    in_grid(g, c.0 as int, c.1 as int)
}

pub open spec fn cost_at(g: Seq<Vec<usize>>, c: Cell) -> int {
    g[c.0 as int]@[c.1 as int] as int
}

/// A cell that `mv` may stand on: open cells, or blocked ones for `Inverted`.
pub open spec fn passable(mv: Movement, g: Seq<Vec<usize>>, x: int, y: int) -> bool {
    &&& in_grid(g, x, y)
    &&& if mv is Inverted {
        g[x]@[y] == 0
    } else {
        g[x]@[y] > 0
    }
}

pub open spec fn weighted(mv: Movement) -> bool {
    mv is Influenced || mv is InfluencedLarge
}

pub open spec fn large(mv: Movement) -> bool {
    mv is Large || mv is InfluencedLarge
}

/// Cost of stepping from `from` onto the neighbouring cell `to`.
pub open spec fn move_cost(mv: Movement, g: Seq<Vec<usize>>, from: Cell, to: Cell) -> int {
    let base = if from.0 != to.0 && from.1 != to.1 {
        SQRT2 as int
    } else {
        MULT as int
    };
    if weighted(mv) {
        base * cost_at(g, to)
    } else {
        base
    }
}

pub open spec fn step_to(mv: Movement, g: Seq<Vec<usize>>, from: Cell, x: int, y: int) -> Step {
    let to = (x as usize, y as usize);
    (to, move_cost(mv, g, from, to) as u64)
}

pub open spec fn add_if(s: Seq<Step>, b: bool, st: Step) -> Seq<Step> {
    if b {
        s.push(st)
    } else {
        s
    }
}

/// The successors of `p` under `mv`, in the order a search receives them.
/// Straight neighbours must be passable and inside the window; a diagonal needs
/// both straight neighbours it passes between. The two-by-two agent also needs,
/// for a straight step, one of the diagonals beside it.
pub open spec fn successors_spec(mv: Movement, g: Seq<Vec<usize>>, p: Cell, win: Window) -> Seq<Step> {
    let x = p.0 as int;
    let y = p.1 as int;
    let left = x > win.0.0 && passable(mv, g, x - 1, y);
    let down = y > win.0.1 && passable(mv, g, x, y - 1);
    let right = x + 1 < win.1.0 && passable(mv, g, x + 1, y);
    let up = y + 1 < win.1.1 && passable(mv, g, x, y + 1);
    let ld = left && down && passable(mv, g, x - 1, y - 1);
    let lu = left && up && passable(mv, g, x - 1, y + 1);
    let rd = right && down && passable(mv, g, x + 1, y - 1);
    let ru = right && up && passable(mv, g, x + 1, y + 1);
    let s = Seq::<Step>::empty();
    if large(mv) {
        let s = add_if(s, up && (lu || ru), step_to(mv, g, p, x, y + 1));
        let s = add_if(s, down && (ld || rd), step_to(mv, g, p, x, y - 1));
        let s = add_if(s, left && (lu || ld), step_to(mv, g, p, x - 1, y));
        let s = add_if(s, right && (ru || rd), step_to(mv, g, p, x + 1, y));
        let s = add_if(s, lu, step_to(mv, g, p, x - 1, y + 1));
        let s = add_if(s, ld, step_to(mv, g, p, x - 1, y - 1));
        let s = add_if(s, ru, step_to(mv, g, p, x + 1, y + 1));
        add_if(s, rd, step_to(mv, g, p, x + 1, y - 1))
    } else {
        let s = add_if(s, left, step_to(mv, g, p, x - 1, y));
        let s = add_if(s, ld, step_to(mv, g, p, x - 1, y - 1));
        let s = add_if(s, lu, step_to(mv, g, p, x - 1, y + 1));
        let s = add_if(s, right, step_to(mv, g, p, x + 1, y));
        let s = add_if(s, rd, step_to(mv, g, p, x + 1, y - 1));
        let s = add_if(s, ru, step_to(mv, g, p, x + 1, y + 1));
        let s = add_if(s, up, step_to(mv, g, p, x, y + 1));
        add_if(s, down, step_to(mv, g, p, x, y - 1))
    }
}

/// The window that covers the whole grid.
pub open spec fn full_window(g: Seq<Vec<usize>>) -> Window {
    ((0, 0), (g.len() as usize, g[0]@.len() as usize))
}

fn passable_at(mv: Movement, grid: &Vec<Vec<usize>>, x: usize, y: usize) -> (r: bool)
    requires
        grid_ok(grid@),
    ensures
        r == passable(mv, grid@, x as int, y as int),
{
    if x < grid.len() && y < grid[x].len() {
        match mv {
            Movement::Inverted => grid[x][y] == 0,
            _ => grid[x][y] > 0,
        }
    } else {
        false
    }
}

fn step_cost(mv: Movement, grid: &Vec<Vec<usize>>, from: Cell, to: Cell) -> (r: u64)
    requires
        grid_ok(grid@),
        cell_in(grid@, to),
    ensures
        r == move_cost(mv, grid@, from, to),
        r <= 14828961792,
{
    let base: u64 = if from.0 != to.0 && from.1 != to.1 {
        SQRT2 as u64
    } else {
        MULT as u64
    };
    match mv {
        Movement::Influenced | Movement::InfluencedLarge => {
            let c = grid[to.0][to.1] as u64;
            assert(base * c <= 14142 * MAX_CELL) by (nonlinear_arith)
                requires
                    base <= 14142,
                    c <= MAX_CELL,
            ;
            base * c
        },
        _ => base,
    }
}

/// The successors of `pos` under `mv` inside `window`.
pub fn successors_within(mv: Movement, pos: Cell, grid: &Vec<Vec<usize>>, window: Window) -> (r:
    ArrayVec<Step, 8>)
    requires
        grid_ok(grid@),
    ensures
        successor_items(r) == successors_spec(mv, grid@, pos, window),
{
    let (x, y) = pos;
    let ((x0, y0), (x1, y1)) = window;
    let left = x > x0 && passable_at(mv, grid, x - 1, y);
    let down = y > y0 && passable_at(mv, grid, x, y - 1);
    let right = x < usize::MAX && x + 1 < x1 && passable_at(mv, grid, x + 1, y);
    let up = y < usize::MAX && y + 1 < y1 && passable_at(mv, grid, x, y + 1);
    let ld = left && down && passable_at(mv, grid, x - 1, y - 1);
    let lu = left && up && passable_at(mv, grid, x - 1, y + 1);
    let rd = right && down && passable_at(mv, grid, x + 1, y - 1);
    let ru = right && up && passable_at(mv, grid, x + 1, y + 1);
    let mut arr = empty_successors();
    match mv {
        Movement::Large | Movement::InfluencedLarge => {
            if up && (lu || ru) {
                push_successor(&mut arr, ((x, y + 1), step_cost(mv, grid, pos, (x, y + 1))));
            }
            if down && (ld || rd) {
                push_successor(&mut arr, ((x, y - 1), step_cost(mv, grid, pos, (x, y - 1))));
            }
            if left && (lu || ld) {
                push_successor(&mut arr, ((x - 1, y), step_cost(mv, grid, pos, (x - 1, y))));
            }
            if right && (ru || rd) {
                push_successor(&mut arr, ((x + 1, y), step_cost(mv, grid, pos, (x + 1, y))));
            }
            if lu {
                push_successor(&mut arr, ((x - 1, y + 1), step_cost(mv, grid, pos, (x - 1, y + 1))));
            }
            if ld {
                push_successor(&mut arr, ((x - 1, y - 1), step_cost(mv, grid, pos, (x - 1, y - 1))));
            }
            if ru {
                push_successor(&mut arr, ((x + 1, y + 1), step_cost(mv, grid, pos, (x + 1, y + 1))));
            }
            if rd {
                push_successor(&mut arr, ((x + 1, y - 1), step_cost(mv, grid, pos, (x + 1, y - 1))));
            }
        },
        _ => {
            if left {
                push_successor(&mut arr, ((x - 1, y), step_cost(mv, grid, pos, (x - 1, y))));
            }
            if ld {
                push_successor(&mut arr, ((x - 1, y - 1), step_cost(mv, grid, pos, (x - 1, y - 1))));
            }
            if lu {
                push_successor(&mut arr, ((x - 1, y + 1), step_cost(mv, grid, pos, (x - 1, y + 1))));
            }
            if right {
                push_successor(&mut arr, ((x + 1, y), step_cost(mv, grid, pos, (x + 1, y))));
            }
            if rd {
                push_successor(&mut arr, ((x + 1, y - 1), step_cost(mv, grid, pos, (x + 1, y - 1))));
            }
            if ru {
                push_successor(&mut arr, ((x + 1, y + 1), step_cost(mv, grid, pos, (x + 1, y + 1))));
            }
            if up {
                push_successor(&mut arr, ((x, y + 1), step_cost(mv, grid, pos, (x, y + 1))));
            }
            if down {
                push_successor(&mut arr, ((x, y - 1), step_cost(mv, grid, pos, (x, y - 1))));
            }
        },
    }
    arr
}

/// The successors of `pos` under `mv` anywhere in the grid.
pub fn successors(mv: Movement, pos: Cell, grid: &Vec<Vec<usize>>) -> (r: ArrayVec<Step, 8>)
    requires
        grid_ok(grid@),
    ensures
        successor_items(r) == successors_spec(mv, grid@, pos, full_window(grid@)),
{
    successors_within(mv, pos, grid, ((0, 0), (grid.len(), grid[0].len())))
}

} // verus!

verus! {

pub open spec fn all_in_grid(g: Seq<Vec<usize>>, s: Seq<Step>) -> bool {
    forall|i: int| 0 <= i < s.len() ==> cell_in(g, #[trigger] s[i].0)
}

/// Every successor is one step (straight or diagonal) from `p`.
pub open spec fn all_adjacent(p: Cell, s: Seq<Step>) -> bool {
    forall|i: int| 0 <= i < s.len() ==> adjacent(p, #[trigger] s[i].0)
}

pub open spec fn adjacent(a: Cell, b: Cell) -> bool {
    a != b && -1 <= b.0 - a.0 <= 1 && -1 <= b.1 - a.1 <= 1
}

/// Every step of `s` enters a grid cell next to `p`.
pub open spec fn all_near(p: Cell, g: Seq<Vec<usize>>, s: Seq<Step>) -> bool {
    forall|i: int| 0 <= i < s.len() ==> cell_in(g, #[trigger] s[i].0) && adjacent(p, s[i].0)
}

proof fn lemma_add_if_near(p: Cell, g: Seq<Vec<usize>>, s: Seq<Step>, b: bool, x: int, y: int, st: Step)
    requires
        grid_ok(g),
        all_near(p, g, s),
        b ==> in_grid(g, x, y) && st.0 == (x as usize, y as usize) && -1 <= x - p.0 <= 1 && -1 <= y - p.1 <= 1 && !(x == p.0 && y == p.1),
    ensures
        all_near(p, g, add_if(s, b, st)),
{
    if b {
        assert(add_if(s, b, st) == s.push(st));
        assert forall|i: int| 0 <= i < s.len() + 1 implies cell_in(g, #[trigger] s.push(st)[i].0) && adjacent(p, s.push(st)[i].0) by {
            if i < s.len() {
                assert(s.push(st)[i] == s[i]);
            } else {
                assert(s.push(st)[i] == st);
                assert(g[x]@.len() == g[0]@.len());
                assert(st.0.0 as int == x && st.0.1 as int == y);
            }
        }
    }
}

/// Every successor enters a grid cell one step from `p`.
#[verifier::rlimit(60)]
pub proof fn lemma_successors_near(mv: Movement, g: Seq<Vec<usize>>, p: Cell)
    requires
        grid_ok(g),
    ensures
        all_near(p, g, successors_spec(mv, g, p, full_window(g))),
{
    let win = full_window(g);
    let x = p.0 as int;
    let y = p.1 as int;
    let left = x > win.0.0 && passable(mv, g, x - 1, y);
    let down = y > win.0.1 && passable(mv, g, x, y - 1);
    let right = x + 1 < win.1.0 && passable(mv, g, x + 1, y);
    let up = y + 1 < win.1.1 && passable(mv, g, x, y + 1);
    let ld = left && down && passable(mv, g, x - 1, y - 1);
    let lu = left && up && passable(mv, g, x - 1, y + 1);
    let rd = right && down && passable(mv, g, x + 1, y - 1);
    let ru = right && up && passable(mv, g, x + 1, y + 1);
    let (moves, conds) = if large(mv) {
        (
            seq![(x, y + 1), (x, y - 1), (x - 1, y), (x + 1, y), (x - 1, y + 1), (x - 1, y - 1), (x + 1, y + 1), (x + 1, y - 1)],
            seq![up && (lu || ru), down && (ld || rd), left && (lu || ld), right && (ru || rd), lu, ld, ru, rd],
        )
    } else {
        (
            seq![(x - 1, y), (x - 1, y - 1), (x - 1, y + 1), (x + 1, y), (x + 1, y - 1), (x + 1, y + 1), (x, y + 1), (x, y - 1)],
            seq![left, ld, lu, right, rd, ru, up, down],
        )
    };
    lemma_chain_near(mv, g, p, moves, conds, 8);
    reveal_with_fuel(chain, 9);
    assert(successors_spec(mv, g, p, win) == chain(mv, g, p, moves, conds, 8));
}

proof fn lemma_chain_near(mv: Movement, g: Seq<Vec<usize>>, p: Cell, moves: Seq<(int, int)>, conds: Seq<bool>, k: int)
    requires
        grid_ok(g),
        0 <= k <= moves.len(),
        moves.len() == conds.len(),
        forall|j: int| 0 <= j < moves.len() ==> #[trigger] conds[j] ==> in_grid(g, moves[j].0, moves[j].1) && -1 <= moves[j].0 - p.0 <= 1
            && -1 <= moves[j].1 - p.1 <= 1 && !(moves[j].0 == p.0 && moves[j].1 == p.1),
    ensures
        all_near(p, g, chain(mv, g, p, moves, conds, k)),
    decreases k,
{
    if k > 0 {
        lemma_chain_near(mv, g, p, moves, conds, k - 1);
        let j = k - 1;
        assert(conds[j] ==> in_grid(g, moves[j].0, moves[j].1));
        lemma_add_if_near(p, g, chain(mv, g, p, moves, conds, k - 1), conds[j], moves[j].0, moves[j].1, step_to(mv, g, p, moves[j].0, moves[j].1));
    }
}

/// The first `k` candidate steps of `moves`, each kept when its condition holds.
pub open spec fn chain(mv: Movement, g: Seq<Vec<usize>>, p: Cell, moves: Seq<(int, int)>, conds: Seq<bool>, k: int) -> Seq<Step>
    decreases k,
{
    if k <= 0 {
        Seq::empty()
    } else {
        add_if(chain(mv, g, p, moves, conds, k - 1), conds[k - 1], step_to(mv, g, p, moves[k - 1].0, moves[k - 1].1))
    }
}

/// Every successor lies inside the grid.
pub proof fn lemma_successors_in_grid(mv: Movement, g: Seq<Vec<usize>>, p: Cell)
    requires
        grid_ok(g),
    ensures
        all_in_grid(g, successors_spec(mv, g, p, full_window(g))),
{
    lemma_successors_near(mv, g, p);
}

/// Every successor is one step from `p`.
pub proof fn lemma_successors_adjacent(mv: Movement, g: Seq<Vec<usize>>, p: Cell)
    requires
        grid_ok(g),
    ensures
        all_adjacent(p, successors_spec(mv, g, p, full_window(g))),
{
    lemma_successors_near(mv, g, p);
}

/// A successor lies inside the grid.
pub proof fn lemma_successor_in_grid(mv: Movement, g: Seq<Vec<usize>>, a: Cell, b: Cell)
    requires
        grid_ok(g),
        successors_spec(mv, g, a, full_window(g)).contains((b, move_cost(mv, g, a, b) as u64)),
    ensures
        cell_in(g, b),
{
    let s = successors_spec(mv, g, a, full_window(g));
    lemma_successors_in_grid(mv, g, a);
    let i = choose|i: int| 0 <= i < s.len() && s[i] == (b, move_cost(mv, g, a, b) as u64);
    assert(cell_in(g, s[i].0));
}

/// The cost of the step from `from` onto the neighbouring cell `to`.
pub fn step_cost_of(mv: Movement, grid: &Vec<Vec<usize>>, from: Cell, to: Cell) -> (r: u64)
    requires
        grid_ok(grid@),
        cell_in(grid@, to),
    ensures
        r == move_cost(mv, grid@, from, to),
        r <= 14828961792,
{
    step_cost(mv, grid, from, to)
}

} // verus!

verus! {

/// The values of a grid, column by column.
pub open spec fn cells(g: Seq<Vec<usize>>) -> Seq<Seq<usize>> {
    g.map_values(|r: Vec<usize>| r@)
}

/// Grids with the same columns are equally well formed and equally sized.
pub proof fn lemma_same_cells(a: Seq<Vec<usize>>, b: Seq<Vec<usize>>)
    requires
        a.len() == b.len(),
        forall|i: int| 0 <= i < a.len() ==> (#[trigger] a[i])@ == b[i]@,
    ensures
        grid_ok(a) == grid_ok(b),
        cells(a) == cells(b),
        a.len() > 0 ==> height_of(a) == height_of(b),
{
    assert(cells(a) =~= cells(b));
    if a.len() > 0 {
        assert(a[0]@ == b[0]@);
    }
    if grid_ok(b) {
        assert forall|x: int| 0 <= x < a.len() implies (#[trigger] a[x]@.len()) == a[0]@.len() by {
            assert(a[x]@ == b[x]@);
            assert(b[x]@.len() == b[0]@.len());
        }
        assert forall|x: int, y: int| 0 <= x < a.len() && 0 <= y < a[0]@.len() implies (#[trigger] a[x]@[y]) <= MAX_CELL by {
            assert(a[x]@ == b[x]@);
            assert(b[x]@[y] <= MAX_CELL);
        }
    }
    if grid_ok(a) {
        assert forall|x: int| 0 <= x < b.len() implies (#[trigger] b[x]@.len()) == b[0]@.len() by {
            assert(a[x]@ == b[x]@);
            assert(a[x]@.len() == a[0]@.len());
        }
        assert forall|x: int, y: int| 0 <= x < b.len() && 0 <= y < b[0]@.len() implies (#[trigger] b[x]@[y]) <= MAX_CELL by {
            assert(a[x]@ == b[x]@);
            assert(a[x]@[y] <= MAX_CELL);
        }
    }
}

} // verus!

verus! {

/// Relies on `ArrayVec::len`: the number of items held.
#[verifier::external_body]
pub fn successor_count(list: &ArrayVec<Step, 8>) -> (r: usize)
    ensures
        r == successor_items(*list).len(),
{
    list.len()
}

/// Relies on indexing an `ArrayVec` (through its slice): the item at `i`.
#[verifier::external_body]
pub fn successor_at(list: &ArrayVec<Step, 8>, i: usize) -> (r: Step)
    requires
        i < successor_items(*list).len(),
    ensures
        r == successor_items(*list)[i as int],
{
    list[i]
}

} // verus!

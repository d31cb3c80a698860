//! Influence: per-cell costs layered onto a grid by blocks and falloff
//! around sources.
use vstd::prelude::*;

use crate::grid::{octile_distance, octile_spec, small_cell, Cell, MULT};
use crate::movement::{cell_in, cells, grid_ok, in_grid, lemma_same_cells, MAX_CELL, MAX_SIDE};
use crate::pathfind::{closest_spec, PathFind};
use crate::movement::Movement;
use crate::search::{dijkstra_found, Reached};
use crate::rectangle::{rect_spec, Rectangle};

verus! {

/// Every cell of `before` that was open holds `v` in `after`; blocked cells
/// stay blocked.
pub open spec fn normalized(before: Seq<Vec<usize>>, after: Seq<Vec<usize>>, v: usize) -> bool {
    &&& after.len() == before.len()
    &&& forall|x: int| 0 <= x < before.len() ==> (#[trigger] after[x]@.len()) == before[x]@.len()
    &&& forall|x: int, y: int|
        in_grid(before, x, y) ==> (#[trigger] after[x]@[y]) == if before[x]@[y] > 0 {
            v
        } else {
            0
        }
}

pub open spec fn column_positive_sum(c: Seq<usize>) -> int
    decreases c.len(),
{
    if c.len() == 0 {
        0
    } else {
        column_positive_sum(c.drop_last()) + if c.last() > 0 {
            c.last() as int
        } else {
            0
        }
    }
}

pub open spec fn column_positive_count(c: Seq<usize>) -> int
    decreases c.len(),
{
    if c.len() == 0 {
        0
    } else {
        column_positive_count(c.drop_last()) + if c.last() > 0 {
            1int
        } else {
            0
        }
    }
}

/// The sum of the open cells of a grid.
pub open spec fn positive_sum(g: Seq<Vec<usize>>) -> int
    decreases g.len(),
{
    if g.len() == 0 {
        0
    } else {
        positive_sum(g.drop_last()) + column_positive_sum(g.last()@)
    }
}

/// The number of open cells of a grid.
pub open spec fn positive_count(g: Seq<Vec<usize>>) -> int
    decreases g.len(),
{
    if g.len() == 0 {
        0
    } else {
        positive_count(g.drop_last()) + column_positive_count(g.last()@)
    }
}

proof fn lemma_column_normalized(before: Seq<usize>, after: Seq<usize>, v: usize)
    requires
        after.len() == before.len(),
        forall|y: int| 0 <= y < before.len() ==> (#[trigger] after[y]) == if before[y] > 0 {
            v
        } else {
            0
        },
    ensures
        column_positive_sum(after) == v * column_positive_count(before),
    decreases before.len(),
{
    if before.len() > 0 {
        let b = before.drop_last();
        let a = after.drop_last();
        assert forall|y: int| 0 <= y < b.len() implies (#[trigger] a[y]) == if b[y] > 0 {
            v
        } else {
            0
        } by {
            assert(a[y] == after[y]);
            assert(b[y] == before[y]);
        }
        lemma_column_normalized(b, a, v);
        let n = column_positive_count(b);
        assert(v * (n + 1) == v * n + v) by (nonlinear_arith);
    }
}

/// Normalising influence to `v` leaves the open cells summing to `v` times
/// the number of cells that were open before.
pub proof fn lemma_normalize_sum(before: Seq<Vec<usize>>, after: Seq<Vec<usize>>, v: usize)
    requires
        normalized(before, after, v),
    ensures
        positive_sum(after) == v * positive_count(before),
    decreases before.len(),
{
    if before.len() > 0 {
        let b = before.drop_last();
        let a = after.drop_last();
        assert(normalized(b, a, v)) by {
            assert forall|x: int| 0 <= x < b.len() implies (#[trigger] a[x]@.len()) == b[x]@.len() by {
                assert(a[x] == after[x]);
                assert(b[x] == before[x]);
            }
            assert forall|x: int, y: int| in_grid(b, x, y) implies (#[trigger] a[x]@[y]) == if b[x]@[y] > 0 {
                v
            } else {
                0
            } by {
                assert(a[x] == after[x]);
                assert(b[x] == before[x]);
                assert(in_grid(before, x, y));
            }
        }
        lemma_normalize_sum(b, a, v);
        let last = before.len() - 1;
        assert forall|y: int| 0 <= y < before.last()@.len() implies (#[trigger] after.last()@[y]) == if before.last()@[y] > 0 {
            v
        } else {
            0
        } by {
            assert(in_grid(before, last, y));
        }
        assert(after.last()@.len() == before.last()@.len()) by {
            assert(after[last]@.len() == before[last]@.len());
        }
        lemma_column_normalized(before.last()@, after.last()@, v);
        let n = positive_count(b);
        let m = column_positive_count(before.last()@);
        assert(v * (n + m) == v * n + v * m) by (nonlinear_arith);
    }
}

/// `after` is `before` with the cells of `cell_value` changed as it says.
pub open spec fn cells_follow(
    before: Seq<Vec<usize>>,
    after: Seq<Vec<usize>>,
    cell_value: spec_fn(int, int, usize) -> usize,
) -> bool {
    &&& after.len() == before.len()
    &&& forall|x: int| 0 <= x < before.len() ==> (#[trigger] after[x]@.len()) == before[x]@.len()
    &&& forall|x: int, y: int|
        in_grid(before, x, y) ==> (#[trigger] after[x]@[y]) == cell_value(x, y, before[x]@[y])
}

/// `fill` in the rectangle, the old value elsewhere.
pub open spec fn fill_value(r: Rectangle, fill: usize) -> spec_fn(int, int, usize) -> usize {
    |x: int, y: int, old: usize| if r.contains(x, y) {
        fill
    } else {
        old
    }
}

/// `fill` in every rectangle of `centers`, the old value elsewhere.
pub open spec fn blocks_value(
    centers: Seq<Cell>,
    size: (usize, usize),
    width: usize,
    height: usize,
    fill: usize,
) -> spec_fn(int, int, usize) -> usize {
    |x: int, y: int, old: usize|
        if exists|i: int|
            0 <= i < centers.len() && (#[trigger] rect_spec(centers[i], size, width, height)).contains(
                x,
                y,
            ) {
            fill
        } else {
            old
        }
}

impl PathFind {
    /// Sets every open cell to `value`, which also becomes the normal
    /// influence. `value` is at most `MAX_CELL`, the bound that keeps path
    /// costs inside a `u64`.
    pub fn normalize_influence(&mut self, value: usize)
        requires
            old(self).wf(),
            value <= MAX_CELL,
        ensures
            final(self).wf(),
            normalized(old(self).map@, final(self).map@, value),
            final(self).normal_influence == value,
            final(self).original_map@ == old(self).original_map@,
            final(self).auto_correct == old(self).auto_correct,
    {
        self.normal_influence = value;
        let ghost before = self.map@;
        let mut x: usize = 0;
        while x < self.width
            invariant
                self.width == before.len(),
                self.height == before[0]@.len(),
                grid_ok(before),
                before == old(self).map@,
                old(self).wf(),
                self.original_map == old(self).original_map,
                self.free_finder == old(self).free_finder,
                self.auto_correct == old(self).auto_correct,
                self.normal_influence == value,
                self.width == old(self).width,
                self.height == old(self).height,
                value <= MAX_CELL,
                x <= self.width,
                self.map@.len() == before.len(),
                forall|i: int| 0 <= i < before.len() ==> (#[trigger] self.map@[i]@.len()) == before[i]@.len(),
                forall|i: int, j: int|
                    in_grid(before, i, j) ==> (#[trigger] self.map@[i]@[j]) == if i < x {
                        if before[i]@[j] > 0 {
                            value
                        } else {
                            0
                        }
                    } else {
                        before[i]@[j]
                    },
            decreases self.width - x,
        {
            let mut y: usize = 0;
            while y < self.height
                invariant
                    self.width == before.len(),
                    self.height == before[0]@.len(),
                    grid_ok(before),
                    before == old(self).map@,
                    old(self).wf(),
                    self.original_map == old(self).original_map,
                    self.free_finder == old(self).free_finder,
                    self.auto_correct == old(self).auto_correct,
                    self.normal_influence == value,
                    self.width == old(self).width,
                    self.height == old(self).height,
                    value <= MAX_CELL,
                    x < self.width,
                    y <= self.height,
                    self.map@.len() == before.len(),
                    forall|i: int| 0 <= i < before.len() ==> (#[trigger] self.map@[i]@.len()) == before[i]@.len(),
                    forall|i: int, j: int|
                        in_grid(before, i, j) ==> (#[trigger] self.map@[i]@[j]) == if i < x || (i == x
                            && j < y) {
                            if before[i]@[j] > 0 {
                                value
                            } else {
                                0
                            }
                        } else {
                            before[i]@[j]
                        },
                decreases self.height - y,
            {
                assert(before[x as int]@.len() == self.height);
                if self.map[x][y] > 0 {
                    self.map[x][y] = value;
                }
                y += 1;
            }
            x += 1;
        }
        proof {
            assert forall|i: int| 0 <= i < self.map@.len() implies (#[trigger] self.map@[i]@.len()) == self.map@[0]@.len() by {
                assert(before[i]@.len() == before[0]@.len());
            }
            assert forall|i: int, j: int| 0 <= i < self.map@.len() && 0 <= j < self.map@[0]@.len() implies (#[trigger] self.map@[i]@[j]) <= MAX_CELL by {
                assert(before[i]@.len() == before[0]@.len());
                assert(in_grid(before, i, j));
            }
        }
    }

    /// Sets every cell of `rect` to `fill`.
    fn fill_rect(&mut self, rect: Rectangle, fill: usize)
        requires
            old(self).wf(),
            fill <= MAX_CELL,
            rect.x_end <= old(self).width,
            rect.y_end <= old(self).height,
        ensures
            final(self).wf(),
            cells_follow(old(self).map@, final(self).map@, fill_value(rect, fill)),
            final(self).original_map@ == old(self).original_map@,
            final(self).normal_influence == old(self).normal_influence,
            final(self).auto_correct == old(self).auto_correct,
    {
        let ghost before = self.map@;
        let mut x: usize = rect.x;
        while x < rect.x_end
            invariant
                self.wf(),
                self.original_map@ == old(self).original_map@,
                self.normal_influence == old(self).normal_influence,
                self.auto_correct == old(self).auto_correct,
                self.width == old(self).width,
                self.height == old(self).height,
                before == old(self).map@,
                grid_ok(before),
                rect.x <= x,
                fill <= MAX_CELL,
                rect.x_end <= self.width,
                rect.y_end <= self.height,
                self.map@.len() == before.len(),
                forall|i: int| 0 <= i < before.len() ==> (#[trigger] self.map@[i]@.len()) == before[i]@.len(),
                forall|i: int, j: int|
                    in_grid(before, i, j) ==> (#[trigger] self.map@[i]@[j]) == if i < x && rect.contains(i, j) {
                        fill
                    } else {
                        before[i]@[j]
                    },
            decreases rect.x_end - x,
        {
            let mut y: usize = rect.y;
            while y < rect.y_end
                invariant
                    self.wf(),
                    self.original_map@ == old(self).original_map@,
                    self.normal_influence == old(self).normal_influence,
                    self.auto_correct == old(self).auto_correct,
                    self.width == old(self).width,
                    self.height == old(self).height,
                    before == old(self).map@,
                    grid_ok(before),
                    fill <= MAX_CELL,
                    rect.x <= x < rect.x_end,
                    rect.y <= y,
                    rect.x_end <= self.width,
                    rect.y_end <= self.height,
                    self.map@.len() == before.len(),
                    forall|i: int| 0 <= i < before.len() ==> (#[trigger] self.map@[i]@.len()) == before[i]@.len(),
                    forall|i: int, j: int|
                        in_grid(before, i, j) ==> (#[trigger] self.map@[i]@[j]) == if (i < x || (i == x
                            && j < y)) && rect.contains(i, j) {
                            fill
                        } else {
                            before[i]@[j]
                        },
                decreases rect.y_end - y,
            {
                assert(self.map@[x as int]@.len() == self.height);
                self.map[x][y] = fill;
                proof {
                    assert forall|i: int| 0 <= i < self.map@.len() implies (#[trigger] self.map@[i]@.len()) == self.map@[0]@.len() by {
                        assert(before[i]@.len() == before[0]@.len());
                    }
                    assert forall|i: int, j: int| 0 <= i < self.map@.len() && 0 <= j < self.map@[0]@.len() implies (#[trigger] self.map@[i]@[j]) <= MAX_CELL by {
                        assert(before[i]@.len() == before[0]@.len());
                        assert(in_grid(before, i, j));
                    }
                }
                y += 1;
            }
            x += 1;
        }
    }

    /// Blocks (sets to zero) each `size` rectangle centred on a cell of
    /// `centers`, clamped to the grid.
    pub fn create_blocks(&mut self, centers: &Vec<Cell>, size: (usize, usize))
        requires
            old(self).wf(),
        ensures
            final(self).wf(),
            cells_follow(
                old(self).map@,
                final(self).map@,
                blocks_value(centers@, size, old(self).width, old(self).height, 0),
            ),
            final(self).original_map@ == old(self).original_map@,
            final(self).normal_influence == old(self).normal_influence,
            final(self).auto_correct == old(self).auto_correct,
    {
        self.fill_rects(centers, size, 0);
    }

    /// Opens (sets to the normal influence) each `size` rectangle centred on
    /// a cell of `centers`, clamped to the grid.
    pub fn remove_blocks(&mut self, centers: &Vec<Cell>, size: (usize, usize))
        requires
            old(self).wf(),
        ensures
            final(self).wf(),
            cells_follow(
                old(self).map@,
                final(self).map@,
                blocks_value(centers@, size, old(self).width, old(self).height, old(self).normal_influence),
            ),
            final(self).original_map@ == old(self).original_map@,
            final(self).normal_influence == old(self).normal_influence,
            final(self).auto_correct == old(self).auto_correct,
    {
        let fill = self.normal_influence;
        self.fill_rects(centers, size, fill);
    }

    /// Blocks one rectangle; see `create_blocks`.
    pub fn create_block(&mut self, center: Cell, size: (usize, usize))
        requires
            old(self).wf(),
        ensures
            final(self).wf(),
            cells_follow(
                old(self).map@,
                final(self).map@,
                fill_value(rect_spec(center, size, old(self).width, old(self).height), 0),
            ),
            final(self).original_map@ == old(self).original_map@,
            final(self).normal_influence == old(self).normal_influence,
            final(self).auto_correct == old(self).auto_correct,
    {
        let rect = Rectangle::init_from_center2(center, size, self.width, self.height);
        self.fill_rect(rect, 0);
    }

    /// Opens one rectangle; see `remove_blocks`.
    pub fn remove_block(&mut self, center: Cell, size: (usize, usize))
        requires
            old(self).wf(),
        ensures
            final(self).wf(),
            cells_follow(
                old(self).map@,
                final(self).map@,
                fill_value(
                    rect_spec(center, size, old(self).width, old(self).height),
                    old(self).normal_influence,
                ),
            ),
            final(self).original_map@ == old(self).original_map@,
            final(self).normal_influence == old(self).normal_influence,
            final(self).auto_correct == old(self).auto_correct,
    {
        let rect = Rectangle::init_from_center2(center, size, self.width, self.height);
        let fill = self.normal_influence;
        self.fill_rect(rect, fill);
    }

    fn fill_rects(&mut self, centers: &Vec<Cell>, size: (usize, usize), fill: usize)
        requires
            old(self).wf(),
            fill <= MAX_CELL,
        ensures
            final(self).wf(),
            cells_follow(
                old(self).map@,
                final(self).map@,
                blocks_value(centers@, size, old(self).width, old(self).height, fill),
            ),
            final(self).original_map@ == old(self).original_map@,
            final(self).normal_influence == old(self).normal_influence,
            final(self).auto_correct == old(self).auto_correct,
    {
        let ghost before = self.map@;
        let mut k: usize = 0;
        while k < centers.len()
            invariant
                self.wf(),
                self.original_map@ == old(self).original_map@,
                self.normal_influence == old(self).normal_influence,
                self.auto_correct == old(self).auto_correct,
                self.width == old(self).width,
                self.height == old(self).height,
                before == old(self).map@,
                fill <= MAX_CELL,
                k <= centers@.len(),
                cells_follow(
                    before,
                    self.map@,
                    blocks_value(centers@.subrange(0, k as int), size, self.width, self.height, fill),
                ),
            decreases centers@.len() - k,
        {
            let rect = Rectangle::init_from_center2(centers[k], size, self.width, self.height);
            let ghost mid = self.map@;
            self.fill_rect(rect, fill);
            proof {
                let prev = centers@.subrange(0, k as int);
                let next = centers@.subrange(0, k as int + 1);
                assert forall|x: int, y: int| in_grid(before, x, y) implies (#[trigger] self.map@[x]@[y]) == (blocks_value(next, size, self.width, self.height, fill))(x, y, before[x]@[y]) by {
                    assert(in_grid(mid, x, y));
                    if rect.contains(x, y) {
                        assert(next[k as int] == centers@[k as int]);
                    } else {
                        if exists|i: int| 0 <= i < next.len() && (#[trigger] rect_spec(next[i], size, self.width, self.height)).contains(x, y) {
                            let i = choose|i: int| 0 <= i < next.len() && (#[trigger] rect_spec(next[i], size, self.width, self.height)).contains(x, y);
                            assert(i < k);
                            assert(prev[i] == next[i]);
                        }
                        if exists|i: int| 0 <= i < prev.len() && (#[trigger] rect_spec(prev[i], size, self.width, self.height)).contains(x, y) {
                            let i = choose|i: int| 0 <= i < prev.len() && (#[trigger] rect_spec(prev[i], size, self.width, self.height)).contains(x, y);
                            assert(prev[i] == next[i]);
                        }
                    }
                }
                assert forall|x: int| 0 <= x < before.len() implies (#[trigger] self.map@[x]@.len()) == before[x]@.len() by {
                    assert(mid[x]@.len() == before[x]@.len());
                }
            }
            k += 1;
        }
        assert(centers@.subrange(0, centers@.len() as int) =~= centers@);
    }
}

} // verus!

verus! {

/// How influence falls off with distance from its source.
#[derive(Clone, Copy, Debug, PartialEq, Eq, Structural)]
pub enum Falloff {
    /// `max · (1 − d / reach)`, rounded down.
    Linear,
    /// `max` throughout.
    Flat,
    /// `max`, but only farther than the given inner distance (fixed point).
    Hollow(u64),
    /// `max` within the given inner distance (fixed point), then falling
    /// linearly to nothing at the reach.
    Fading(u64),
}

/// The influence a source adds at distance `d` (fixed point) when it
/// reaches `reach`: nothing at or beyond `reach`.
pub open spec fn falloff_amount(kind: Falloff, max: usize, reach: u64, d: int) -> int {
    if d >= reach {
        0
    } else {
        match kind {
            Falloff::Linear => max * (reach - d) / (reach as int),
            Falloff::Flat => max as int,
            Falloff::Hollow(inner) => if d > inner {
                max as int
            } else {
                0
            },
            Falloff::Fading(inner) => if d < inner {
                max as int
            } else {
                max * (reach - d) / (reach - inner)
            },
        }
    }
}

/// The side of the square scanned around a source: twice the reach in cells,
/// plus two, at most `2 · MAX_SIDE + 2` (which already covers any grid).
pub open spec fn scan_side(reach: u64) -> int {
    let d = 2 * reach / (MULT as int) + 2;
    if d > 2 * MAX_SIDE + 2 {
        2 * MAX_SIDE + 2
    } else {
        d
    }
}

pub open spec fn scan_rect(p: Cell, reach: u64, width: usize, height: usize) -> Rectangle {
    rect_spec(p, (scan_side(reach) as usize, scan_side(reach) as usize), width, height)
}

/// What the source at `p` adds to the cell `(x, y)`; sources outside the grid
/// add nothing.
pub open spec fn source_amount(
    kind: Falloff,
    max: usize,
    reach: u64,
    width: usize,
    height: usize,
    p: Cell,
    x: int,
    y: int,
) -> int {
    if p.0 < width && p.1 < height && scan_rect(p, reach, width, height).contains(x, y) {
        falloff_amount(kind, max, reach, octile_spec(p, (x as usize, y as usize)))
    } else {
        0
    }
}

/// What all of `ps` add to the cell `(x, y)`.
pub open spec fn total_amount(
    kind: Falloff,
    max: usize,
    reach: u64,
    width: usize,
    height: usize,
    ps: Seq<Cell>,
    x: int,
    y: int,
) -> int
    decreases ps.len(),
{
    if ps.len() == 0 {
        0
    } else {
        total_amount(kind, max, reach, width, height, ps.drop_last(), x, y) + source_amount(
            kind,
            max,
            reach,
            width,
            height,
            ps.last(),
            x,
            y,
        )
    }
}

/// Open cells gain `amount(x, y)`; blocked cells stay blocked.
pub open spec fn added_by(amount: spec_fn(int, int) -> int) -> spec_fn(int, int, usize) -> usize {
    |x: int, y: int, old: usize| if old > 0 {
        (old + amount(x, y)) as usize
    } else {
        old
    }
}

/// Every open cell of `before` stays below `MAX_CELL` after gaining
/// `amount`. Cell costs are bounded so that the fixed-point cost of any path
/// fits a `u64`.
pub open spec fn stays_below(before: Seq<Vec<usize>>, amount: spec_fn(int, int) -> int) -> bool {
    forall|x: int, y: int| in_grid(before, x, y) && before[x]@[y] > 0 ==> #[trigger] before[x]@[y] + amount(x, y) < MAX_CELL
}

/// `old + a`, capped at `MAX_CELL`.
pub open spec fn saturating_add(old: usize, a: int) -> usize {
    if old + a > MAX_CELL {
        MAX_CELL as usize
    } else {
        (old + a) as usize
    }
}

/// Open cells gain `amount(x, y)` (capped at `MAX_CELL`); blocked cells stay
/// blocked.
pub open spec fn raised_by(amount: spec_fn(int, int) -> int) -> spec_fn(int, int, usize) -> usize {
    |x: int, y: int, old: usize| if old > 0 {
        saturating_add(old, amount(x, y))
    } else {
        old
    }
}

/// The open cell `(x, y)` of `before` holds `MAX_CELL` in `after`.
pub open spec fn capped_at(before: Seq<Vec<usize>>, after: Seq<Vec<usize>>, x: int, y: int) -> bool {
    in_grid(before, x, y) && before[x]@[y] > 0 && after[x]@[y] == MAX_CELL
}

/// Whether some open cell of `before` holds `MAX_CELL` in `after`.
fn reaches_cap(before: &Vec<Vec<usize>>, after: &Vec<Vec<usize>>) -> (r: bool)
    requires
        after@.len() == before@.len(),
        forall|i: int| 0 <= i < before@.len() ==> (#[trigger] after@[i]@.len()) == before@[i]@.len(),
    ensures
        r <==> exists|x: int, y: int| #[trigger] capped_at(before@, after@, x, y),
{
    let mut x: usize = 0;
    while x < before.len()
        invariant
            after@.len() == before@.len(),
            forall|i: int| 0 <= i < before@.len() ==> (#[trigger] after@[i]@.len()) == before@[i]@.len(),
            x <= before@.len(),
            forall|i: int, j: int| #[trigger] capped_at(before@, after@, i, j) ==> i >= x,
        decreases before@.len() - x,
    {
        let mut y: usize = 0;
        while y < before[x].len()
            invariant
                after@.len() == before@.len(),
                forall|i: int| 0 <= i < before@.len() ==> (#[trigger] after@[i]@.len()) == before@[i]@.len(),
                x < before@.len(),
                y <= before@[x as int]@.len(),
                forall|i: int, j: int| #[trigger] capped_at(before@, after@, i, j) ==> i > x || (i == x && j >= y),
            decreases before@[x as int]@.len() - y,
        {
            assert(after@[x as int]@.len() == before@[x as int]@.len());
            if before[x][y] > 0 && after[x][y] == MAX_CELL {
                assert(capped_at(before@, after@, x as int, y as int));
                return true;
            }
            y += 1;
        }
        x += 1;
    }
    false
}

pub open spec fn spread_amount(
    kind: Falloff,
    max: usize,
    reach: u64,
    width: usize,
    height: usize,
    ps: Seq<Cell>,
) -> spec_fn(int, int) -> int {
    |x: int, y: int| total_amount(kind, max, reach, width, height, ps, x, y)
}

proof fn lemma_falloff_nonneg(kind: Falloff, max: usize, reach: u64, d: int)
    requires
        d >= 0,
    ensures
        0 <= falloff_amount(kind, max, reach, d) <= max,
{
    if d < reach {
        if kind is Linear {
            assert(0 <= max * (reach - d) / (reach as int) <= max) by (nonlinear_arith)
                requires
                    0 <= d < reach,
            ;
        }
        if let Falloff::Fading(inner) = kind {
            if d >= inner {
                assert(0 <= max * (reach - d) / (reach - inner) <= max) by (nonlinear_arith)
                    requires
                        inner <= d < reach,
                ;
            }
        }
    }
}

proof fn lemma_total_nonneg(
    kind: Falloff,
    max: usize,
    reach: u64,
    width: usize,
    height: usize,
    ps: Seq<Cell>,
    x: int,
    y: int,
)
    requires
        x >= 0,
        y >= 0,
    ensures
        total_amount(kind, max, reach, width, height, ps, x, y) >= 0,
    decreases ps.len(),
{
    if ps.len() > 0 {
        lemma_total_nonneg(kind, max, reach, width, height, ps.drop_last(), x, y);
        let p = ps.last();
        lemma_falloff_nonneg(kind, max, reach, octile_spec(p, (x as usize, y as usize)));
    }
}

impl PathFind {
    /// Adds the influence of one source to the open cells around it.
    fn raise_around(&mut self, p: Cell, max: usize, reach: u64, kind: Falloff)
        requires
            old(self).wf(),
            old(self).contains(p),
        ensures
            final(self).wf(),
            cells_follow(
                old(self).map@,
                final(self).map@,
                raised_by(
                    |x: int, y: int|
                        source_amount(kind, max, reach, old(self).width, old(self).height, p, x, y),
                ),
            ),
            final(self).original_map@ == old(self).original_map@,
            final(self).normal_influence == old(self).normal_influence,
            final(self).auto_correct == old(self).auto_correct,
    {
        let ghost before = self.map@;
        let ghost amount = |x: int, y: int|
            source_amount(kind, max, reach, self.width, self.height, p, x, y);
        let d128 = 2 * (reach as u128) / (MULT as u128) + 2;
        let side: usize = if d128 > 2 * (MAX_SIDE as u128) + 2 {
            2 * MAX_SIDE + 2
        } else {
            d128 as usize
        };
        let rect = Rectangle::init_from_center2(p, (side, side), self.width, self.height);
        assert(rect == scan_rect(p, reach, self.width, self.height));
        let mut x: usize = rect.x;
        while x < rect.x_end
            invariant
                self.wf(),
                self.original_map@ == old(self).original_map@,
                self.normal_influence == old(self).normal_influence,
                self.auto_correct == old(self).auto_correct,
                self.width == old(self).width,
                self.height == old(self).height,
                before == old(self).map@,
                grid_ok(before),
                old(self).contains(p),
                rect == scan_rect(p, reach, self.width, self.height),
                amount == (|x: int, y: int|
                    source_amount(kind, max, reach, self.width, self.height, p, x, y)),
                rect.x <= x,
                rect.x_end <= self.width,
                rect.y_end <= self.height,
                self.map@.len() == before.len(),
                forall|i: int| 0 <= i < before.len() ==> (#[trigger] self.map@[i]@.len()) == before[i]@.len(),
                forall|i: int, j: int|
                    in_grid(before, i, j) ==> (#[trigger] self.map@[i]@[j]) == if i < x {
                        (raised_by(amount))(i, j, before[i]@[j])
                    } else {
                        before[i]@[j]
                    },
            decreases rect.x_end - x,
        {
            let mut y: usize = rect.y;
            while y < rect.y_end
                invariant
                    self.wf(),
                    self.original_map@ == old(self).original_map@,
                    self.normal_influence == old(self).normal_influence,
                    self.auto_correct == old(self).auto_correct,
                    self.width == old(self).width,
                    self.height == old(self).height,
                    before == old(self).map@,
                    grid_ok(before),
                    old(self).contains(p),
                    rect == scan_rect(p, reach, self.width, self.height),
                    amount == (|x: int, y: int|
                        source_amount(kind, max, reach, self.width, self.height, p, x, y)),
                    rect.x <= x < rect.x_end,
                    rect.y <= y,
                    rect.x_end <= self.width,
                    rect.y_end <= self.height,
                    self.map@.len() == before.len(),
                    forall|i: int| 0 <= i < before.len() ==> (#[trigger] self.map@[i]@.len()) == before[i]@.len(),
                    forall|i: int, j: int|
                        in_grid(before, i, j) ==> (#[trigger] self.map@[i]@[j]) == if i < x || (i == x
                            && j < y) {
                            (raised_by(amount))(i, j, before[i]@[j])
                        } else {
                            before[i]@[j]
                        },
                decreases rect.y_end - y,
            {
                assert(self.map@[x as int]@.len() == self.height);
                let cur = self.map[x][y];
                if cur > 0 {
                    let d = octile_distance(p, (x, y)) as u64;
                    let add: usize = if d >= reach {
                        0
                    } else {
                        match kind {
                            Falloff::Linear => {
                                let a = max as u128;
                                let b = (reach - d) as u128;
                                assert(a * b <= 0xffff_ffff_ffff_ffff * 0xffff_ffff_ffff_ffff) by (nonlinear_arith)
                                    requires
                                        a <= 0xffff_ffff_ffff_ffff,
                                        b <= 0xffff_ffff_ffff_ffff,
                                ;
                                let prod = a * b;
                                let v = prod / (reach as u128);
                                assert(v <= max) by (nonlinear_arith)
                                    requires
                                        prod == max * (reach - d),
                                        v as int == prod as int / (reach as int),
                                        d < reach,
                                ;
                                v as usize
                            },
                            Falloff::Flat => max,
                            Falloff::Hollow(inner) => if d > inner {
                                max
                            } else {
                                0
                            },
                            Falloff::Fading(inner) => if d < inner {
                                max
                            } else {
                                let a = max as u128;
                                let b = (reach - d) as u128;
                                assert(a * b <= 0xffff_ffff_ffff_ffff * 0xffff_ffff_ffff_ffff) by (nonlinear_arith)
                                    requires
                                        a <= 0xffff_ffff_ffff_ffff,
                                        b <= 0xffff_ffff_ffff_ffff,
                                ;
                                let prod = a * b;
                                let v = prod / ((reach - inner) as u128);
                                assert(v <= max) by (nonlinear_arith)
                                    requires
                                        prod == max * (reach - d),
                                        v as int == prod as int / (reach - inner),
                                        inner <= d < reach,
                                ;
                                v as usize
                            },
                        }
                    };
                    assert(add == amount(x as int, y as int));
                    let next: usize = if (cur as u128) + (add as u128) > MAX_CELL as u128 {
                        MAX_CELL
                    } else {
                        cur + add
                    };
                    self.map[x][y] = next;
                }
                proof {
                    assert forall|i: int| 0 <= i < self.map@.len() implies (#[trigger] self.map@[i]@.len()) == self.map@[0]@.len() by {
                        assert(before[i]@.len() == before[0]@.len());
                    }
                    assert forall|i: int, j: int| 0 <= i < self.map@.len() && 0 <= j < self.map@[0]@.len() implies (#[trigger] self.map@[i]@[j]) <= MAX_CELL by {
                        assert(before[i]@.len() == before[0]@.len());
                        assert(in_grid(before, i, j));
                    }
                }
                y += 1;
            }
            proof {
                assert forall|i: int, j: int| in_grid(before, i, j) && i == x && j >= rect.y_end implies (#[trigger] self.map@[i]@[j]) == (raised_by(amount))(i, j, before[i]@[j]) by {}
            }
            x += 1;
        }
    }
}

} // verus!

verus! {

impl PathFind {
    pub(crate) fn spread_influence(&mut self, positions: &Vec<Cell>, max: usize, reach: u64, kind: Falloff)
        requires
            old(self).wf(),
        ensures
            final(self).wf(),
            cells_follow(
                old(self).map@,
                final(self).map@,
                raised_by(spread_amount(kind, max, reach, old(self).width, old(self).height, positions@)),
            ),
            final(self).original_map@ == old(self).original_map@,
            final(self).normal_influence == old(self).normal_influence,
            final(self).auto_correct == old(self).auto_correct,
    {
        let ghost before = self.map@;
        let mut k: usize = 0;
        while k < positions.len()
            invariant
                self.wf(),
                self.original_map@ == old(self).original_map@,
                self.normal_influence == old(self).normal_influence,
                self.auto_correct == old(self).auto_correct,
                self.width == old(self).width,
                self.height == old(self).height,
                before == old(self).map@,
                grid_ok(before),
                k <= positions@.len(),
                cells_follow(
                    before,
                    self.map@,
                    raised_by(spread_amount(kind, max, reach, self.width, self.height, positions@.subrange(0, k as int))),
                ),
            decreases positions@.len() - k,
        {
            let p = positions[k];
            let ghost mid = self.map@;
            if self.in_bounds(p) {
                self.raise_around(p, max, reach, kind);
            }
            proof {
                let prev = positions@.subrange(0, k as int);
                let next = positions@.subrange(0, k as int + 1);
                assert(next.drop_last() =~= prev);
                assert(next.last() == p);
                assert forall|x: int, y: int| in_grid(before, x, y) implies (#[trigger] self.map@[x]@[y]) == (raised_by(spread_amount(kind, max, reach, self.width, self.height, next)))(x, y, before[x]@[y]) by {
                    assert(in_grid(mid, x, y));
                    lemma_total_nonneg(kind, max, reach, self.width, self.height, prev, x, y);
                    lemma_falloff_nonneg(kind, max, reach, octile_spec(p, (x as usize, y as usize)));
                    assert(before[x]@.len() == before[0]@.len());
                    assert(before[x]@[y] <= MAX_CELL);
                }
                assert forall|x: int| 0 <= x < before.len() implies (#[trigger] self.map@[x]@.len()) == before[x]@.len() by {
                    assert(mid[x]@.len() == before[x]@.len());
                }
            }
            k += 1;
        }
        assert(positions@.subrange(0, positions@.len() as int) =~= positions@);
    }

    /// Adds the influence of sources around them (see `Falloff`): each open
    /// cell gains exactly what all sources give it. When some open cell would
    /// reach `MAX_CELL` the grid is left as it was and `CostTooHigh` returned.
    pub fn add_influence_with(&mut self, positions: &Vec<Cell>, max: usize, distance: u64, kind: Falloff) -> (r: Result<
        (),
        crate::pathfind::GridError,
    >)
        requires
            old(self).wf(),
        ensures
            final(self).wf(),
            r is Ok <==> stays_below(old(self).map@, spread_amount(kind, max, distance, old(self).width, old(self).height, positions@)),
            r is Ok ==> cells_follow(
                old(self).map@,
                final(self).map@,
                added_by(spread_amount(kind, max, distance, old(self).width, old(self).height, positions@)),
            ),
            r is Err ==> cells(final(self).map@) == cells(old(self).map@) && r == Err::<(), crate::pathfind::GridError>(
                crate::pathfind::GridError::CostTooHigh,
            ),
            final(self).original_map@ == old(self).original_map@,
            final(self).normal_influence == old(self).normal_influence,
            final(self).auto_correct == old(self).auto_correct,
            final(self).width == old(self).width,
            final(self).height == old(self).height,
    {
        let ghost before = self.map@;
        let saved = crate::pathfind::clone_grid(&self.map);
        proof {
            lemma_same_cells(saved@, before);
        }
        self.spread_influence(positions, max, distance, kind);
        let ghost amount = spread_amount(kind, max, distance, self.width, self.height, positions@);
        proof {
            assert forall|x: int, y: int| in_grid(before, x, y) implies #[trigger] amount(x, y) >= 0 by {
                lemma_total_nonneg(kind, max, distance, self.width, self.height, positions@, x, y);
            }
        }
        self.settle(saved, Ghost(before), Ghost(amount))
    }

    /// Adds influence falling off linearly with octile distance around each
    /// source: `max · (1 − d / distance)` (rounded down) at fixed-point
    /// distance `d < distance`, to open cells only. Sources outside the grid
    /// add nothing. Fails, changing nothing, when an open cell would reach
    /// `MAX_CELL`.
    pub fn add_influence(&mut self, positions: &Vec<Cell>, max: usize, distance: u64) -> (r: Result<
        (),
        crate::pathfind::GridError,
    >)
        requires
            old(self).wf(),
        ensures
            final(self).wf(),
            r is Ok <==> stays_below(old(self).map@, spread_amount(Falloff::Linear, max, distance, old(self).width, old(self).height, positions@)),
            r is Ok ==> cells_follow(
                old(self).map@,
                final(self).map@,
                added_by(spread_amount(Falloff::Linear, max, distance, old(self).width, old(self).height, positions@)),
            ),
            r is Err ==> cells(final(self).map@) == cells(old(self).map@),
            final(self).original_map@ == old(self).original_map@,
            final(self).normal_influence == old(self).normal_influence,
            final(self).auto_correct == old(self).auto_correct,
    {
        self.add_influence_with(positions, max, distance, Falloff::Linear)
    }

    /// Adds `max` to every open cell closer than `distance` (fixed-point
    /// octile distance) to a source. Sources outside the grid add nothing.
    /// Fails, changing nothing, when an open cell would reach `MAX_CELL`.
    pub fn add_influence_flat(&mut self, positions: &Vec<Cell>, max: usize, distance: u64) -> (r: Result<
        (),
        crate::pathfind::GridError,
    >)
        requires
            old(self).wf(),
        ensures
            final(self).wf(),
            r is Ok <==> stays_below(old(self).map@, spread_amount(Falloff::Flat, max, distance, old(self).width, old(self).height, positions@)),
            r is Ok ==> cells_follow(
                old(self).map@,
                final(self).map@,
                added_by(spread_amount(Falloff::Flat, max, distance, old(self).width, old(self).height, positions@)),
            ),
            r is Err ==> cells(final(self).map@) == cells(old(self).map@),
            final(self).original_map@ == old(self).original_map@,
            final(self).normal_influence == old(self).normal_influence,
            final(self).auto_correct == old(self).auto_correct,
    {
        self.add_influence_with(positions, max, distance, Falloff::Flat)
    }

    /// Keeps the costs just raised when no open cell reached `MAX_CELL`, else
    /// puts back `saved`.
    fn settle(&mut self, saved: Vec<Vec<usize>>, before: Ghost<Seq<Vec<usize>>>, amount: Ghost<spec_fn(int, int) -> int>) -> (r:
        Result<(), crate::pathfind::GridError>)
        requires
            old(self).wf(),
            grid_ok(before@),
            cells(saved@) == cells(before@),
            saved@.len() == before@.len(),
            forall|i: int| 0 <= i < before@.len() ==> (#[trigger] saved@[i])@ == before@[i]@,
            cells_follow(before@, old(self).map@, raised_by(amount@)),
            forall|x: int, y: int| in_grid(before@, x, y) ==> #[trigger] (amount@)(x, y) >= 0,
        ensures
            final(self).wf(),
            r is Ok <==> stays_below(before@, amount@),
            r is Ok ==> cells_follow(before@, final(self).map@, added_by(amount@)),
            r is Err ==> cells(final(self).map@) == cells(before@) && r == Err::<(), crate::pathfind::GridError>(
                crate::pathfind::GridError::CostTooHigh,
            ),
            final(self).original_map@ == old(self).original_map@,
            final(self).normal_influence == old(self).normal_influence,
            final(self).auto_correct == old(self).auto_correct,
            final(self).width == old(self).width,
            final(self).height == old(self).height,
    {
        let reached = reaches_cap(&saved, &self.map);
        if reached {
            proof {
                let (x, y) = choose|x: int, y: int| #[trigger] capped_at(saved@, self.map@, x, y);
                assert(in_grid(before@, x, y));
                assert(saved@[x]@ == before@[x]@);
                assert(before@[x]@[y] <= MAX_CELL) by {
                    assert(before@[x]@.len() == before@[0]@.len());
                }
                assert(self.map@[x]@[y] == (raised_by(amount@))(x, y, before@[x]@[y]));
                assert(self.map@[x]@[y] == saturating_add(before@[x]@[y], (amount@)(x, y)));
                assert((amount@)(x, y) >= 0);
                assert(!(before@[x]@[y] + (amount@)(x, y) < MAX_CELL));
            }
            self.map = saved;
            proof {
                lemma_same_cells(self.map@, before@);
                assert(before@.len() == self.width);
            }
            Err(crate::pathfind::GridError::CostTooHigh)
        } else {
            proof {
                assert forall|x: int, y: int| in_grid(before@, x, y) && before@[x]@[y] > 0 implies #[trigger] before@[x]@[y] + (amount@)(x, y) < MAX_CELL by {
                    assert(saved@[x]@ == before@[x]@);
                    assert(before@[x]@.len() == before@[0]@.len());
                    assert(before@[x]@[y] <= MAX_CELL);
                    assert(self.map@[x]@[y] == (raised_by(amount@))(x, y, before@[x]@[y]));
                    assert(self.map@[x]@[y] == saturating_add(before@[x]@[y], (amount@)(x, y)));
                    assert(!capped_at(saved@, self.map@, x, y));
                    assert((amount@)(x, y) >= 0);
                }
                assert forall|x: int, y: int| in_grid(before@, x, y) implies (#[trigger] self.map@[x]@[y]) == (added_by(amount@))(x, y, before@[x]@[y]) by {
                    assert(saved@[x]@ == before@[x]@);
                }
            }
            Ok(())
        }
    }
}

} // verus!

verus! {

/// What a walk-influence source adds at walk distance `d`: linear falloff
/// within `reach`, or `max` to everything the search found.
pub open spec fn walk_bonus(kind: Falloff, max: usize, reach: u64, d: u64) -> int {
    match kind {
        Falloff::Linear => falloff_amount(Falloff::Linear, max, reach, d as int),
        _ => max as int,
    }
}

/// The sum of the bonuses the entries of `list` give the cell `c`.
pub open spec fn listed_bonus(kind: Falloff, max: usize, reach: u64, list: Seq<(Cell, u64)>, c: Cell) -> int
    decreases list.len(),
{
    if list.len() == 0 {
        0
    } else {
        listed_bonus(kind, max, reach, list.drop_last(), c) + if list.last().0 == c {
            walk_bonus(kind, max, reach, list.last().1)
        } else {
            0
        }
    }
}

/// `c` is listed among the destinations `found`.
pub open spec fn listed(found: Set<(Cell, u64)>, c: Cell) -> bool {
    exists|e: (Cell, u64)| found.contains(e) && e.0 == c
}

pub open spec fn listed_cost(found: Set<(Cell, u64)>, c: Cell) -> u64 {
    (choose|e: (Cell, u64)| found.contains(e) && e.0 == c).1
}

/// What a walk-influence source at `s` with destinations `found` adds to the
/// cell `(x, y)`: `max` at `s`, the bonus for its walk distance elsewhere.
pub open spec fn source_walk_amount(
    kind: Falloff,
    max: usize,
    reach: u64,
    s: Cell,
    found: Set<(Cell, u64)>,
    x: int,
    y: int,
) -> int {
    let c = (x as usize, y as usize);
    if c == s {
        max as int
    } else if listed(found, c) {
        walk_bonus(kind, max, reach, listed_cost(found, c))
    } else {
        0
    }
}

/// The cells a walk from `s` reaches within `reach`, with their walk distances.
pub open spec fn walk_found(g: Seq<Vec<usize>>, s: Cell, reach: u64) -> Set<(Cell, u64)> {
    dijkstra_found(Movement::Normal, cells(g), s, 1, Some(reach)).map(|e: Reached| (e.0, e.2))
}

/// Where the walk influence of a source at `p` starts: `p` itself for the
/// linear kind, the nearest open cell for the flat kind.
pub open spec fn walk_origin(kind: Falloff, g: Seq<Vec<usize>>, auto_correct: bool, p: Cell) -> Cell {
    match kind {
        Falloff::Linear => p,
        _ => closest_spec(g, auto_correct, p),
    }
}

/// What the walk-influence source at `p` adds to `(x, y)`; sources outside
/// the grid or starting on a blocked cell add nothing.
pub open spec fn walk_source(
    kind: Falloff,
    g: Seq<Vec<usize>>,
    auto_correct: bool,
    max: usize,
    reach: u64,
    p: Cell,
    x: int,
    y: int,
) -> int {
    let s = walk_origin(kind, g, auto_correct, p);
    if cell_in(g, p) && g[s.0 as int]@[s.1 as int] > 0 {
        source_walk_amount(kind, max, reach, s, walk_found(g, s, reach), x, y)
    } else {
        0
    }
}

pub open spec fn walk_total(
    kind: Falloff,
    g: Seq<Vec<usize>>,
    auto_correct: bool,
    max: usize,
    reach: u64,
    ps: Seq<Cell>,
    x: int,
    y: int,
) -> int
    decreases ps.len(),
{
    if ps.len() == 0 {
        0
    } else {
        walk_total(kind, g, auto_correct, max, reach, ps.drop_last(), x, y) + walk_source(
            kind,
            g,
            auto_correct,
            max,
            reach,
            ps.last(),
            x,
            y,
        )
    }
}

pub open spec fn walk_amount(
    kind: Falloff,
    g: Seq<Vec<usize>>,
    auto_correct: bool,
    max: usize,
    reach: u64,
    ps: Seq<Cell>,
) -> spec_fn(int, int) -> int {
    |x: int, y: int| walk_total(kind, g, auto_correct, max, reach, ps, x, y)
}

proof fn lemma_walk_bonus_nonneg(kind: Falloff, max: usize, reach: u64, d: u64)
    ensures
        0 <= walk_bonus(kind, max, reach, d) <= max,
{
    lemma_falloff_nonneg(kind, max, reach, d as int);
    lemma_falloff_nonneg(Falloff::Linear, max, reach, d as int);
}

proof fn lemma_walk_total_nonneg(
    kind: Falloff,
    g: Seq<Vec<usize>>,
    auto_correct: bool,
    max: usize,
    reach: u64,
    ps: Seq<Cell>,
    x: int,
    y: int,
)
    ensures
        walk_total(kind, g, auto_correct, max, reach, ps, x, y) >= 0,
    decreases ps.len(),
{
    if ps.len() > 0 {
        lemma_walk_total_nonneg(kind, g, auto_correct, max, reach, ps.drop_last(), x, y);
        let s = walk_origin(kind, g, auto_correct, ps.last());
        let found = walk_found(g, s, reach);
        let c = (x as usize, y as usize);
        if listed(found, c) {
            lemma_walk_bonus_nonneg(kind, max, reach, listed_cost(found, c));
        }
    }
}

proof fn lemma_listed_bonus_one(kind: Falloff, max: usize, reach: u64, list: Seq<(Cell, u64)>, i: int)
    requires
        0 <= i < list.len(),
        forall|a: int, b: int| 0 <= a < b < list.len() ==> list[a].0 != list[b].0,
    ensures
        listed_bonus(kind, max, reach, list, list[i].0) == walk_bonus(kind, max, reach, list[i].1),
    decreases list.len(),
{
    let c = list[i].0;
    if i == list.len() - 1 {
        lemma_listed_bonus_none(kind, max, reach, list.drop_last(), c);
    } else {
        lemma_listed_bonus_one(kind, max, reach, list.drop_last(), i);
    }
}

proof fn lemma_listed_bonus_none(kind: Falloff, max: usize, reach: u64, list: Seq<(Cell, u64)>, c: Cell)
    requires
        forall|a: int| 0 <= a < list.len() ==> (#[trigger] list[a]).0 != c,
    ensures
        listed_bonus(kind, max, reach, list, c) == 0,
    decreases list.len(),
{
    if list.len() > 0 {
        lemma_listed_bonus_none(kind, max, reach, list.drop_last(), c);
    }
}

proof fn lemma_listed_bonus_nonneg(kind: Falloff, max: usize, reach: u64, list: Seq<(Cell, u64)>, c: Cell)
    ensures
        listed_bonus(kind, max, reach, list, c) >= 0,
    decreases list.len(),
{
    if list.len() > 0 {
        lemma_listed_bonus_nonneg(kind, max, reach, list.drop_last(), c);
        lemma_walk_bonus_nonneg(kind, max, reach, list.last().1);
    }
}

impl PathFind {
    /// Adds `max` at `s` and the walk bonus at each destination of `list`
    /// (the cells a walk from `s` found, with their walk distances).
    pub fn raise_listed(&mut self, s: Cell, list: &Vec<(Cell, u64)>, max: usize, reach: u64, kind: Falloff)
        requires
            old(self).wf(),
            old(self).contains(s),
            forall|i: int| 0 <= i < list@.len() ==> old(self).contains((#[trigger] list@[i]).0) && list@[i].0 != s,
            forall|a: int, b: int| 0 <= a < b < list@.len() ==> list@[a].0 != list@[b].0,
        ensures
            final(self).wf(),
            cells_follow(
                old(self).map@,
                final(self).map@,
                raised_by(|x: int, y: int| source_walk_amount(kind, max, reach, s, list@.to_set(), x, y)),
            ),
            final(self).original_map@ == old(self).original_map@,
            final(self).normal_influence == old(self).normal_influence,
            final(self).auto_correct == old(self).auto_correct,
    {
        let ghost before = self.map@;
        let ghost amount = |x: int, y: int|
            (if (x as usize, y as usize) == s {
                max as int
            } else {
                0
            }) + listed_bonus(kind, max, reach, list@, (x as usize, y as usize));
        assert(self.map@[s.0 as int]@.len() == self.height);
        let cur = self.map[s.0][s.1];
        if cur > 0 {
            self.map[s.0][s.1] = if (cur as u128) + (max as u128) > MAX_CELL as u128 {
                MAX_CELL
            } else {
                cur + max
            };
        }
        let mut j: usize = 0;
        while j < list.len()
            invariant
                self.wf(),
                self.original_map@ == old(self).original_map@,
                self.normal_influence == old(self).normal_influence,
                self.auto_correct == old(self).auto_correct,
                self.width == old(self).width,
                self.height == old(self).height,
                before == old(self).map@,
                grid_ok(before),
                cell_in(before, s),
                j <= list@.len(),
                forall|i: int| 0 <= i < list@.len() ==> cell_in(before, (#[trigger] list@[i]).0) && list@[i].0 != s,
                forall|a: int, b: int| 0 <= a < b < list@.len() ==> list@[a].0 != list@[b].0,
                self.map@.len() == before.len(),
                forall|i: int| 0 <= i < before.len() ==> (#[trigger] self.map@[i]@.len()) == before[i]@.len(),
                forall|x: int, y: int|
                    in_grid(before, x, y) ==> (#[trigger] self.map@[x]@[y]) == (raised_by(
                        |x: int, y: int|
                            (if (x as usize, y as usize) == s {
                                max as int
                            } else {
                                0
                            }) + listed_bonus(kind, max, reach, list@.subrange(0, j as int), (x as usize, y as usize)),
                    ))(x, y, before[x]@[y]),
            decreases list@.len() - j,
        {
            let (c, d) = list[j];
            assert(cell_in(before, c));
            assert(self.map@[c.0 as int]@.len() == self.height);
            let ghost mid = self.map@;
            let cur = self.map[c.0][c.1];
            if cur > 0 {
                let add: usize = match kind {
                    Falloff::Linear => if d >= reach {
                        0
                    } else {
                        let a = max as u128;
                        let b = (reach - d) as u128;
                        assert(a * b <= 0xffff_ffff_ffff_ffff * 0xffff_ffff_ffff_ffff) by (nonlinear_arith)
                            requires
                                a <= 0xffff_ffff_ffff_ffff,
                                b <= 0xffff_ffff_ffff_ffff,
                        ;
                        let prod = a * b;
                        let v = prod / (reach as u128);
                        assert(v <= max) by (nonlinear_arith)
                            requires
                                prod == max * (reach - d),
                                v as int == prod as int / (reach as int),
                                d < reach,
                        ;
                        v as usize
                    },
                    _ => max,
                };
                assert(add == walk_bonus(kind, max, reach, d));
                self.map[c.0][c.1] = if (cur as u128) + (add as u128) > MAX_CELL as u128 {
                    MAX_CELL
                } else {
                    cur + add
                };
            }
            proof {
                let prev = list@.subrange(0, j as int);
                let next = list@.subrange(0, j as int + 1);
                assert(next.drop_last() =~= prev);
                assert(next.last() == (c, d));
                assert forall|i: int| 0 <= i < prev.len() implies (#[trigger] prev[i]).0 != c by {
                    assert(prev[i] == list@[i]);
                }
                lemma_listed_bonus_none(kind, max, reach, prev, c);
                assert forall|x: int, y: int| in_grid(before, x, y) implies (#[trigger] self.map@[x]@[y]) == (raised_by(
                    |x: int, y: int|
                        (if (x as usize, y as usize) == s {
                            max as int
                        } else {
                            0
                        }) + listed_bonus(kind, max, reach, next, (x as usize, y as usize)),
                ))(x, y, before[x]@[y]) by {
                    assert(in_grid(mid, x, y));
                    assert(before[x]@.len() == before[0]@.len());
                    assert(before[x]@[y] <= MAX_CELL);
                    lemma_listed_bonus_nonneg(kind, max, reach, prev, (x as usize, y as usize));
                    lemma_walk_bonus_nonneg(kind, max, reach, d);
                }
                assert forall|i: int| 0 <= i < self.map@.len() implies (#[trigger] self.map@[i]@.len()) == self.map@[0]@.len() by {
                    assert(before[i]@.len() == before[0]@.len());
                }
                assert forall|i: int, k: int| 0 <= i < self.map@.len() && 0 <= k < self.map@[0]@.len() implies (#[trigger] self.map@[i]@[k]) <= MAX_CELL by {
                    assert(before[i]@.len() == before[0]@.len());
                    assert(in_grid(before, i, k));
                }
            }
            j += 1;
        }
        proof {
            assert(list@.subrange(0, list@.len() as int) =~= list@);
            let set = list@.to_set();
            assert forall|x: int, y: int| in_grid(before, x, y) implies (#[trigger] self.map@[x]@[y]) == (raised_by(
                |x: int, y: int| source_walk_amount(kind, max, reach, s, set, x, y),
            ))(x, y, before[x]@[y]) by {
                let c = (x as usize, y as usize);
                if listed(set, c) {
                    let e = choose|e: (Cell, u64)| set.contains(e) && e.0 == c;
                    let i = choose|i: int| 0 <= i < list@.len() && list@[i] == e;
                    lemma_listed_bonus_one(kind, max, reach, list@, i);
                } else {
                    assert forall|a: int| 0 <= a < list@.len() implies (#[trigger] list@[a]).0 != c by {
                        assert(set.contains(list@[a]));
                    }
                    lemma_listed_bonus_none(kind, max, reach, list@, c);
                }
            }
        }
    }
}

} // verus!

verus! {

/// A planned walk-influence source: whether it adds anything, where its walk
/// starts, and what that walk reaches.
pub type WalkPlan = (bool, Cell, Vec<(Cell, u64)>);

pub open spec fn plan_ok(
    kind: Falloff,
    g: Seq<Vec<usize>>,
    auto_correct: bool,
    reach: u64,
    p: Cell,
    plan: WalkPlan,
) -> bool {
    let s = walk_origin(kind, g, auto_correct, p);
    &&& plan.0 == (cell_in(g, p) && g[s.0 as int]@[s.1 as int] > 0)
    &&& plan.0 ==> {
        &&& plan.1 == s
        &&& cell_in(g, s)
        &&& plan.2@.to_set() == walk_found(g, s, reach)
        &&& forall|i: int| 0 <= i < plan.2@.len() ==> cell_in(g, (#[trigger] plan.2@[i]).0) && plan.2@[i].0 != s
        &&& forall|a: int, b: int| 0 <= a < b < plan.2@.len() ==> plan.2@[a].0 != plan.2@[b].0
    }
}

impl PathFind {
    fn plan_walk(&self, p: Cell, reach: u64, kind: Falloff) -> (r: WalkPlan)
        requires
            self.wf(),
        ensures
            plan_ok(kind, self.map@, self.auto_correct, reach, p, r),
    {
        if !self.in_bounds(p) {
            return (false, p, Vec::new());
        }
        let s = match kind {
            Falloff::Linear => p,
            _ => self.get_closest_pathable(p),
        };
        assert(self.map@[s.0 as int]@.len() == self.height);
        if self.map[s.0][s.1] == 0 {
            return (false, s, Vec::new());
        }
        let list = self.reach_from(Movement::Normal, s, Some(reach));
        (true, s, list)
    }

    fn spread_walk(&mut self, positions: &Vec<Cell>, max: usize, reach: u64, kind: Falloff)
        requires
            old(self).wf(),
        ensures
            final(self).wf(),
            cells_follow(
                old(self).map@,
                final(self).map@,
                raised_by(walk_amount(kind, old(self).map@, old(self).auto_correct, max, reach, positions@)),
            ),
            final(self).original_map@ == old(self).original_map@,
            final(self).normal_influence == old(self).normal_influence,
            final(self).auto_correct == old(self).auto_correct,
    {
        let ghost before = self.map@;
        let mut plans: Vec<WalkPlan> = Vec::new();
        let mut k: usize = 0;
        while k < positions.len()
            invariant
                self.wf(),
                self.map@ == before,
                k <= positions@.len(),
                plans@.len() == k,
                forall|i: int| 0 <= i < k ==> plan_ok(kind, before, self.auto_correct, reach, positions@[i], #[trigger] plans@[i]),
            decreases positions@.len() - k,
        {
            let plan = self.plan_walk(positions[k], reach, kind);
            plans.push(plan);
            k += 1;
        }
        let mut k: usize = 0;
        while k < positions.len()
            invariant
                self.wf(),
                self.original_map@ == old(self).original_map@,
                self.normal_influence == old(self).normal_influence,
                self.auto_correct == old(self).auto_correct,
                self.width == old(self).width,
                self.height == old(self).height,
                before == old(self).map@,
                grid_ok(before),
                k <= positions@.len(),
                plans@.len() == positions@.len(),
                forall|i: int| 0 <= i < positions@.len() ==> plan_ok(kind, before, self.auto_correct, reach, positions@[i], #[trigger] plans@[i]),
                cells_follow(
                    before,
                    self.map@,
                    raised_by(walk_amount(kind, before, self.auto_correct, max, reach, positions@.subrange(0, k as int))),
                ),
            decreases positions@.len() - k,
        {
            let ghost mid = self.map@;
            let plan = &plans[k];
            assert(plan_ok(kind, before, self.auto_correct, reach, positions@[k as int], *plan));
            if plan.0 {
                proof {
                    assert(cell_in(before, plan.1));
                    assert(before[plan.1.0 as int]@.len() == self.height);
                    assert(forall|i: int| 0 <= i < plan.2@.len() ==> cell_in(before, (#[trigger] plan.2@[i]).0));
                    assert forall|i: int| 0 <= i < plan.2@.len() implies self.contains((#[trigger] plan.2@[i]).0) by {
                        assert(cell_in(before, plan.2@[i].0));
                        assert(before[plan.2@[i].0.0 as int]@.len() == self.height);
                    }
                }
                self.raise_listed(plan.1, &plan.2, max, reach, kind);
            }
            proof {
                let p = positions@[k as int];
                let prev = positions@.subrange(0, k as int);
                let next = positions@.subrange(0, k as int + 1);
                assert(next.drop_last() =~= prev);
                assert(next.last() == p);
                assert forall|x: int, y: int| in_grid(before, x, y) implies (#[trigger] self.map@[x]@[y]) == (raised_by(walk_amount(kind, before, self.auto_correct, max, reach, next)))(x, y, before[x]@[y]) by {
                    assert(in_grid(mid, x, y));
                    lemma_walk_total_nonneg(kind, before, self.auto_correct, max, reach, prev, x, y);
                    lemma_walk_total_nonneg(kind, before, self.auto_correct, max, reach, next, x, y);
                    assert(before[x]@.len() == before[0]@.len());
                    assert(before[x]@[y] <= MAX_CELL);
                }
                assert forall|x: int| 0 <= x < before.len() implies (#[trigger] self.map@[x]@.len()) == before[x]@.len() by {
                    assert(mid[x]@.len() == before[x]@.len());
                }
            }
            k += 1;
        }
        assert(positions@.subrange(0, positions@.len() as int) =~= positions@);
    }

    /// Adds influence falling off linearly with walk distance: `max` at each
    /// open source cell, and `max · (1 − d / distance)` (rounded down) at each
    /// cell a bounded Dijkstra search from the source found at walk distance
    /// `d < distance`. Open cells only; sources outside the grid or on blocked
    /// cells add nothing. Fails, changing nothing, when an open cell would
    /// reach `MAX_CELL`.
    pub fn add_walk_influence(&mut self, positions: &Vec<Cell>, max: usize, distance: u64) -> (r: Result<(), crate::pathfind::GridError>)
        requires
            old(self).wf(),
        ensures
            final(self).wf(),
            r is Ok <==> stays_below(
                old(self).map@,
                walk_amount(Falloff::Linear, old(self).map@, old(self).auto_correct, max, distance, positions@),
            ),
            r is Ok ==> cells_follow(
                old(self).map@,
                final(self).map@,
                added_by(walk_amount(Falloff::Linear, old(self).map@, old(self).auto_correct, max, distance, positions@)),
            ),
            r is Err ==> cells(final(self).map@) == cells(old(self).map@),
            final(self).original_map@ == old(self).original_map@,
            final(self).normal_influence == old(self).normal_influence,
            final(self).auto_correct == old(self).auto_correct,
            final(self).width == old(self).width,
            final(self).height == old(self).height,
    {
        let ghost before = self.map@;
        let ghost auto = self.auto_correct;
        let saved = crate::pathfind::clone_grid(&self.map);
        proof {
            lemma_same_cells(saved@, before);
        }
        self.spread_walk(positions, max, distance, Falloff::Linear);
        let ghost amount = walk_amount(Falloff::Linear, before, auto, max, distance, positions@);
        proof {
            assert forall|x: int, y: int| in_grid(before, x, y) implies #[trigger] amount(x, y) >= 0 by {
                lemma_walk_total_nonneg(Falloff::Linear, before, auto, max, distance, positions@, x, y);
            }
        }
        self.settle(saved, Ghost(before), Ghost(amount))
    }

    /// Adds `max` at the nearest open cell to each source and at every cell a
    /// bounded Dijkstra search from there found. Fails, changing nothing, when
    /// an open cell would reach `MAX_CELL`.
    pub fn add_walk_influence_flat(&mut self, positions: &Vec<Cell>, max: usize, distance: u64) -> (r: Result<(), crate::pathfind::GridError>)
        requires
            old(self).wf(),
        ensures
            final(self).wf(),
            r is Ok <==> stays_below(
                old(self).map@,
                walk_amount(Falloff::Flat, old(self).map@, old(self).auto_correct, max, distance, positions@),
            ),
            r is Ok ==> cells_follow(
                old(self).map@,
                final(self).map@,
                added_by(walk_amount(Falloff::Flat, old(self).map@, old(self).auto_correct, max, distance, positions@)),
            ),
            r is Err ==> cells(final(self).map@) == cells(old(self).map@),
            final(self).original_map@ == old(self).original_map@,
            final(self).normal_influence == old(self).normal_influence,
            final(self).auto_correct == old(self).auto_correct,
            final(self).width == old(self).width,
            final(self).height == old(self).height,
    {
        let ghost before = self.map@;
        let ghost auto = self.auto_correct;
        let saved = crate::pathfind::clone_grid(&self.map);
        proof {
            lemma_same_cells(saved@, before);
        }
        self.spread_walk(positions, max, distance, Falloff::Flat);
        let ghost amount = walk_amount(Falloff::Flat, before, auto, max, distance, positions@);
        proof {
            assert forall|x: int, y: int| in_grid(before, x, y) implies #[trigger] amount(x, y) >= 0 by {
                lemma_walk_total_nonneg(Falloff::Flat, before, auto, max, distance, positions@, x, y);
            }
        }
        self.settle(saved, Ghost(before), Ghost(amount))
    }
}

} // verus!

verus! {

pub open spec fn column_sum(c: Seq<usize>) -> int
    decreases c.len(),
{
    if c.len() == 0 {
        0
    } else {
        column_sum(c.drop_last()) + c.last()
    }
}

/// The sum of all cells of a grid.
pub open spec fn grid_sum(g: Seq<Vec<usize>>) -> int
    decreases g.len(),
{
    if g.len() == 0 {
        0
    } else {
        grid_sum(g.drop_last()) + column_sum(g.last()@)
    }
}

proof fn lemma_column_sum_positive(c: Seq<usize>)
    ensures
        column_sum(c) == column_positive_sum(c),
        0 <= column_sum(c),
    decreases c.len(),
{
    if c.len() > 0 {
        lemma_column_sum_positive(c.drop_last());
    }
}

proof fn lemma_grid_sum_positive(g: Seq<Vec<usize>>)
    ensures
        grid_sum(g) == positive_sum(g),
    decreases g.len(),
{
    if g.len() > 0 {
        lemma_grid_sum_positive(g.drop_last());
        lemma_column_sum_positive(g.last()@);
    }
}

impl PathFind {
    /// Normalises the influence to `value` and returns the sum of all cells,
    /// which is `value` times the number of cells that were open.
    pub fn test_normalize_influence(&mut self, value: usize) -> (r: u64)
        requires
            old(self).wf(),
            value <= MAX_CELL,
        ensures
            final(self).wf(),
            normalized(old(self).map@, final(self).map@, value),
            final(self).original_map@ == old(self).original_map@,
            r == grid_sum(final(self).map@),
            r == value * positive_count(old(self).map@),
    {
        let ghost before = self.map@;
        self.normalize_influence(value);
        proof {
            lemma_normalize_sum(before, self.map@, value);
            lemma_grid_sum_positive(self.map@);
        }
        let mut total: u64 = 0;
        let mut x: usize = 0;
        while x < self.map.len()
            invariant
                self.wf(),
                x <= self.map@.len(),
                total == grid_sum(self.map@.subrange(0, x as int)),
                total <= x * 4294967296,
            decreases self.map@.len() - x,
        {
            let row = &self.map[x];
            assert(row@.len() == self.height);
            let mut col: u64 = 0;
            let mut y: usize = 0;
            while y < row.len()
                invariant
                    self.wf(),
                    x < self.map@.len(),
                    *row == self.map@[x as int],
                    row@.len() == self.height,
                    y <= row@.len(),
                    col == column_sum(row@.subrange(0, y as int)),
                    col <= y * MAX_CELL,
                decreases row@.len() - y,
            {
                proof {
                    assert(row@.subrange(0, y as int + 1).drop_last() =~= row@.subrange(0, y as int));
                    assert(self.map@[x as int]@[y as int] <= MAX_CELL);
                }
                col = col + row[y] as u64;
                y += 1;
            }
            proof {
                assert(row@.subrange(0, row@.len() as int) =~= row@);
                assert(self.map@.subrange(0, x as int + 1).drop_last() =~= self.map@.subrange(0, x as int));
                assert(col <= 4294967296) by (nonlinear_arith)
                    requires
                        col <= y * MAX_CELL,
                        y <= MAX_SIDE,
                ;
            }
            total = total + col;
            x += 1;
        }
        assert(self.map@.subrange(0, self.map@.len() as int) =~= self.map@);
        total
    }

    /// Same as `create_blocks`.
    pub fn create_blocks_rust(&mut self, centers: &Vec<Cell>, size: (usize, usize))
        requires
            old(self).wf(),
        ensures
            final(self).wf(),
            cells_follow(
                old(self).map@,
                final(self).map@,
                blocks_value(centers@, size, old(self).width, old(self).height, 0),
            ),
            final(self).original_map@ == old(self).original_map@,
    {
        self.create_blocks(centers, size);
    }

    /// Same as `remove_blocks`.
    pub fn remove_blocks_rust(&mut self, centers: &Vec<Cell>, size: (usize, usize))
        requires
            old(self).wf(),
        ensures
            final(self).wf(),
            cells_follow(
                old(self).map@,
                final(self).map@,
                blocks_value(centers@, size, old(self).width, old(self).height, old(self).normal_influence),
            ),
            final(self).original_map@ == old(self).original_map@,
    {
        self.remove_blocks(centers, size);
    }
}

} // verus!

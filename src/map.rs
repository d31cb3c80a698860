//! The terrain map: classifies raw walkability, placement and height grids
//! into cell features, derives the ground, air, colossus and reaper cost
//! grids, and finds climbable cliffs, chokes and overlord spots.
use vstd::prelude::*;

use crate::chokes::{group_chokes, lines_inside, small, solve_chokes, Choke, FixedPoint, Line};
use crate::climb::{climbed, climb_case, modify_climb, DIFFERENCE};
use crate::grid::{Cell, MULT};
use crate::map_point::{point_in, points_ok, pt, same_shape, Cliff, MapPoint};
use crate::movement::{grid_ok, MAX_CELL, MAX_SIDE};
use crate::pathfind::{clone_grid, PathFind};

verus! {

/// Why a map cannot be built.
#[derive(Clone, Copy, Debug, PartialEq, Eq, Structural)]
pub enum MapError {
    /// An input grid is empty, ragged or larger than `MAX_SIDE`.
    BadGrid,
    /// The three input grids differ in shape.
    ShapeMismatch,
    /// The playable area does not leave a one-cell frame inside the grid.
    BadArea,
}

/// A rectangular grid, indexed `[x][y]`, within the size limit.
pub open spec fn shaped(g: Seq<Vec<usize>>) -> bool {
    &&& 0 < g.len() <= MAX_SIDE
    &&& 0 < g[0]@.len() <= MAX_SIDE
    &&& forall|x: int| 0 <= x < g.len() ==> (#[trigger] g[x]@.len()) == g[0]@.len()
}

pub open spec fn same_dims(a: Seq<Vec<usize>>, b: Seq<Vec<usize>>) -> bool {
    a.len() == b.len() && a[0]@.len() == b[0]@.len()
}

fn is_shaped(g: &Vec<Vec<usize>>) -> (r: bool)
    ensures
        r == shaped(g@),
{
    if g.len() == 0 || g.len() > MAX_SIDE || g[0].len() == 0 || g[0].len() > MAX_SIDE {
        return false;
    }
    let h = g[0].len();
    let mut x: usize = 0;
    while x < g.len()
        invariant
            x <= g@.len(),
            h == g@[0]@.len(),
            forall|i: int| 0 <= i < x ==> (#[trigger] g@[i]@.len()) == h,
        decreases g@.len() - x,
    {
        if g[x].len() != h {
            assert(g@[x as int]@.len() != g@[0]@.len());
            return false;
        }
        x += 1;
    }
    true
}

/// The playable area leaves a frame of at least one cell on every side.
pub open spec fn area_ok(w: int, h: int, x_start: int, y_start: int, x_end: int, y_end: int) -> bool {
    1 <= x_start && 1 <= y_start && x_end < w && y_end < h
}

pub open spec fn cell_value(b: bool) -> usize {
    if b {
        1
    } else {
        0
    }
}

/// What the first pass reads off the inputs for one cell.
pub open spec fn classified(
    p: MapPoint,
    pathing: Seq<Vec<usize>>,
    placement: Seq<Vec<usize>>,
    height_map: Seq<Vec<usize>>,
    x_start: int,
    y_start: int,
    x_end: int,
    y_end: int,
    x: int,
    y: int,
) -> bool {
    &&& p.walkable == (pathing[x]@[y] > 0 || placement[x]@[y] > 0)
    &&& p.pathable == (x_start <= x <= x_end && y_start <= y <= y_end)
    &&& p.height == height_map[x]@[y]
}

/// A cell as the first pass leaves it: classified, with no features yet.
pub open spec fn fresh(
    p: MapPoint,
    pathing: Seq<Vec<usize>>,
    placement: Seq<Vec<usize>>,
    height_map: Seq<Vec<usize>>,
    x_start: int,
    y_start: int,
    x_end: int,
    y_end: int,
    x: int,
    y: int,
) -> bool {
    &&& classified(p, pathing, placement, height_map, x_start, y_start, x_end, y_end, x, y)
    &&& p == (MapPoint { walkable: p.walkable, pathable: p.pathable, height: p.height, ..MapPoint::blank() })
}

/// The outer frame of the playable area, on which border walks may also run.
pub open spec fn on_frame(x_start: int, y_start: int, x_end: int, y_end: int, x: int, y: int) -> bool {
    x == x_start - 1 || x == x_end || y == y_start - 1 || y == y_end
}

/// The grids of the first pass: walkable cells, playable cells, and the
/// frame of the playable area.
pub struct Classes {
    pub points: Vec<Vec<MapPoint>>,
    pub walk: Vec<Vec<usize>>,
    pub fly: Vec<Vec<usize>>,
    pub frame: Vec<Vec<usize>>,
}

pub open spec fn grid_cells(g: Seq<Vec<usize>>, w: int, h: int, f: spec_fn(int, int) -> usize) -> bool {
    &&& g.len() == w
    &&& forall|x: int| 0 <= x < w ==> (#[trigger] g[x]@.len()) == h
    &&& forall|x: int, y: int| 0 <= x < w && 0 <= y < h ==> (#[trigger] g[x]@[y]) == f(x, y)
}

/// The first pass: reads walkability, playability and height of each cell.
fn classify(
    pathing: &Vec<Vec<usize>>,
    placement: &Vec<Vec<usize>>,
    height_map: &Vec<Vec<usize>>,
    x_start: usize,
    y_start: usize,
    x_end: usize,
    y_end: usize,
) -> (r: Classes)
    requires
        shaped(pathing@),
        shaped(placement@),
        shaped(height_map@),
        same_dims(pathing@, placement@),
        same_dims(pathing@, height_map@),
        area_ok(pathing@.len() as int, pathing@[0]@.len() as int, x_start as int, y_start as int, x_end as int, y_end as int),
    ensures
        ({
            let w = pathing@.len() as int;
            let h = pathing@[0]@.len() as int;
            &&& r.points@.len() == w
            &&& forall|x: int| 0 <= x < w ==> (#[trigger] r.points@[x]@.len()) == h
            &&& forall|x: int, y: int|
                0 <= x < w && 0 <= y < h ==> fresh(
                    #[trigger] r.points@[x]@[y],
                    pathing@,
                    placement@,
                    height_map@,
                    x_start as int,
                    y_start as int,
                    x_end as int,
                    y_end as int,
                    x,
                    y,
                )
            &&& grid_cells(r.walk@, w, h, |x: int, y: int| cell_value(r.points@[x]@[y].walkable))
            &&& grid_cells(r.fly@, w, h, |x: int, y: int| cell_value(r.points@[x]@[y].pathable))
            &&& grid_cells(
                r.frame@,
                w,
                h,
                |x: int, y: int| cell_value(on_frame(x_start as int, y_start as int, x_end as int, y_end as int, x, y)),
            )
        }),
{
    let w = pathing.len();
    let h = pathing[0].len();
    let mut points: Vec<Vec<MapPoint>> = Vec::new();
    let mut walk: Vec<Vec<usize>> = Vec::new();
    let mut fly: Vec<Vec<usize>> = Vec::new();
    let mut frame: Vec<Vec<usize>> = Vec::new();
    let mut x: usize = 0;
    while x < w
        invariant
            w == pathing@.len(),
            h == pathing@[0]@.len(),
            shaped(pathing@),
            shaped(placement@),
            shaped(height_map@),
            same_dims(pathing@, placement@),
            same_dims(pathing@, height_map@),
            area_ok(w as int, h as int, x_start as int, y_start as int, x_end as int, y_end as int),
            x <= w,
            points@.len() == x,
            walk@.len() == x,
            fly@.len() == x,
            frame@.len() == x,
            forall|i: int| 0 <= i < x ==> (#[trigger] points@[i]@.len()) == h,
            forall|i: int| 0 <= i < x ==> (#[trigger] walk@[i]@.len()) == h,
            forall|i: int| 0 <= i < x ==> (#[trigger] fly@[i]@.len()) == h,
            forall|i: int| 0 <= i < x ==> (#[trigger] frame@[i]@.len()) == h,
            forall|i: int, j: int|
                0 <= i < x && 0 <= j < h ==> fresh(
                    #[trigger] points@[i]@[j],
                    pathing@,
                    placement@,
                    height_map@,
                    x_start as int,
                    y_start as int,
                    x_end as int,
                    y_end as int,
                    i,
                    j,
                ),
            forall|i: int, j: int| 0 <= i < x && 0 <= j < h ==> (#[trigger] walk@[i]@[j]) == cell_value(points@[i]@[j].walkable),
            forall|i: int, j: int| 0 <= i < x && 0 <= j < h ==> (#[trigger] fly@[i]@[j]) == cell_value(points@[i]@[j].pathable),
            forall|i: int, j: int|
                0 <= i < x && 0 <= j < h ==> (#[trigger] frame@[i]@[j]) == cell_value(
                    on_frame(x_start as int, y_start as int, x_end as int, y_end as int, i, j),
                ),
        decreases w - x,
    {
        let mut prow: Vec<MapPoint> = Vec::new();
        let mut wrow: Vec<usize> = Vec::new();
        let mut frow: Vec<usize> = Vec::new();
        let mut brow: Vec<usize> = Vec::new();
        assert(pathing@[x as int]@.len() == pathing@[0]@.len());
        assert(placement@[x as int]@.len() == placement@[0]@.len());
        assert(height_map@[x as int]@.len() == height_map@[0]@.len());
        let mut y: usize = 0;
        while y < h
            invariant
                w == pathing@.len(),
                h == pathing@[0]@.len(),
                shaped(pathing@),
                shaped(placement@),
                shaped(height_map@),
                same_dims(pathing@, placement@),
                same_dims(pathing@, height_map@),
                area_ok(w as int, h as int, x_start as int, y_start as int, x_end as int, y_end as int),
                x < w,
                pathing@[x as int]@.len() == h,
                placement@[x as int]@.len() == h,
                height_map@[x as int]@.len() == h,
                y <= h,
                prow@.len() == y,
                wrow@.len() == y,
                frow@.len() == y,
                brow@.len() == y,
                forall|j: int|
                    0 <= j < y ==> fresh(
                        #[trigger] prow@[j],
                        pathing@,
                        placement@,
                        height_map@,
                        x_start as int,
                        y_start as int,
                        x_end as int,
                        y_end as int,
                        x as int,
                        j,
                    ),
                forall|j: int| 0 <= j < y ==> (#[trigger] wrow@[j]) == cell_value(prow@[j].walkable),
                forall|j: int| 0 <= j < y ==> (#[trigger] frow@[j]) == cell_value(prow@[j].pathable),
                forall|j: int|
                    0 <= j < y ==> (#[trigger] brow@[j]) == cell_value(
                        on_frame(x_start as int, y_start as int, x_end as int, y_end as int, x as int, j),
                    ),
            decreases h - y,
        {
            let walkable = pathing[x][y] > 0 || placement[x][y] > 0;
            let pathable = x_start <= x && x <= x_end && y_start <= y && y <= y_end;
            let mut p = MapPoint::new();
            p.walkable = walkable;
            p.pathable = pathable;
            p.height = height_map[x][y];
            assert(classified(p, pathing@, placement@, height_map@, x_start as int, y_start as int, x_end as int, y_end as int, x as int, y as int));
            assert(p == (MapPoint { walkable: p.walkable, pathable: p.pathable, height: p.height, ..MapPoint::blank() }));
            let ghost old_prow = prow@;
            prow.push(p);
            assert(forall|j: int| 0 <= j < y ==> prow@[j] == old_prow[j]);
            assert(prow@[y as int] == p);
            wrow.push(if walkable { 1 } else { 0 });
            frow.push(if pathable { 1 } else { 0 });
            let framed = x == x_start - 1 || x == x_end || y == y_start - 1 || y == y_end;
            brow.push(if framed { 1 } else { 0 });
            y += 1;
        }
        let ghost op = points@;
        let ghost ow = walk@;
        let ghost of = fly@;
        let ghost ob = frame@;
        points.push(prow);
        walk.push(wrow);
        fly.push(frow);
        frame.push(brow);
        proof {
            assert forall|i: int| 0 <= i < x implies points@[i] == op[i] && walk@[i] == ow[i] && fly@[i] == of[i] && frame@[i] == ob[i] by {}
            assert(points@[x as int]@ == prow@ && walk@[x as int]@ == wrow@ && fly@[x as int]@ == frow@ && frame@[x as int]@ == brow@);
            assert forall|i: int, j: int| 0 <= i < x + 1 && 0 <= j < h implies fresh(
                #[trigger] points@[i]@[j],
                pathing@,
                placement@,
                height_map@,
                x_start as int,
                y_start as int,
                x_end as int,
                y_end as int,
                i,
                j,
            ) by {
                if i == x {
                    assert(points@[i]@ == prow@);
                } else {
                    assert(points@[i] == op[i]);
                }
            }
        }
        x += 1;
    }
    Classes { points, walk, fly, frame }
}

} // verus!

verus! {

/// `b` keeps the walkability, playability and height of every cell of `a`.
pub open spec fn keeps_base(a: Seq<Vec<MapPoint>>, b: Seq<Vec<MapPoint>>) -> bool {
    &&& same_shape(a, b)
    &&& forall|i: int, j: int|
        point_in(a, i, j) ==> (#[trigger] pt(b, i, j)).walkable == pt(a, i, j).walkable && pt(b, i, j).height
            == pt(a, i, j).height && pt(b, i, j).pathable == pt(a, i, j).pathable
}

proof fn lemma_keeps_base_trans(a: Seq<Vec<MapPoint>>, b: Seq<Vec<MapPoint>>, c: Seq<Vec<MapPoint>>)
    requires
        keeps_base(a, b),
        keeps_base(b, c),
    ensures
        keeps_base(a, c),
{
    assert forall|i: int, j: int| point_in(a, i, j) implies (#[trigger] pt(c, i, j)).walkable == pt(a, i, j).walkable
        && pt(c, i, j).height == pt(a, i, j).height && pt(c, i, j).pathable == pt(a, i, j).pathable by {
        assert(point_in(b, i, j));
    }
    assert forall|x: int| 0 <= x < a.len() implies (#[trigger] a[x]@.len()) == c[x]@.len() by {
        assert(b[x]@.len() == a[x]@.len());
    }
}

proof fn lemma_climbed_keeps_base(a: Seq<Vec<MapPoint>>, b: Seq<Vec<MapPoint>>, x: int, y: int, xd: int, yd: int)
    requires
        climbed(a, b, x, y, xd, yd),
    ensures
        keeps_base(a, b),
{
    match climb_case(a, x, y, xd, yd) {
        Some(high) => {
            assert forall|i: int, j: int| point_in(a, i, j) implies (#[trigger] pt(b, i, j)).walkable == pt(a, i, j).walkable
                && pt(b, i, j).height == pt(a, i, j).height && pt(b, i, j).pathable == pt(a, i, j).pathable by {
                if i == x + xd && j == y + yd {
                } else if i == x && j == y {
                } else if i == x + 2 * xd && j == y + 2 * yd {
                } else {
                }
            }
        },
        None => {},
    }
}

/// `b` keeps the border flag of every cell of `a`.
pub open spec fn keeps_borders(a: Seq<Vec<MapPoint>>, b: Seq<Vec<MapPoint>>) -> bool {
    forall|i: int, j: int| point_in(a, i, j) ==> (#[trigger] pt(b, i, j)).is_border == pt(a, i, j).is_border
}

/// The scanned part of the playable area.
pub open spec fn scanned(x_start: int, y_start: int, x_end: int, y_end: int, x: int, y: int) -> bool {
    x_start <= x < x_end && y_start <= y < y_end
}

/// A blocked cell with a walkable cell among its eight neighbours.
pub open spec fn border_rule(p: Seq<Vec<MapPoint>>, x: int, y: int) -> bool {
    &&& !pt(p, x, y).walkable
    &&& {
        ||| pt(p, x + 1, y + 1).walkable
        ||| pt(p, x - 1, y + 1).walkable
        ||| pt(p, x + 1, y).walkable
        ||| pt(p, x - 1, y).walkable
        ||| pt(p, x + 1, y - 1).walkable
        ||| pt(p, x - 1, y - 1).walkable
        ||| pt(p, x, y + 1).walkable
        ||| pt(p, x, y - 1).walkable
    }
}

proof fn lemma_keeps_borders_trans(a: Seq<Vec<MapPoint>>, b: Seq<Vec<MapPoint>>, c: Seq<Vec<MapPoint>>)
    requires
        same_shape(a, b),
        keeps_borders(a, b),
        keeps_borders(b, c),
    ensures
        keeps_borders(a, c),
{
    assert forall|i: int, j: int| point_in(a, i, j) implies (#[trigger] pt(c, i, j)).is_border == pt(a, i, j).is_border by {
        assert(point_in(b, i, j));
    }
}

proof fn lemma_climbed_keeps_borders(a: Seq<Vec<MapPoint>>, b: Seq<Vec<MapPoint>>, x: int, y: int, xd: int, yd: int)
    requires
        climbed(a, b, x, y, xd, yd),
    ensures
        keeps_borders(a, b),
{
    match climb_case(a, x, y, xd, yd) {
        Some(high) => {
            assert forall|i: int, j: int| point_in(a, i, j) implies (#[trigger] pt(b, i, j)).is_border == pt(a, i, j).is_border by {
                if i == x + xd && j == y + yd {
                } else if i == x && j == y {
                } else if i == x + 2 * xd && j == y + 2 * yd {
                } else {
                }
            }
        },
        None => {},
    }
}

fn set_point(points: &mut Vec<Vec<MapPoint>>, x: usize, y: usize, p: MapPoint)
    requires
        point_in(old(points)@, x as int, y as int),
    ensures
        same_shape(old(points)@, final(points)@),
        pt(final(points)@, x as int, y as int) == p,
        forall|i: int, j: int|
            point_in(old(points)@, i, j) && !(i == x && j == y) ==> #[trigger] pt(final(points)@, i, j)
                == pt(old(points)@, i, j),
{
    let ghost a = points@;
    points[x][y] = p;
    proof {
        assert forall|i: int| 0 <= i < a.len() implies (#[trigger] a[i]@.len()) == points@[i]@.len() by {
            if i != x {
                assert(points@[i] == a[i]);
            }
        }
        assert forall|i: int, j: int| point_in(a, i, j) && !(i == x && j == y) implies #[trigger] pt(points@, i, j) == pt(a, i, j) by {
            if i != x {
                assert(points@[i] == a[i]);
            }
        }
    }
}

/// Arrays shaped like a well-formed one are well formed.
proof fn lemma_points_ok_kept(a: Seq<Vec<MapPoint>>, b: Seq<Vec<MapPoint>>)
    requires
        points_ok(a),
        keeps_base(a, b),
    ensures
        points_ok(b),
{
    assert forall|i: int| 0 <= i < b.len() implies (#[trigger] b[i]@.len()) == b[0]@.len() by {
        assert(b[i]@.len() == a[i]@.len());
        assert(a[i]@.len() == a[0]@.len());
        assert(b[0]@.len() == a[0]@.len());
    }
}

/// Cells that keep their walkability keep the border rule.
proof fn lemma_rule_kept(a: Seq<Vec<MapPoint>>, b: Seq<Vec<MapPoint>>, x: int, y: int)
    requires
        keeps_base(a, b),
        point_in(a, x - 1, y - 1),
        point_in(a, x + 1, y + 1),
        point_in(a, x - 1, y + 1),
        point_in(a, x + 1, y - 1),
        points_ok(a),
    ensures
        border_rule(a, x, y) == border_rule(b, x, y),
{
    assert(point_in(a, x, y) && point_in(a, x, y - 1) && point_in(a, x, y + 1));
    assert(point_in(a, x - 1, y) && point_in(a, x + 1, y));
    let _ = pt(b, x, y);
    let _ = pt(b, x + 1, y + 1);
    let _ = pt(b, x - 1, y + 1);
    let _ = pt(b, x + 1, y);
    let _ = pt(b, x - 1, y);
    let _ = pt(b, x + 1, y - 1);
    let _ = pt(b, x - 1, y - 1);
    let _ = pt(b, x, y + 1);
    let _ = pt(b, x, y - 1);
}

/// The second pass on one cell: a blocked cell is marked as an overlord-spot
/// seed when it stands at least a cliff level above a neighbour above or
/// below it, and as a border (also opened in `frame`) when a neighbour is
/// walkable; a walkable cell is tested for climbable cliffs.
fn mark_cell(points: &mut Vec<Vec<MapPoint>>, frame: &mut Vec<Vec<usize>>, x: usize, y: usize)
    requires
        points_ok(old(points)@),
        1 <= x,
        x + 1 < old(points)@.len(),
        1 <= y,
        y + 1 < old(points)@[0]@.len(),
        old(frame)@.len() == old(points)@.len(),
        forall|i: int| 0 <= i < old(frame)@.len() ==> (#[trigger] old(frame)@[i]@.len()) == old(points)@[0]@.len(),
        forall|i: int, j: int| 0 <= i < old(frame)@.len() && 0 <= j < old(points)@[0]@.len() ==> (#[trigger] old(frame)@[i]@[j]) <= 1,
    ensures
        keeps_base(old(points)@, final(points)@),
        forall|i: int, j: int|
            point_in(old(points)@, i, j) ==> (#[trigger] pt(final(points)@, i, j)).is_border == (pt(old(points)@, i, j).is_border
                || (i == x && j == y && border_rule(old(points)@, i, j))),
        final(frame)@.len() == old(frame)@.len(),
        forall|i: int| 0 <= i < old(frame)@.len() ==> (#[trigger] final(frame)@[i]@.len()) == old(points)@[0]@.len(),
        forall|i: int, j: int| 0 <= i < old(frame)@.len() && 0 <= j < old(points)@[0]@.len() ==> (#[trigger] final(frame)@[i]@[j]) <= 1,
        forall|i: int, j: int|
            0 <= i < old(frame)@.len() && 0 <= j < old(points)@[0]@.len() ==> (#[trigger] final(frame)@[i]@[j]) == if i == x && j == y
                && border_rule(old(points)@, i, j) {
                1usize
            } else {
                old(frame)@[i]@[j]
            },
{
    let ghost p0 = points@;
    let w = points.len();
    let h = points[0].len();
    assert(p0[(x - 1) as int]@.len() == h && p0[x as int]@.len() == h && p0[(x + 1) as int]@.len() == h);
    if !points[x][y].walkable {
        let hc = points[x][y].height;
        let h0 = points[x][y + 1].height;
        let h1 = points[x][y - 1].height;
        let spot = (h0 > 0 && hc as u128 >= h0 as u128 + DIFFERENCE as u128) || (h1 > 0 && hc as u128 >= h1 as u128
            + DIFFERENCE as u128);
        let border = points[x + 1][y + 1].walkable || points[x - 1][y + 1].walkable || points[x + 1][y].walkable
            || points[x - 1][y].walkable || points[x + 1][y - 1].walkable || points[x - 1][y - 1].walkable
            || points[x][y + 1].walkable || points[x][y - 1].walkable;
        assert(border == border_rule(p0, x as int, y as int));
        if spot || border {
            let mut p = points[x][y];
            if spot {
                p.overlord_spot = true;
            }
            if border {
                p.is_border = true;
            }
            set_point(points, x, y, p);
        }
        if border {
            assert(frame@[x as int]@.len() == h);
            let ghost f0 = frame@;
            frame[x][y] = 1;
            proof {
                assert forall|i: int, j: int| 0 <= i < frame@.len() && 0 <= j < h && i != x implies frame@[i]@[j] == f0[i]@[j] by {
                    assert(frame@[i] == f0[i]);
                }
                assert forall|i: int| 0 <= i < frame@.len() implies (#[trigger] frame@[i]@.len()) == h by {}
            }
        }
    } else {
        let ghost q0 = points@;
        modify_climb(points, x, y, -1, -1);
        let ghost q1 = points@;
        proof {
            lemma_climbed_keeps_base(q0, q1, x as int, y as int, -1, -1);
            lemma_climbed_keeps_borders(q0, q1, x as int, y as int, -1, -1);
            lemma_points_ok_kept(p0, q1);
        }
        modify_climb(points, x, y, 1, -1);
        let ghost q2 = points@;
        proof {
            lemma_climbed_keeps_base(q1, q2, x as int, y as int, 1, -1);
            lemma_climbed_keeps_borders(q1, q2, x as int, y as int, 1, -1);
            lemma_keeps_base_trans(q0, q1, q2);
            lemma_keeps_borders_trans(q0, q1, q2);
            lemma_points_ok_kept(p0, q2);
        }
        modify_climb(points, x, y, 1, 0);
        let ghost q3 = points@;
        proof {
            lemma_climbed_keeps_base(q2, q3, x as int, y as int, 1, 0);
            lemma_climbed_keeps_borders(q2, q3, x as int, y as int, 1, 0);
            lemma_keeps_base_trans(q0, q2, q3);
            lemma_keeps_borders_trans(q0, q2, q3);
            lemma_points_ok_kept(p0, q3);
        }
        modify_climb(points, x, y, 0, 1);
        proof {
            lemma_climbed_keeps_base(q3, points@, x as int, y as int, 0, 1);
            lemma_climbed_keeps_borders(q3, points@, x as int, y as int, 0, 1);
            lemma_keeps_base_trans(q0, q3, points@);
            lemma_keeps_borders_trans(q0, q3, points@);
        }
    }
}

/// The second pass over the scanned area, one cell at a time (see
/// `mark_cell`): afterwards the border cells are exactly the blocked cells of
/// the scanned area with a walkable neighbour.
fn mark_features(
    points: &mut Vec<Vec<MapPoint>>,
    frame: &mut Vec<Vec<usize>>,
    x_start: usize,
    y_start: usize,
    x_end: usize,
    y_end: usize,
)
    requires
        points_ok(old(points)@),
        old(points)@.len() <= MAX_SIDE,
        old(points)@[0]@.len() <= MAX_SIDE,
        area_ok(old(points)@.len() as int, old(points)@[0]@.len() as int, x_start as int, y_start as int, x_end as int, y_end as int),
        old(frame)@.len() == old(points)@.len(),
        forall|i: int| 0 <= i < old(frame)@.len() ==> (#[trigger] old(frame)@[i]@.len()) == old(points)@[0]@.len(),
        forall|x: int, y: int| 0 <= x < old(points)@.len() && 0 <= y < old(points)@[0]@.len() ==> (#[trigger] old(frame)@[x]@[y]) <= 1,
    ensures
        keeps_base(old(points)@, final(points)@),
        forall|i: int, j: int|
            point_in(old(points)@, i, j) ==> (#[trigger] pt(final(points)@, i, j)).is_border == (pt(old(points)@, i, j).is_border
                || (scanned(x_start as int, y_start as int, x_end as int, y_end as int, i, j) && border_rule(old(points)@, i, j))),
        final(frame)@.len() == old(frame)@.len(),
        forall|x: int| 0 <= x < old(frame)@.len() ==> (#[trigger] final(frame)@[x]@.len()) == old(frame)@[x]@.len(),
        forall|x: int, y: int| 0 <= x < old(points)@.len() && 0 <= y < old(points)@[0]@.len() ==> (#[trigger] final(frame)@[x]@[y]) <= 1,
        forall|i: int, j: int|
            0 <= i < old(points)@.len() && 0 <= j < old(points)@[0]@.len() ==> (#[trigger] final(frame)@[i]@[j]) == if scanned(
                x_start as int,
                y_start as int,
                x_end as int,
                y_end as int,
                i,
                j,
            ) && border_rule(old(points)@, i, j) {
                1usize
            } else {
                old(frame)@[i]@[j]
            },
{
    let ghost fr0 = frame@;
    let ghost p0 = points@;
    let w = points.len();
    let h = points[0].len();
    let mut x: usize = x_start;
    while x < x_end
        invariant
            w == p0.len(),
            h == p0[0]@.len(),
            points_ok(p0),
            area_ok(w as int, h as int, x_start as int, y_start as int, x_end as int, y_end as int),
            keeps_base(p0, points@),
            forall|i: int, j: int|
                point_in(p0, i, j) ==> (#[trigger] pt(points@, i, j)).is_border == (pt(p0, i, j).is_border || (scanned(
                    x_start as int,
                    y_start as int,
                    x_end as int,
                    y_end as int,
                    i,
                    j,
                ) && i < x && border_rule(p0, i, j))),
            frame@.len() == w,
            forall|i: int| 0 <= i < w ==> (#[trigger] frame@[i]@.len()) == h,
            forall|i: int, j: int| 0 <= i < w && 0 <= j < h ==> (#[trigger] frame@[i]@[j]) <= 1,
            x_start <= x,
            fr0.len() == w,
            forall|i: int| 0 <= i < w ==> (#[trigger] fr0[i]@.len()) == h,
            forall|i: int, j: int|
                0 <= i < w && 0 <= j < h ==> (#[trigger] frame@[i]@[j]) == if done_before(
                    x_start as int, y_start as int, x_end as int, y_end as int, x as int, y_start as int, i, j)
                    && border_rule(p0, i, j) {
                    1usize
                } else {
                    fr0[i]@[j]
                },
        decreases x_end - x,
    {
        let mut y: usize = y_start;
        while y < y_end
            invariant
                w == p0.len(),
                h == p0[0]@.len(),
                points_ok(p0),
                area_ok(w as int, h as int, x_start as int, y_start as int, x_end as int, y_end as int),
                keeps_base(p0, points@),
                forall|i: int, j: int|
                    point_in(p0, i, j) ==> (#[trigger] pt(points@, i, j)).is_border == (pt(p0, i, j).is_border || (scanned(
                        x_start as int,
                        y_start as int,
                        x_end as int,
                        y_end as int,
                        i,
                        j,
                    ) && (i < x || (i == x && j < y)) && border_rule(p0, i, j))),
                frame@.len() == w,
                forall|i: int| 0 <= i < w ==> (#[trigger] frame@[i]@.len()) == h,
                forall|i: int, j: int| 0 <= i < w && 0 <= j < h ==> (#[trigger] frame@[i]@[j]) <= 1,
                x_start <= x < x_end,
                y_start <= y,
                fr0.len() == w,
                forall|i: int| 0 <= i < w ==> (#[trigger] fr0[i]@.len()) == h,
                forall|i: int, j: int|
                    0 <= i < w && 0 <= j < h ==> (#[trigger] frame@[i]@[j]) == if done_before(
                        x_start as int, y_start as int, x_end as int, y_end as int, x as int, y as int, i, j)
                        && border_rule(p0, i, j) {
                        1usize
                    } else {
                        fr0[i]@[j]
                    },
            decreases y_end - y,
        {
            let ghost pc = points@;
            proof {
                assert(points_ok(pc)) by {
                    assert forall|i: int| 0 <= i < pc.len() implies (#[trigger] pc[i]@.len()) == pc[0]@.len() by {
                        assert(pc[i]@.len() == p0[i]@.len());
                        assert(p0[i]@.len() == p0[0]@.len());
                        assert(pc[0]@.len() == p0[0]@.len());
                    }
                }
                assert(pc[0]@.len() == h);
            }
            let ghost fc = frame@;
            mark_cell(points, frame, x, y);
            proof {
                assert forall|i: int, j: int| 0 <= i < w && 0 <= j < h implies (#[trigger] frame@[i]@[j]) == if done_before(
                    x_start as int, y_start as int, x_end as int, y_end as int, x as int, y + 1, i, j)
                    && border_rule(p0, i, j) {
                    1usize
                } else {
                    fr0[i]@[j]
                } by {
                    let _ = fc[i]@[j];
                }
                lemma_keeps_base_trans(p0, pc, points@);
                assert(p0[(x - 1) as int]@.len() == h && p0[(x + 1) as int]@.len() == h);
                lemma_rule_kept(p0, pc, x as int, y as int);
                assert forall|i: int, j: int| point_in(p0, i, j) implies (#[trigger] pt(points@, i, j)).is_border == (pt(p0, i, j).is_border
                    || (scanned(x_start as int, y_start as int, x_end as int, y_end as int, i, j) && (i < x || (i == x && j < y + 1))
                    && border_rule(p0, i, j))) by {
                    assert(point_in(pc, i, j));
                    let _ = pt(pc, i, j);
                }
            }
            y += 1;
        }
        x += 1;
    }
}

} // verus!

verus! {

pub open spec fn count_false(s: Seq<bool>) -> int
    decreases s.len(),
{
    if s.len() == 0 {
        0
    } else {
        count_false(s.drop_last()) + if s.last() {
            0int
        } else {
            1
        }
    }
}

pub proof fn lemma_count_false_set(s: Seq<bool>, i: int)
    requires
        0 <= i < s.len(),
        !s[i],
    ensures
        count_false(s.update(i, true)) == count_false(s) - 1,
    decreases s.len(),
{
    let t = s.update(i, true);
    if i == s.len() - 1 {
        assert(t.drop_last() =~= s.drop_last());
    } else {
        assert(t.drop_last() =~= s.drop_last().update(i, true));
        lemma_count_false_set(s.drop_last(), i);
    }
}

pub proof fn lemma_count_false_nonneg(s: Seq<bool>)
    ensures
        count_false(s) >= 0,
    decreases s.len(),
{
    if s.len() > 0 {
        lemma_count_false_nonneg(s.drop_last());
    }
}

/// `b` is `a` with at most the overlord-spot flags changed.
pub open spec fn only_spots_change(a: Seq<Vec<MapPoint>>, b: Seq<Vec<MapPoint>>) -> bool {
    &&& same_shape(a, b)
    &&& forall|i: int, j: int|
        point_in(a, i, j) ==> (#[trigger] pt(b, i, j)) == (MapPoint { overlord_spot: pt(b, i, j).overlord_spot, ..pt(a, i, j) })
}

/// Flood fill from `(x, y)` through cells of height `target`, setting their
/// overlord-spot flag to `replacement`. Returns whether every cell met on the
/// edge of the region lies at least one cliff level lower, and the cells
/// visited (the region and its edge), each once.
fn flood_overlord(points: &mut Vec<Vec<MapPoint>>, x: usize, y: usize, target: usize, replacement: bool) -> (r: (
    bool,
    Vec<Cell>,
))
    requires
        points_ok(old(points)@),
        old(points)@.len() <= MAX_SIDE,
        old(points)@[0]@.len() <= MAX_SIDE,
        point_in(old(points)@, x as int, y as int),
    ensures
        only_spots_change(old(points)@, final(points)@),
        forall|k: int| 0 <= k < r.1@.len() ==> point_in(old(points)@, (#[trigger] r.1@[k]).0 as int, r.1@[k].1 as int),
{
    let ghost p0 = points@;
    let w = points.len();
    let h = points[0].len();
    proof {
        assert(points@[0]@.len() == h);
        assert(w * h <= MAX_SIDE * MAX_SIDE) by (nonlinear_arith)
            requires
                w <= MAX_SIDE,
                h <= MAX_SIDE,
        ;
    }
    let total = w * h;
    let mut visited: Vec<bool> = Vec::new();
    let mut k: usize = 0;
    while k < total
        invariant
            k <= total,
            visited@.len() == k,
            forall|i: int| 0 <= i < k ==> !(#[trigger] visited@[i]),
        decreases total - k,
    {
        visited.push(false);
        k += 1;
    }
    proof {
        assert(w * h <= MAX_SIDE * MAX_SIDE) by (nonlinear_arith)
            requires
                w <= MAX_SIDE,
                h <= MAX_SIDE,
        ;
    }
    let mut remaining: usize = total;
    proof {
        assert(count_false(visited@) == total) by {
            lemma_all_false(visited@);
        }
    }
    let mut stack: Vec<Cell> = Vec::new();
    stack.push((x, y));
    let mut cells: Vec<Cell> = Vec::new();
    let mut ok = true;
    while stack.len() > 0
        invariant
            w == p0.len(),
            h == p0[0]@.len(),
            points_ok(p0),
            w <= MAX_SIDE,
            h <= MAX_SIDE,
            total == w * h,
            visited@.len() == total,
            remaining == count_false(visited@),
            only_spots_change(p0, points@),
            forall|k: int| 0 <= k < stack@.len() ==> point_in(p0, (#[trigger] stack@[k]).0 as int, stack@[k].1 as int),
            forall|k: int| 0 <= k < cells@.len() ==> point_in(p0, (#[trigger] cells@[k]).0 as int, cells@[k].1 as int),
        decreases remaining * 5 + stack@.len(),
    {
        let ghost pc = points@;
        let c = match stack.pop() {
            Some(c) => c,
            None => {
                break;
            },
        };
        let (cx, cy) = c;
        assert(point_in(p0, cx as int, cy as int));
        assert(p0[cx as int]@.len() == h);
        assert(cx * h + cy < w * h) by (nonlinear_arith)
            requires
                cx < w,
                cy < h,
        ;
        let idx = cx * h + cy;
        proof {
            lemma_count_false_nonneg(visited@);
        }
        if visited[idx] {
            continue;
        }
        proof {
            lemma_count_false_set(visited@, idx as int);
            lemma_count_false_nonneg(visited@.update(idx as int, true));
        }
        visited.set(idx, true);
        remaining = remaining - 1;
        cells.push(c);
        proof {
            assert(point_in(pc, cx as int, cy as int));
            assert(pc[cx as int]@.len() == h);
        }
        let ph = points[cx][cy].height;
        if ph != target {
            if (target as u128) < (ph as u128) + (DIFFERENCE as u128) {
                ok = false;
            }
            proof {
                assert forall|k: int| 0 <= k < cells@.len() implies point_in(p0, (#[trigger] cells@[k]).0 as int, cells@[k].1 as int) by {}
            }
            continue;
        }
        let mut p = points[cx][cy];
        p.overlord_spot = replacement;
        set_point(points, cx, cy, p);
        proof {
            assert forall|i: int, j: int| point_in(p0, i, j) implies (#[trigger] pt(points@, i, j)) == (MapPoint {
                overlord_spot: pt(points@, i, j).overlord_spot,
                ..pt(p0, i, j)
            }) by {
                assert(point_in(pc, i, j));
            }
            assert forall|i: int| 0 <= i < p0.len() implies (#[trigger] p0[i]@.len()) == points@[i]@.len() by {
                assert(pc[i]@.len() == p0[i]@.len());
            }
        }
        if cy > 0 {
            stack.push((cx, cy - 1));
        }
        if cx > 0 {
            stack.push((cx - 1, cy));
        }
        if cy + 1 < h {
            stack.push((cx, cy + 1));
        }
        if cx + 1 < w {
            stack.push((cx + 1, cy));
        }
        proof {
            assert forall|k: int| 0 <= k < stack@.len() implies point_in(p0, (#[trigger] stack@[k]).0 as int, stack@[k].1 as int) by {
                if cx > 0 {
                    assert(p0[(cx - 1) as int]@.len() == h);
                }
                if cx + 1 < w {
                    assert(p0[(cx + 1) as int]@.len() == h);
                }
            }
        }
    }
    (ok, cells)
}

pub proof fn lemma_all_false(s: Seq<bool>)
    requires
        forall|i: int| 0 <= i < s.len() ==> !(#[trigger] s[i]),
    ensures
        count_false(s) == s.len(),
    decreases s.len(),
{
    if s.len() > 0 {
        assert forall|i: int| 0 <= i < s.drop_last().len() implies !(#[trigger] s.drop_last()[i]) by {
            assert(s.drop_last()[i] == s[i]);
        }
        lemma_all_false(s.drop_last());
    }
}

} // verus!

verus! {

proof fn lemma_marks_keep_base(a: Seq<Vec<MapPoint>>, b: Seq<Vec<MapPoint>>)
    requires
        crate::chokes::marks_chokes(a, b),
    ensures
        keeps_base(a, b),
{
    assert forall|i: int, j: int| point_in(a, i, j) implies (#[trigger] pt(b, i, j)).walkable == pt(a, i, j).walkable
        && pt(b, i, j).height == pt(a, i, j).height && pt(b, i, j).pathable == pt(a, i, j).pathable by {
        assert(pt(b, i, j) == (MapPoint { is_choke: pt(b, i, j).is_choke, ..pt(a, i, j) }));
    }
}

proof fn lemma_spots_keep_borders(a: Seq<Vec<MapPoint>>, b: Seq<Vec<MapPoint>>)
    requires
        only_spots_change(a, b),
    ensures
        keeps_borders(a, b),
{
    assert forall|i: int, j: int| point_in(a, i, j) implies (#[trigger] pt(b, i, j)).is_border == pt(a, i, j).is_border by {
        assert(pt(b, i, j) == (MapPoint { overlord_spot: pt(b, i, j).overlord_spot, ..pt(a, i, j) }));
    }
}

proof fn lemma_marks_keep_borders(a: Seq<Vec<MapPoint>>, b: Seq<Vec<MapPoint>>)
    requires
        crate::chokes::marks_chokes(a, b),
    ensures
        keeps_borders(a, b),
{
    assert forall|i: int, j: int| point_in(a, i, j) implies (#[trigger] pt(b, i, j)).is_border == pt(a, i, j).is_border by {
        assert(pt(b, i, j) == (MapPoint { is_choke: pt(b, i, j).is_choke, ..pt(a, i, j) }));
    }
}

proof fn lemma_spots_keep_base(a: Seq<Vec<MapPoint>>, b: Seq<Vec<MapPoint>>)
    requires
        only_spots_change(a, b),
    ensures
        keeps_base(a, b),
{
    assert forall|i: int, j: int| point_in(a, i, j) implies (#[trigger] pt(b, i, j)).walkable == pt(a, i, j).walkable
        && pt(b, i, j).height == pt(a, i, j).height && pt(b, i, j).pathable == pt(a, i, j).pathable by {
        assert(pt(b, i, j) == (MapPoint { overlord_spot: pt(b, i, j).overlord_spot, ..pt(a, i, j) }));
    }
}

proof fn lemma_lines_inside_shape(a: Seq<Vec<MapPoint>>, b: Seq<Vec<MapPoint>>, lines: Seq<Line>)
    requires
        same_shape(a, b),
        lines_inside(a, lines),
    ensures
        lines_inside(b, lines),
{
    assert forall|k: int| 0 <= k < lines.len() implies point_in(b, (#[trigger] lines[k]).0.0 as int, lines[k].0.1 as int)
        && point_in(b, lines[k].1.0 as int, lines[k].1.1 as int) && small(lines[k].0) && small(lines[k].1) by {
        assert(point_in(a, lines[k].0.0 as int, lines[k].0.1 as int));
        assert(point_in(a, lines[k].1.0 as int, lines[k].1.1 as int));
    }
}

/// `b` keeps the climbable flag of every cell of `a`.
pub open spec fn same_climb(a: Seq<Vec<MapPoint>>, b: Seq<Vec<MapPoint>>) -> bool {
    forall|i: int, j: int| point_in(a, i, j) ==> (#[trigger] pt(b, i, j)).climbable == pt(a, i, j).climbable
}

/// The cells of the scanned area before `(x, y)` in scan order.
pub open spec fn done_before(x_start: int, y_start: int, x_end: int, y_end: int, x: int, y: int, i: int, j: int) -> bool {
    scanned(x_start, y_start, x_end, y_end, i, j) && (i < x || (i == x && j < y))
}

/// The reaper grid opened on the climbable cells of the scanned area before
/// `(x, y)`, and the climbable flags not yet resolved left as they were.
pub open spec fn reaper_follows(
    p0: Seq<Vec<MapPoint>>,
    p: Seq<Vec<MapPoint>>,
    reaper: Seq<Vec<usize>>,
    r0: Seq<Vec<usize>>,
    x_start: int,
    y_start: int,
    x_end: int,
    y_end: int,
    x: int,
    y: int,
) -> bool {
    &&& forall|i: int, j: int|
        point_in(p0, i, j) ==> (#[trigger] reaper[i]@[j]) == if done_before(x_start, y_start, x_end, y_end, x, y, i, j)
            && pt(p, i, j).climbable {
            1usize
        } else {
            r0[i]@[j]
        }
    &&& forall|i: int, j: int|
        point_in(p0, i, j) && !done_before(x_start, y_start, x_end, y_end, x, y, i, j) ==> (#[trigger] pt(p, i, j)).climbable
            == pt(p0, i, j).climbable
}

proof fn lemma_spots_same_climb(a: Seq<Vec<MapPoint>>, b: Seq<Vec<MapPoint>>)
    requires
        only_spots_change(a, b),
    ensures
        same_climb(a, b),
{
    assert forall|i: int, j: int| point_in(a, i, j) implies (#[trigger] pt(b, i, j)).climbable == pt(a, i, j).climbable by {
        assert(pt(b, i, j) == (MapPoint { overlord_spot: pt(b, i, j).overlord_spot, ..pt(a, i, j) }));
    }
}

/// The border grid the choke search walks on: the frame of the playable area
/// and the border cells.
pub open spec fn frame_cells(p: Seq<Vec<MapPoint>>, x_start: int, y_start: int, x_end: int, y_end: int) -> Seq<Seq<usize>> {
    Seq::new(
        p.len(),
        |i: int|
            Seq::new(p[0]@.len(), |j: int| cell_value(on_frame(x_start, y_start, x_end, y_end, i, j) || pt(p, i, j).is_border)),
    )
}

proof fn lemma_segment_list_kept(
    a: Seq<Vec<MapPoint>>,
    b: Seq<Vec<MapPoint>>,
    g: Seq<Seq<usize>>,
    x_start: int,
    y_start: int,
    x_end: int,
    y_end: int,
    lines: Seq<Line>,
)
    requires
        keeps_base(a, b),
        keeps_borders(a, b),
        points_ok(a),
        0 <= x_start,
        0 <= y_start,
        x_end <= a.len(),
        y_end <= a[0]@.len(),
        crate::chokes::segment_list(a, g, x_start, y_start, x_end, y_end, lines),
    ensures
        crate::chokes::segment_list(b, g, x_start, y_start, x_end, y_end, lines),
{
    assert forall|l: Line| crate::chokes::choke_segment(a, g, x_start, y_start, x_end, y_end, l) == crate::chokes::choke_segment(
        b, g, x_start, y_start, x_end, y_end, l) by {
        lemma_choke_end_kept(a, b, crate::chokes::border_reach_cells(g, l.0), l.0, l.1);
        if x_start <= l.0.0 < x_end && y_start <= l.0.1 < y_end {
            assert(a[l.0.0 as int]@.len() == a[0]@.len());
            assert(point_in(a, l.0.0 as int, l.0.1 as int));
            let _ = pt(b, l.0.0 as int, l.0.1 as int);
        }
    }
}

/// A choke segment depends only on walkability, borders and shape.
proof fn lemma_choke_end_kept(a: Seq<Vec<MapPoint>>, b: Seq<Vec<MapPoint>>, reach: Set<(Cell, u64)>, s: Cell, c: Cell)
    requires
        keeps_base(a, b),
        keeps_borders(a, b),
    ensures
        crate::chokes::choke_end(a, reach, s, c) == crate::chokes::choke_end(b, reach, s, c),
{
    assert forall|q: (int, int)| crate::chokes::walkable_at(a, q) == crate::chokes::walkable_at(b, q) by {
        if 0 <= q.0 < a.len() {
            assert(a[q.0]@.len() == b[q.0]@.len());
        }
        if point_in(a, q.0, q.1) {
            let _ = pt(b, q.0, q.1);
        }
    }
    if 0 <= c.0 < a.len() {
        assert(a[c.0 as int]@.len() == b[c.0 as int]@.len());
    }
    if point_in(a, c.0 as int, c.1 as int) {
        let _ = pt(b, c.0 as int, c.1 as int);
    }
    let e = crate::grid::euclidean_spec(c, s);
    assert(crate::chokes::clear_along(a, s, c, e) == crate::chokes::clear_along(b, s, c, e));
    assert(crate::chokes::clear_across(a, s, c, e) == crate::chokes::clear_across(b, s, c, e));
}

/// What the third pass finds: the choke segments and the overlord spots.
pub struct Resolved {
    pub lines: Vec<Line>,
    pub spots: Vec<FixedPoint>,
}

/// The third pass over the scanned area: keeps a climbable flag only when a
/// straight neighbour is climbable too (and opens such cells for reapers),
/// collects choke segments from border cells, clears cliff tags no straight
/// neighbour shares, and flood fills overlord-spot seeds into spots, keeping
/// the average of each region whose edge lies entirely lower.
#[verifier::rlimit(100)]
fn resolve(
    points: &mut Vec<Vec<MapPoint>>,
    reaper: &mut Vec<Vec<usize>>,
    border_pathing: &PathFind,
    x_start: usize,
    y_start: usize,
    x_end: usize,
    y_end: usize,
) -> (r: Resolved)
    requires
        points_ok(old(points)@),
        old(points)@.len() <= MAX_SIDE,
        old(points)@[0]@.len() <= MAX_SIDE,
        area_ok(old(points)@.len() as int, old(points)@[0]@.len() as int, x_start as int, y_start as int, x_end as int, y_end as int),
        border_pathing.wf(),
        border_pathing.width == old(points)@.len(),
        border_pathing.height == old(points)@[0]@.len(),
        old(reaper)@.len() == old(points)@.len(),
        forall|x: int| 0 <= x < old(reaper)@.len() ==> (#[trigger] old(reaper)@[x]@.len()) == old(points)@[0]@.len(),
        forall|x: int, y: int| 0 <= x < old(reaper)@.len() && 0 <= y < old(points)@[0]@.len() ==> (#[trigger] old(reaper)@[x]@[y]) <= 1,
    ensures
        keeps_base(old(points)@, final(points)@),
        keeps_borders(old(points)@, final(points)@),
        lines_inside(final(points)@, r.lines@),
        crate::chokes::segment_list(
            old(points)@,
            crate::movement::cells(border_pathing.map@),
            x_start as int,
            y_start as int,
            x_end as int,
            y_end as int,
            r.lines@,
        ),
        final(reaper)@.len() == old(reaper)@.len(),
        forall|x: int| 0 <= x < old(reaper)@.len() ==> (#[trigger] final(reaper)@[x]@.len()) == old(reaper)@[x]@.len(),
        forall|x: int, y: int| 0 <= x < old(reaper)@.len() && 0 <= y < old(points)@[0]@.len() ==> (#[trigger] final(reaper)@[x]@[y]) <= 1,
        forall|i: int, j: int|
            point_in(old(points)@, i, j) ==> (#[trigger] final(reaper)@[i]@[j]) == if scanned(
                x_start as int,
                y_start as int,
                x_end as int,
                y_end as int,
                i,
                j,
            ) && pt(final(points)@, i, j).climbable {
                1usize
            } else {
                old(reaper)@[i]@[j]
            },
{
    let ghost r0 = reaper@;
    let ghost p0 = points@;
    let w = points.len();
    let h = points[0].len();
    let mut lines: Vec<Line> = Vec::new();
    let mut spots: Vec<FixedPoint> = Vec::new();
    let mut handled: Vec<bool> = Vec::new();
    proof {
        assert(w * h <= MAX_SIDE * MAX_SIDE) by (nonlinear_arith)
            requires
                w <= MAX_SIDE,
                h <= MAX_SIDE,
        ;
    }
    let total = w * h;
    let mut k: usize = 0;
    while k < total
        invariant
            k <= total,
            handled@.len() == k,
        decreases total - k,
    {
        handled.push(false);
        k += 1;
    }
    let mut x: usize = x_start;
    while x < x_end
        invariant
            w == p0.len(),
            h == p0[0]@.len(),
            points_ok(p0),
            w <= MAX_SIDE,
            h <= MAX_SIDE,
            area_ok(w as int, h as int, x_start as int, y_start as int, x_end as int, y_end as int),
            border_pathing.wf(),
            border_pathing.width == w,
            border_pathing.height == h,
            keeps_base(p0, points@),
            keeps_borders(p0, points@),
            lines_inside(points@, lines@),
            handled@.len() == w * h,
            w * h <= MAX_SIDE * MAX_SIDE,
            reaper@.len() == w,
            forall|i: int| 0 <= i < w ==> (#[trigger] reaper@[i]@.len()) == h,
            forall|i: int, j: int| 0 <= i < w && 0 <= j < h ==> (#[trigger] reaper@[i]@[j]) <= 1,
            x_start <= x,
            r0.len() == w,
            forall|i: int| 0 <= i < w ==> (#[trigger] r0[i]@.len()) == h,
            reaper_follows(p0, points@, reaper@, r0, x_start as int, y_start as int, x_end as int, y_end as int, x as int, y_start as int),
            forall|k: int| 0 <= k < lines@.len() ==> #[trigger] crate::chokes::choke_segment(
                p0,
                crate::movement::cells(border_pathing.map@),
                x_start as int,
                y_start as int,
                x_end as int,
                y_end as int,
                lines@[k],
            ),
            forall|k: int| 0 <= k < lines@.len() ==> crate::chokes::scan_before((#[trigger] lines@[k]).0, (x, y_start)),
            forall|k1: int, k2: int| 0 <= k1 < k2 < lines@.len() ==> crate::chokes::line_before(#[trigger] lines@[k1], #[trigger] lines@[k2]),
            forall|l: Line|
                #[trigger] crate::chokes::choke_segment(
                    p0,
                    crate::movement::cells(border_pathing.map@),
                    x_start as int,
                    y_start as int,
                    x_end as int,
                    y_end as int,
                    l,
                ) && crate::chokes::scan_before(l.0, (x, y_start)) ==> lines@.contains(l),
        decreases x_end - x,
    {
        let mut y: usize = y_start;
        while y < y_end
            invariant
                w == p0.len(),
                h == p0[0]@.len(),
                points_ok(p0),
                w <= MAX_SIDE,
                h <= MAX_SIDE,
                area_ok(w as int, h as int, x_start as int, y_start as int, x_end as int, y_end as int),
                border_pathing.wf(),
                border_pathing.width == w,
                border_pathing.height == h,
                keeps_base(p0, points@),
                keeps_borders(p0, points@),
            keeps_borders(p0, points@),
                lines_inside(points@, lines@),
                handled@.len() == w * h,
            w * h <= MAX_SIDE * MAX_SIDE,
                reaper@.len() == w,
                forall|i: int| 0 <= i < w ==> (#[trigger] reaper@[i]@.len()) == h,
                forall|i: int, j: int| 0 <= i < w && 0 <= j < h ==> (#[trigger] reaper@[i]@[j]) <= 1,
                x_start <= x < x_end,
                y_start <= y,
                r0.len() == w,
                forall|i: int| 0 <= i < w ==> (#[trigger] r0[i]@.len()) == h,
                reaper_follows(p0, points@, reaper@, r0, x_start as int, y_start as int, x_end as int, y_end as int, x as int, y as int),
                forall|k: int| 0 <= k < lines@.len() ==> #[trigger] crate::chokes::choke_segment(
                    p0,
                    crate::movement::cells(border_pathing.map@),
                    x_start as int,
                    y_start as int,
                    x_end as int,
                    y_end as int,
                    lines@[k],
                ),
                forall|k: int| 0 <= k < lines@.len() ==> crate::chokes::scan_before((#[trigger] lines@[k]).0, (x, y)),
                forall|k1: int, k2: int| 0 <= k1 < k2 < lines@.len() ==> crate::chokes::line_before(#[trigger] lines@[k1], #[trigger] lines@[k2]),
                forall|l: Line|
                    #[trigger] crate::chokes::choke_segment(
                        p0,
                        crate::movement::cells(border_pathing.map@),
                        x_start as int,
                        y_start as int,
                        x_end as int,
                        y_end as int,
                        l,
                    ) && crate::chokes::scan_before(l.0, (x, y)) ==> lines@.contains(l),
            decreases y_end - y,
        {
            let ghost pc = points@;
            let ghost rc = reaper@;
            proof {
                assert(points_ok(pc)) by {
                    assert forall|i: int| 0 <= i < pc.len() implies (#[trigger] pc[i]@.len()) == pc[0]@.len() by {
                        assert(pc[i]@.len() == p0[i]@.len());
                        assert(p0[i]@.len() == p0[0]@.len());
                        assert(pc[0]@.len() == p0[0]@.len());
                    }
                }
                assert(pc[(x - 1) as int]@.len() == h && pc[x as int]@.len() == h && pc[(x + 1) as int]@.len() == h) by {
                    assert(pc[(x - 1) as int]@.len() == p0[(x - 1) as int]@.len());
                    assert(pc[x as int]@.len() == p0[x as int]@.len());
                    assert(pc[(x + 1) as int]@.len() == p0[(x + 1) as int]@.len());
                    assert(pc[0]@.len() == p0[0]@.len());
                }
            }
            if points[x][y].climbable {
                let keep = points[x + 1][y].climbable || points[x - 1][y].climbable || points[x][y + 1].climbable
                    || points[x][y - 1].climbable;
                let mut p = points[x][y];
                p.climbable = keep;
                set_point(points, x, y, p);
                proof {
                    assert forall|i: int, j: int| point_in(pc, i, j) implies (#[trigger] pt(points@, i, j)).walkable == pt(pc, i, j).walkable
                        && pt(points@, i, j).height == pt(pc, i, j).height && pt(points@, i, j).pathable == pt(pc, i, j).pathable by {
                        if i == x && j == y {
                        } else {
                        }
                    }
                    lemma_keeps_base_trans(p0, pc, points@);
                    assert forall|i: int, j: int| point_in(pc, i, j) implies (#[trigger] pt(points@, i, j)).is_border == pt(pc, i, j).is_border by {
                        if i == x && j == y {
                        } else {
                        }
                    }
                    lemma_keeps_borders_trans(p0, pc, points@);
                    lemma_lines_inside_shape(pc, points@, lines@);
                }
                if keep {
                    assert(reaper@[x as int]@.len() == h);
                    reaper[x][y] = 1;
                    proof {
                        assert forall|i: int| 0 <= i < w implies (#[trigger] reaper@[i]@.len()) == h by {}
                    }
                }
            }
            let ghost pk = points@;
            let ghost rk = reaper@;
            proof {
                assert forall|i: int, j: int| point_in(p0, i, j) && !(i == x && j == y) implies (#[trigger] pt(pk, i, j)).climbable
                    == pt(pc, i, j).climbable && rk[i]@[j] == rc[i]@[j] by {
                    assert(point_in(pc, i, j));
                }
                assert(rk[x as int]@[y as int] == if pt(pk, x as int, y as int).climbable { 1usize } else { rc[x as int]@[y as int] });
            }
            let ghost ps = points@;
            proof {
                assert(points_ok(ps)) by {
                    assert forall|i: int| 0 <= i < ps.len() implies (#[trigger] ps[i]@.len()) == ps[0]@.len() by {
                        assert(ps[i]@.len() == p0[i]@.len());
                        assert(p0[i]@.len() == p0[0]@.len());
                        assert(ps[0]@.len() == p0[0]@.len());
                    }
                }
                assert(ps[0]@.len() == p0[0]@.len());
            }
            let ghost lines_before = lines@;
            solve_chokes(points, border_pathing, &mut lines, x, y, x_start, y_start, x_end, y_end);
            proof {
                assert forall|q: int| 0 <= q < lines@.len() implies point_in(points@, (#[trigger] lines@[q]).0.0 as int, lines@[q].0.1 as int)
                    && point_in(points@, lines@[q].1.0 as int, lines@[q].1.1 as int) && small(lines@[q].0) && small(lines@[q].1) by {
                    if q < lines_before.len() {
                        assert(lines@.subrange(0, lines_before.len() as int)[q] == lines_before[q]);
                    } else {
                        assert(lines@[q].0 == (x, y));
                        let c = lines@[q].1;
                        assert(crate::chokes::choke_end(points@, crate::chokes::border_reach(border_pathing.map@, (x, y)), (x, y), c));
                        assert(points@[c.0 as int]@.len() == h) by {
                            assert(points@[c.0 as int]@.len() == p0[c.0 as int]@.len());
                        }
                    }
                }
                let g = crate::movement::cells(border_pathing.map@);
                let s0: Cell = (x, y);
                assert(crate::chokes::border_reach(border_pathing.map@, s0) == crate::chokes::border_reach_cells(g, s0));
                assert(point_in(p0, x as int, y as int));
                assert(pt(ps, x as int, y as int).is_border == pt(p0, x as int, y as int).is_border);
                assert forall|k: int| lines_before.len() <= k < lines@.len() implies #[trigger] crate::chokes::choke_segment(
                    p0, g, x_start as int, y_start as int, x_end as int, y_end as int, lines@[k]) && lines@[k].0 == s0 by {
                    lemma_choke_end_kept(p0, ps, crate::chokes::border_reach_cells(g, s0), s0, lines@[k].1);
                }
                assert forall|l: Line| #[trigger] crate::chokes::choke_segment(p0, g, x_start as int, y_start as int, x_end as int, y_end as int, l)
                    && l.0 == s0 implies lines@.contains(l) by {
                    lemma_choke_end_kept(p0, ps, crate::chokes::border_reach_cells(g, s0), s0, l.1);
                    assert(crate::chokes::choke_end(ps, crate::chokes::border_reach(border_pathing.map@, s0), s0, l.1));
                    let k = choose|k: int| lines_before.len() <= k < lines@.len() && lines@[k] == (s0, l.1);
                }
                assert forall|k: int| 0 <= k < lines_before.len() implies lines@[k] == lines_before[k] by {
                    assert(lines@.subrange(0, lines_before.len() as int)[k] == lines_before[k]);
                }
            }
            let c = points[x][y].cliff_type;
            if c != Cliff::Neither {
                if points[x + 1][y].cliff_type != c && points[x - 1][y].cliff_type != c && points[x][y + 1].cliff_type
                    != c && points[x][y - 1].cliff_type != c {
                    let ghost pb = points@;
                    let mut p = points[x][y];
                    p.cliff_type = Cliff::Neither;
                    set_point(points, x, y, p);
                    proof {
                        assert forall|i: int, j: int| point_in(pb, i, j) implies (#[trigger] pt(points@, i, j)).walkable == pt(pb, i, j).walkable
                            && pt(points@, i, j).height == pt(pb, i, j).height && pt(points@, i, j).pathable == pt(pb, i, j).pathable by {
                            if i == x && j == y {
                            } else {
                            }
                        }
                        lemma_keeps_base_trans(p0, pb, points@);
                        assert forall|i: int, j: int| point_in(pb, i, j) implies (#[trigger] pt(points@, i, j)).is_border == pt(pb, i, j).is_border by {
                            if i == x && j == y {
                            } else {
                            }
                        }
                        lemma_keeps_borders_trans(p0, pb, points@);
                        lemma_lines_inside_shape(pb, points@, lines@);
                        assert(same_climb(pb, points@)) by {
                            assert forall|i: int, j: int| point_in(pb, i, j) implies (#[trigger] pt(points@, i, j)).climbable == pt(pb, i, j).climbable by {
                                if i == x && j == y {
                                } else {
                                }
                            }
                        }
                    }
                }
            }
            let ghost pl = points@;
            proof {
                assert(x * h + y < w * h) by (nonlinear_arith)
                    requires
                        x < w,
                        y < h,
                ;
                assert(x * h <= w * h) by (nonlinear_arith)
                    requires
                        x < w,
                ;
            }
            let key = x * h + y;
            if !handled[key] && points[x][y].overlord_spot {
                let target = points[x][y].height;
                let ghost pf = points@;
                proof {
                    assert(points_ok(pf)) by {
                        assert forall|i: int| 0 <= i < pf.len() implies (#[trigger] pf[i]@.len()) == pf[0]@.len() by {
                            assert(pf[i]@.len() == p0[i]@.len());
                            assert(p0[i]@.len() == p0[0]@.len());
                            assert(pf[0]@.len() == p0[0]@.len());
                        }
                    }
                    assert(pf[0]@.len() == p0[0]@.len());
                }
                let (ok, cells) = flood_overlord(points, x, y, target, true);
                proof {
                    lemma_spots_keep_base(pf, points@);
                    lemma_keeps_base_trans(p0, pf, points@);
                    lemma_spots_keep_borders(pf, points@);
                    lemma_spots_same_climb(pf, points@);
                    lemma_keeps_borders_trans(p0, pf, points@);
                    lemma_lines_inside_shape(pf, points@, lines@);
                }
                if ok {
                    let nc = cells.len();
                    let mut sx: u128 = 0;
                    let mut sy: u128 = 0;
                    let mut q: usize = 0;
                    while q < nc
                        invariant
                            w == p0.len(),
                            h == p0[0]@.len(),
                            w <= MAX_SIDE,
                            h <= MAX_SIDE,
                            handled@.len() == w * h,
            w * h <= MAX_SIDE * MAX_SIDE,
                            forall|k: int| 0 <= k < cells@.len() ==> point_in(pf, (#[trigger] cells@[k]).0 as int, cells@[k].1 as int),
                            pf.len() == w,
                            pf[0]@.len() == h,
                            forall|i: int| 0 <= i < pf.len() ==> (#[trigger] pf[i]@.len()) == h,
                            q <= cells@.len(),
                            nc == cells@.len(),
                            sx <= q * MAX_SIDE,
                            sy <= q * MAX_SIDE,
                        decreases cells@.len() - q,
                    {
                        let cc = cells[q];
                        assert(point_in(pf, cc.0 as int, cc.1 as int));
                        assert(pf[cc.0 as int]@.len() == h);
                        assert(cc.0 * h + cc.1 < w * h) by (nonlinear_arith)
                            requires
                                cc.0 < w,
                                cc.1 < h,
                        ;
                        assert(cc.0 * h <= w * h) by (nonlinear_arith)
                            requires
                                cc.0 < w,
                        ;
                        handled.set(cc.0 * h + cc.1, true);
                        sx = sx + cc.0 as u128;
                        sy = sy + cc.1 as u128;
                        q += 1;
                    }
                    let n = nc as u128;
                    if n > 0 {
                        assert(sx * 10000 <= 0x1_0000_0000_0000_0000 * 4096 * 10000 && sy * 10000 <= 0x1_0000_0000_0000_0000 * 4096 * 10000) by (nonlinear_arith)
                            requires
                                sx <= n * 4096,
                                sy <= n * 4096,
                                n <= 0x1_0000_0000_0000_0000,
                        ;
                        let ax = sx * 10000 / n;
                        let ay = sy * 10000 / n;
                        assert(ax <= 4096 * 10000 && ay <= 4096 * 10000) by (nonlinear_arith)
                            requires
                                sx <= n * 4096,
                                sy <= n * 4096,
                                n > 0,
                                ax == sx * 10000 / (n as int),
                                ay == sy * 10000 / (n as int),
                        ;
                        spots.push(FixedPoint { x: ax as u64, y: ay as u64 });
                    }
                } else {
                    let ghost pg = points@;
                    proof {
                        assert(points_ok(pg)) by {
                            assert forall|i: int| 0 <= i < pg.len() implies (#[trigger] pg[i]@.len()) == pg[0]@.len() by {
                                assert(pg[i]@.len() == p0[i]@.len());
                                assert(p0[i]@.len() == p0[0]@.len());
                                assert(pg[0]@.len() == p0[0]@.len());
                            }
                        }
                        assert(pg[0]@.len() == p0[0]@.len());
                    }
                    let _ = flood_overlord(points, x, y, target, false);
                    proof {
                        lemma_spots_keep_base(pg, points@);
                        lemma_keeps_base_trans(p0, pg, points@);
                        lemma_spots_keep_borders(pg, points@);
                        lemma_spots_same_climb(pg, points@);
                        lemma_keeps_borders_trans(p0, pg, points@);
                        lemma_lines_inside_shape(pg, points@, lines@);
                    }
                }
            }
            proof {
                assert(same_climb(pk, points@)) by {
                    assert forall|i: int, j: int| point_in(pk, i, j) implies (#[trigger] pt(points@, i, j)).climbable == pt(pk, i, j).climbable by {
                        assert(point_in(pl, i, j)) by {
                            assert(pl[i]@.len() == pk[i]@.len());
                        }
                        let _ = pt(pl, i, j);
                        if pl != pk {
                        }
                    }
                }
                assert forall|i: int, j: int| point_in(p0, i, j) implies (#[trigger] reaper@[i]@[j]) == if done_before(
                    x_start as int, y_start as int, x_end as int, y_end as int, x as int, y + 1, i, j)
                    && pt(points@, i, j).climbable {
                    1usize
                } else {
                    r0[i]@[j]
                } by {
                    assert(point_in(pk, i, j)) by {
                        assert(pk[i]@.len() == p0[i]@.len());
                    }
                    let _ = pt(pk, i, j);
                    let _ = pt(pc, i, j);
                    let _ = rc[i]@[j];
                }
                assert forall|i: int, j: int|
                    point_in(p0, i, j) && !done_before(x_start as int, y_start as int, x_end as int, y_end as int, x as int, y + 1, i, j)
                    implies (#[trigger] pt(points@, i, j)).climbable == pt(p0, i, j).climbable by {
                    assert(point_in(pk, i, j)) by {
                        assert(pk[i]@.len() == p0[i]@.len());
                    }
                    let _ = pt(pk, i, j);
                    let _ = pt(pc, i, j);
                }
                let g = crate::movement::cells(border_pathing.map@);
                assert forall|k: int| 0 <= k < lines@.len() implies #[trigger] crate::chokes::choke_segment(
                    p0, g, x_start as int, y_start as int, x_end as int, y_end as int, lines@[k]) by {
                    if k < lines_before.len() {
                        assert(lines@[k] == lines_before[k]);
                    }
                }
                assert forall|k: int| 0 <= k < lines@.len() implies crate::chokes::scan_before((#[trigger] lines@[k]).0, (x, (y + 1) as usize)) by {
                    if k < lines_before.len() {
                        assert(lines@[k] == lines_before[k]);
                    }
                }
                assert forall|k1: int, k2: int| 0 <= k1 < k2 < lines@.len() implies crate::chokes::line_before(#[trigger] lines@[k1], #[trigger] lines@[k2]) by {
                    if k2 < lines_before.len() {
                        assert(lines@[k1] == lines_before[k1] && lines@[k2] == lines_before[k2]);
                    } else if k1 < lines_before.len() {
                        assert(lines@[k1] == lines_before[k1]);
                    }
                }
                assert forall|l: Line|
                    #[trigger] crate::chokes::choke_segment(p0, g, x_start as int, y_start as int, x_end as int, y_end as int, l)
                        && crate::chokes::scan_before(l.0, (x, (y + 1) as usize)) implies lines@.contains(l) by {
                    if l.0 != (x, y) {
                        assert(lines_before.contains(l));
                        let k = choose|k: int| 0 <= k < lines_before.len() && lines_before[k] == l;
                        assert(lines@[k] == lines_before[k]);
                    }
                }
            }
            y += 1;
        }
        x += 1;
    }
    Resolved { lines, spots }
}

} // verus!

verus! {

/// Which cost grid of a map a query uses.
#[derive(Clone, Copy, Debug, PartialEq, Eq, Structural)]
pub enum MapType {
    Ground,
    Reaper,
    Colossus,
    Air,
}

pub open spec fn map_type_spec(selector: u8) -> Option<MapType> {
    if selector == 0 {
        Some(MapType::Ground)
    } else if selector == 1 {
        Some(MapType::Reaper)
    } else if selector == 2 {
        Some(MapType::Colossus)
    } else if selector == 3 {
        Some(MapType::Air)
    } else {
        None
    }
}

impl MapType {
    /// Reads the numeric selector of the query surface: 0 ground, 1 reaper,
    /// 2 colossus, 3 air; anything else is no map type.
    pub fn from_selector(selector: u8) -> (r: Option<MapType>)
        ensures
            r == map_type_spec(selector),
    {
        match selector {
            0 => Some(MapType::Ground),
            1 => Some(MapType::Reaper),
            2 => Some(MapType::Colossus),
            3 => Some(MapType::Air),
            _ => None,
        }
    }
}

/// The terrain of a map: per-cell features, four cost grids, overlord spots
/// (fixed-point centres) and chokes.
pub struct TerrainMap {
    pub ground_pathing: PathFind,
    pub air_pathing: PathFind,
    pub colossus_pathing: PathFind,
    pub reaper_pathing: PathFind,
    pub points: Vec<Vec<MapPoint>>,
    pub overlord_spots: Vec<FixedPoint>,
    pub influence_colossus_map: bool,
    pub influence_reaper_map: bool,
    pub chokes: Vec<Choke>,
}

/// The first defect of the construction inputs, if any.
pub open spec fn map_error(
    pathing: Seq<Vec<usize>>,
    placement: Seq<Vec<usize>>,
    height_map: Seq<Vec<usize>>,
    x_start: int,
    y_start: int,
    x_end: int,
    y_end: int,
) -> Option<MapError> {
    if !shaped(pathing) || !shaped(placement) || !shaped(height_map) {
        Some(MapError::BadGrid)
    } else if !same_dims(pathing, placement) || !same_dims(pathing, height_map) {
        Some(MapError::ShapeMismatch)
    } else if !area_ok(pathing.len() as int, pathing[0]@.len() as int, x_start, y_start, x_end, y_end) {
        Some(MapError::BadArea)
    } else {
        None
    }
}

impl TerrainMap {
    pub open spec fn width(&self) -> int {
        self.points@.len() as int
    }

    pub open spec fn height(&self) -> int {
        self.points@[0]@.len() as int
    }

    pub open spec fn wf(&self) -> bool {
        &&& points_ok(self.points@)
        &&& self.ground_pathing.wf()
        &&& self.air_pathing.wf()
        &&& self.colossus_pathing.wf()
        &&& self.reaper_pathing.wf()
        &&& self.ground_pathing.width == self.width() && self.ground_pathing.height == self.height()
        &&& self.air_pathing.width == self.width() && self.air_pathing.height == self.height()
        &&& self.colossus_pathing.width == self.width() && self.colossus_pathing.height == self.height()
        &&& self.reaper_pathing.width == self.width() && self.reaper_pathing.height == self.height()
    }

    pub open spec fn grid_of(&self, t: MapType) -> PathFind {
        match t {
            MapType::Ground => self.ground_pathing,
            MapType::Reaper => self.reaper_pathing,
            MapType::Colossus => self.colossus_pathing,
            MapType::Air => self.air_pathing,
        }
    }

    /// Builds the terrain from walkability, placement and height grids
    /// (indexed `[x][y]`, all of one shape) and the playable area
    /// `(x_start, y_start)..=(x_end, y_end)`, which must leave a one-cell
    /// frame inside the grid.
    #[verifier::rlimit(60)]
    pub fn new(
        pathing: Vec<Vec<usize>>,
        placement: Vec<Vec<usize>>,
        height_map: Vec<Vec<usize>>,
        x_start: usize,
        y_start: usize,
        x_end: usize,
        y_end: usize,
    ) -> (r: Result<TerrainMap, MapError>)
        ensures
            r matches Err(e) ==> map_error(pathing@, placement@, height_map@, x_start as int, y_start as int, x_end as int, y_end as int) == Some(e),
            r is Ok <==> map_error(pathing@, placement@, height_map@, x_start as int, y_start as int, x_end as int, y_end as int) is None,
            r matches Ok(m) ==> {
                &&& m.wf()
                &&& m.width() == pathing@.len()
                &&& m.height() == pathing@[0]@.len()
                &&& forall|x: int, y: int|
                    0 <= x < m.width() && 0 <= y < m.height() ==> #[trigger] classified(
                        pt(m.points@, x, y),
                        pathing@,
                        placement@,
                        height_map@,
                        x_start as int,
                        y_start as int,
                        x_end as int,
                        y_end as int,
                        x,
                        y,
                    )
                &&& forall|x: int, y: int|
                    0 <= x < m.width() && 0 <= y < m.height() ==> (#[trigger] m.ground_pathing.map@[x]@[y]) == cell_value(
                        pt(m.points@, x, y).walkable,
                    )
                &&& forall|x: int, y: int|
                    0 <= x < m.width() && 0 <= y < m.height() ==> (#[trigger] m.air_pathing.map@[x]@[y]) == cell_value(
                        pt(m.points@, x, y).pathable,
                    )
                &&& forall|x: int, y: int|
                    0 <= x < m.width() && 0 <= y < m.height() ==> (#[trigger] pt(m.points@, x, y)).is_border == (scanned(
                        x_start as int,
                        y_start as int,
                        x_end as int,
                        y_end as int,
                        x,
                        y,
                    ) && border_rule(m.points@, x, y))
                &&& forall|i: int| 0 <= i < m.chokes@.len() ==> (#[trigger] m.chokes@[i]).lines@.len() >= crate::chokes::CHOKE_MIN_LINES
                &&& forall|i: int| 0 <= i < m.chokes@.len() ==> crate::chokes::choke_marked(m.points@, #[trigger] m.chokes@[i])
                &&& exists|lines: Seq<Line>|
                    #[trigger] crate::chokes::segment_list(
                        m.points@,
                        frame_cells(m.points@, x_start as int, y_start as int, x_end as int, y_end as int),
                        x_start as int,
                        y_start as int,
                        x_end as int,
                        y_end as int,
                        lines,
                    ) && m.chokes@.len() == crate::chokes::kept(crate::chokes::all_groups(lines)).len() && forall|i: int|
                        0 <= i < m.chokes@.len() ==> crate::chokes::finalized_from(
                            #[trigger] m.chokes@[i],
                            crate::chokes::kept(crate::chokes::all_groups(lines))[i],
                        )
                &&& crate::movement::cells(m.colossus_pathing.map@) == crate::movement::cells(m.reaper_pathing.map@)
                &&& forall|x: int, y: int|
                    0 <= x < m.width() && 0 <= y < m.height() ==> (#[trigger] m.reaper_pathing.map@[x]@[y]) == if scanned(
                        x_start as int,
                        y_start as int,
                        x_end as int,
                        y_end as int,
                        x,
                        y,
                    ) && pt(m.points@, x, y).climbable {
                        1usize
                    } else {
                        cell_value(pt(m.points@, x, y).walkable)
                    }
                &&& crate::movement::cells(m.ground_pathing.original_map@) == crate::movement::cells(m.ground_pathing.map@)
                &&& crate::movement::cells(m.air_pathing.original_map@) == crate::movement::cells(m.air_pathing.map@)
                &&& crate::movement::cells(m.colossus_pathing.original_map@) == crate::movement::cells(m.colossus_pathing.map@)
                &&& crate::movement::cells(m.reaper_pathing.original_map@) == crate::movement::cells(m.reaper_pathing.map@)
            },
    {
        if !is_shaped(&pathing) || !is_shaped(&placement) || !is_shaped(&height_map) {
            return Err(MapError::BadGrid);
        }
        if pathing.len() != placement.len() || pathing.len() != height_map.len() || pathing[0].len() != placement[0].len()
            || pathing[0].len() != height_map[0].len() {
            return Err(MapError::ShapeMismatch);
        }
        let w = pathing.len();
        let h = pathing[0].len();
        if !(1 <= x_start && 1 <= y_start && x_end < w && y_end < h) {
            return Err(MapError::BadArea);
        }
        let classes = classify(&pathing, &placement, &height_map, x_start, y_start, x_end, y_end);
        let Classes { mut points, walk, fly, mut frame } = classes;
        let ghost p1 = points@;
        proof {
            assert(points_ok(p1)) by {
                assert(p1[0]@.len() == h);
            }
            assert forall|x: int, y: int| 0 <= x < w && 0 <= y < h implies (#[trigger] frame@[x]@[y]) <= 1 by {}
        }
        let ghost fr1 = frame@;
        mark_features(&mut points, &mut frame, x_start, y_start, x_end, y_end);
        let ghost p2 = points@;
        let ghost fr2 = frame@;
        proof {
            assert forall|x: int| 0 <= x < w implies (#[trigger] walk@[x]@.len()) == walk@[0]@.len() by {}
            assert(grid_ok(walk@));
            assert(grid_ok(fly@));
            assert forall|x: int| 0 <= x < w implies (#[trigger] frame@[x]@.len()) == frame@[0]@.len() by {
                assert(frame@[x]@.len() == h);
                assert(frame@[0]@.len() == h);
            }
            assert(grid_ok(frame@));
            assert(points_ok(p2)) by {
                assert forall|i: int| 0 <= i < p2.len() implies (#[trigger] p2[i]@.len()) == p2[0]@.len() by {
                    assert(p2[i]@.len() == p1[i]@.len());
                    assert(p2[0]@.len() == p1[0]@.len());
                }
            }
        }
        let mut reaper = clone_grid(&walk);
        let border_pathing = PathFind::from_grid(frame);
        proof {
            assert(p2[0]@.len() == p1[0]@.len());
            assert forall|x: int, y: int| 0 <= x < w && 0 <= y < h implies (#[trigger] reaper@[x]@[y]) <= 1 by {
                assert(reaper@[x]@ == walk@[x]@);
            }
            assert forall|x: int| 0 <= x < w implies (#[trigger] reaper@[x]@.len()) == h by {
                assert(reaper@[x]@ == walk@[x]@);
            }
        }
        let resolved = resolve(&mut points, &mut reaper, &border_pathing, x_start, y_start, x_end, y_end);
        let ghost p3 = points@;
        let Resolved { lines, spots } = resolved;
        proof {
            assert(points_ok(p3)) by {
                assert forall|i: int| 0 <= i < p3.len() implies (#[trigger] p3[i]@.len()) == p3[0]@.len() by {
                    assert(p3[i]@.len() == p2[i]@.len());
                    assert(p2[i]@.len() == p1[i]@.len());
                    assert(p3[0]@.len() == p2[0]@.len());
                    assert(p2[0]@.len() == p1[0]@.len());
                }
            }
        }
        let chokes = group_chokes(&lines, &mut points);
        let ghost p4 = points@;
        proof {
            let fc = frame_cells(p4, x_start as int, y_start as int, x_end as int, y_end as int);
            lemma_keeps_base_trans(p2, p3, p4);
            lemma_marks_keep_borders(p3, p4);
            lemma_keeps_borders_trans(p2, p3, p4);
            assert(crate::movement::cells(fr2) =~~= fc) by {
                assert forall|i: int| 0 <= i < w implies #[trigger] crate::movement::cells(fr2)[i] =~= fc[i] by {
                    assert(fr2[i]@.len() == h);
                    assert forall|j: int| 0 <= j < h implies fr2[i]@[j] == fc[i][j] by {
                        assert(point_in(p1, i, j));
                        assert(fresh(p1[i]@[j], pathing@, placement@, height_map@, x_start as int, y_start as int, x_end as int, y_end as int, i, j));
                        assert(point_in(p2, i, j)) by {
                            assert(p2[i]@.len() == p1[i]@.len());
                        }
                        let _ = pt(p2, i, j);
                        let _ = pt(p4, i, j);
                        if scanned(x_start as int, y_start as int, x_end as int, y_end as int, i, j) {
                            assert(p1[i - 1]@.len() == h && p1[i + 1]@.len() == h);
                            lemma_rule_kept(p1, p4, i, j);
                        }
                    }
                }
            }
            lemma_segment_list_kept(p2, p4, crate::movement::cells(fr2), x_start as int, y_start as int, x_end as int, y_end as int, lines@);
            assert(crate::chokes::segment_list(p4, fc, x_start as int, y_start as int, x_end as int, y_end as int, lines@));
            lemma_marks_keep_base(p3, p4);
            lemma_keeps_base_trans(p2, p3, p4);
            lemma_keeps_base_trans(p1, p2, p4);
            lemma_marks_keep_borders(p3, p4);
            lemma_keeps_borders_trans(p2, p3, p4);
            assert forall|x: int, y: int| 0 <= x < w && 0 <= y < h implies (#[trigger] reaper@[x]@[y]) == if scanned(
                x_start as int,
                y_start as int,
                x_end as int,
                y_end as int,
                x,
                y,
            ) && pt(p4, x, y).climbable {
                1usize
            } else {
                cell_value(pt(p4, x, y).walkable)
            } by {
                assert(point_in(p2, x, y)) by {
                    assert(p2[x]@.len() == p1[x]@.len());
                    assert(p1[x]@.len() == h);
                }
                assert(point_in(p3, x, y));
                let _ = pt(p3, x, y);
                let _ = pt(p1, x, y);
                assert(pt(p4, x, y) == (MapPoint { is_choke: pt(p4, x, y).is_choke, ..pt(p3, x, y) }));
            }
            assert forall|x: int, y: int| 0 <= x < w && 0 <= y < h implies (#[trigger] pt(p4, x, y)).is_border == (scanned(
                x_start as int,
                y_start as int,
                x_end as int,
                y_end as int,
                x,
                y,
            ) && border_rule(p4, x, y)) by {
                assert(point_in(p1, x, y));
                assert(point_in(p2, x, y));
                assert(fresh(p1[x]@[y], pathing@, placement@, height_map@, x_start as int, y_start as int, x_end as int, y_end as int, x, y));
                if scanned(x_start as int, y_start as int, x_end as int, y_end as int, x, y) {
                    assert(p1[x - 1]@.len() == h && p1[x + 1]@.len() == h);
                    lemma_rule_kept(p1, p4, x, y);
                }
            }
            assert(p4[0]@.len() == p1[0]@.len());
            assert(points_ok(p4)) by {
                assert forall|i: int| 0 <= i < p4.len() implies (#[trigger] p4[i]@.len()) == p4[0]@.len() by {
                    assert(p4[i]@.len() == p1[i]@.len());
                }
            }
            assert forall|x: int| 0 <= x < w implies (#[trigger] reaper@[x]@.len()) == reaper@[0]@.len() by {}
            assert(grid_ok(reaper@));
            assert forall|x: int, y: int| 0 <= x < w && 0 <= y < h implies #[trigger] classified(
                pt(p4, x, y),
                pathing@,
                placement@,
                height_map@,
                x_start as int,
                y_start as int,
                x_end as int,
                y_end as int,
                x,
                y,
            ) && walk@[x]@[y] == cell_value(pt(p4, x, y).walkable) && fly@[x]@[y] == cell_value(pt(p4, x, y).pathable) by {
                assert(fresh(p1[x]@[y], pathing@, placement@, height_map@, x_start as int, y_start as int, x_end as int, y_end as int, x, y));
                assert(point_in(p1, x, y));
            }
        }
        let colossus = clone_grid(&reaper);
        proof {
            crate::movement::lemma_same_cells(colossus@, reaper@);
        }
        let ground_pathing = PathFind::from_grid(walk);
        let air_pathing = PathFind::from_grid(fly);
        let colossus_pathing = PathFind::from_grid(colossus);
        let reaper_pathing = PathFind::from_grid(reaper);
        Ok(
            TerrainMap {
                ground_pathing,
                air_pathing,
                colossus_pathing,
                reaper_pathing,
                points,
                overlord_spots: spots,
                influence_colossus_map: false,
                influence_reaper_map: false,
                chokes,
            },
        )
    }
}

} // verus!

verus! {

/// The diagnostic code of a cell in the climb drawing.
pub open spec fn climb_code(p: MapPoint, ground: usize) -> usize {
    if ground > 0 {
        match p.cliff_type {
            Cliff::High => 5,
            Cliff::Both => 4,
            Cliff::Low => 3,
            Cliff::Neither => 2,
        }
    } else if p.climbable {
        1
    } else if p.overlord_spot {
        6
    } else {
        0
    }
}

/// The diagnostic code of a cell in the choke drawing.
pub open spec fn choke_code(p: MapPoint) -> usize {
    if p.is_border {
        if p.is_choke {
            175
        } else {
            255
        }
    } else if p.is_choke {
        100
    } else {
        0
    }
}

impl TerrainMap {
    pub fn get_ground_pathing(&self) -> (r: Vec<Vec<usize>>)
        ensures
            crate::movement::cells(r@) == crate::movement::cells(self.ground_pathing.map@),
    {
        self.ground_pathing.get_map()
    }

    pub fn get_air_pathing(&self) -> (r: Vec<Vec<usize>>)
        ensures
            crate::movement::cells(r@) == crate::movement::cells(self.air_pathing.map@),
    {
        self.air_pathing.get_map()
    }

    pub fn get_reaper_pathing(&self) -> (r: Vec<Vec<usize>>)
        ensures
            crate::movement::cells(r@) == crate::movement::cells(self.reaper_pathing.map@),
    {
        self.reaper_pathing.get_map()
    }

    pub fn get_colossus_pathing(&self) -> (r: Vec<Vec<usize>>)
        ensures
            crate::movement::cells(r@) == crate::movement::cells(self.colossus_pathing.map@),
    {
        self.colossus_pathing.get_map()
    }

    pub fn get_overlord_spots(&self) -> (r: Vec<FixedPoint>)
        ensures
            r@ == self.overlord_spots@,
    {
        crate::chokes::copy_items(&self.overlord_spots)
    }

    /// The cost grid a query of type `t` uses.
    pub fn get_map(&self, t: MapType) -> (r: &PathFind)
        ensures
            *r == self.grid_of(t),
    {
        match t {
            MapType::Ground => &self.ground_pathing,
            MapType::Reaper => &self.reaper_pathing,
            MapType::Colossus => &self.colossus_pathing,
            MapType::Air => &self.air_pathing,
        }
    }

    /// Every border cell, in scan order.
    pub fn get_borders(&self) -> (r: Vec<Cell>)
        requires
            self.wf(),
        ensures
            forall|c: Cell|
                r@.contains(c) <==> point_in(self.points@, c.0 as int, c.1 as int) && pt(self.points@, c.0 as int, c.1 as int).is_border,
            r@.no_duplicates(),
    {
        let w = self.points.len();
        let h = self.points[0].len();
        let mut result: Vec<Cell> = Vec::new();
        let mut x: usize = 0;
        while x < w
            invariant
                self.wf(),
                w == self.width(),
                h == self.height(),
                x <= w,
                forall|c: Cell|
                    result@.contains(c) <==> point_in(self.points@, c.0 as int, c.1 as int) && c.0 < x && pt(self.points@, c.0 as int, c.1 as int).is_border,
                result@.no_duplicates(),
                forall|q: int| 0 <= q < result@.len() ==> (#[trigger] result@[q]).0 < x,
            decreases w - x,
        {
            assert(self.points@[x as int]@.len() == h);
            let mut y: usize = 0;
            while y < h
                invariant
                    self.wf(),
                    w == self.width(),
                    h == self.height(),
                    x < w,
                    y <= h,
                    self.points@[x as int]@.len() == h,
                    forall|c: Cell|
                        result@.contains(c) <==> point_in(self.points@, c.0 as int, c.1 as int) && (c.0 < x || (c.0 == x && c.1 < y))
                            && pt(self.points@, c.0 as int, c.1 as int).is_border,
                    result@.no_duplicates(),
                    forall|q: int| 0 <= q < result@.len() ==> (#[trigger] result@[q]).0 < x || (result@[q].0 == x && result@[q].1 < y),
                decreases h - y,
            {
                let ghost before = result@;
                if self.points[x][y].is_border {
                    result.push((x, y));
                    proof {
                        assert forall|a: int, b: int| 0 <= a < b < result@.len() implies result@[a] != result@[b] by {
                            if b == before.len() {
                                assert(result@[a] == before[a]);
                            } else {
                                assert(result@[a] == before[a] && result@[b] == before[b]);
                            }
                        }
                        assert forall|q: int| 0 <= q < result@.len() implies (#[trigger] result@[q]).0 < x || (result@[q].0 == x && result@[q].1 < y + 1) by {
                            if q < before.len() {
                                assert(result@[q] == before[q]);
                            }
                        }
                    }
                }
                proof {
                    assert forall|c: Cell| result@.contains(c) <==> point_in(self.points@, c.0 as int, c.1 as int) && (c.0 < x || (c.0
                        == x && c.1 < y + 1)) && pt(self.points@, c.0 as int, c.1 as int).is_border by {
                        if result@.contains(c) && !before.contains(c) {
                            let k = choose|k: int| 0 <= k < result@.len() && result@[k] == c;
                            assert(k == before.len());
                        }
                        if before.contains(c) {
                            let k = choose|k: int| 0 <= k < before.len() && before[k] == c;
                            assert(result@[k] == c);
                        }
                        if c == (x, y) && self.points@[x as int]@[y as int].is_border {
                            assert(result@[result@.len() - 1] == c);
                        }
                    }
                }
                y += 1;
            }
            x += 1;
        }
        result
    }

    /// A grid of climb codes: on walkable cells 5 high side, 4 both sides,
    /// 3 low side, 2 none; elsewhere 1 climbable, 6 overlord spot, else 0.
    pub fn draw_climbs(&self) -> (r: Vec<Vec<usize>>)
        requires
            self.wf(),
        ensures
            r@.len() == self.width(),
            forall|x: int| 0 <= x < self.width() ==> (#[trigger] r@[x]@.len()) == self.height(),
            forall|x: int, y: int|
                0 <= x < self.width() && 0 <= y < self.height() ==> (#[trigger] r@[x]@[y]) == climb_code(
                    pt(self.points@, x, y),
                    self.ground_pathing.map@[x]@[y],
                ),
    {
        let w = self.points.len();
        let h = self.points[0].len();
        let mut out: Vec<Vec<usize>> = Vec::new();
        let mut x: usize = 0;
        while x < w
            invariant
                self.wf(),
                w == self.width(),
                h == self.height(),
                x <= w,
                out@.len() == x,
                forall|i: int| 0 <= i < x ==> (#[trigger] out@[i]@.len()) == h,
                forall|i: int, j: int|
                    0 <= i < x && 0 <= j < h ==> (#[trigger] out@[i]@[j]) == climb_code(pt(self.points@, i, j), self.ground_pathing.map@[i]@[j]),
            decreases w - x,
        {
            assert(self.points@[x as int]@.len() == h);
            assert(self.ground_pathing.map@[x as int]@.len() == h);
            let mut row: Vec<usize> = Vec::new();
            let mut y: usize = 0;
            while y < h
                invariant
                    self.wf(),
                    w == self.width(),
                    h == self.height(),
                    x < w,
                    y <= h,
                    self.points@[x as int]@.len() == h,
                    self.ground_pathing.map@[x as int]@.len() == h,
                    row@.len() == y,
                    forall|j: int| 0 <= j < y ==> (#[trigger] row@[j]) == climb_code(pt(self.points@, x as int, j), self.ground_pathing.map@[x as int]@[j]),
                decreases h - y,
            {
                let p = self.points[x][y];
                let code: usize = if self.ground_pathing.map[x][y] > 0 {
                    match p.cliff_type {
                        Cliff::High => 5,
                        Cliff::Both => 4,
                        Cliff::Low => 3,
                        Cliff::Neither => 2,
                    }
                } else if p.climbable {
                    1
                } else if p.overlord_spot {
                    6
                } else {
                    0
                };
                row.push(code);
                y += 1;
            }
            let ghost prev = out@;
            out.push(row);
            proof {
                assert forall|i: int, j: int| 0 <= i < x + 1 && 0 <= j < h implies (#[trigger] out@[i]@[j]) == climb_code(pt(self.points@, i, j), self.ground_pathing.map@[i]@[j]) by {
                    if i < x {
                        assert(out@[i] == prev[i]);
                    }
                }
                assert forall|i: int| 0 <= i < x + 1 implies (#[trigger] out@[i]@.len()) == h by {
                    if i < x {
                        assert(out@[i] == prev[i]);
                    }
                }
            }
            x += 1;
        }
        out
    }

    /// A grid of choke codes: border cells 175 on a choke, else 255; other
    /// choke cells 100; everything else 0.
    pub fn draw_chokes(&self) -> (r: Vec<Vec<usize>>)
        requires
            self.wf(),
        ensures
            r@.len() == self.width(),
            forall|x: int| 0 <= x < self.width() ==> (#[trigger] r@[x]@.len()) == self.height(),
            forall|x: int, y: int|
                0 <= x < self.width() && 0 <= y < self.height() ==> (#[trigger] r@[x]@[y]) == choke_code(pt(self.points@, x, y)),
    {
        let w = self.points.len();
        let h = self.points[0].len();
        let mut out: Vec<Vec<usize>> = Vec::new();
        let mut x: usize = 0;
        while x < w
            invariant
                self.wf(),
                w == self.width(),
                h == self.height(),
                x <= w,
                out@.len() == x,
                forall|i: int| 0 <= i < x ==> (#[trigger] out@[i]@.len()) == h,
                forall|i: int, j: int| 0 <= i < x && 0 <= j < h ==> (#[trigger] out@[i]@[j]) == choke_code(pt(self.points@, i, j)),
            decreases w - x,
        {
            assert(self.points@[x as int]@.len() == h);
            let mut row: Vec<usize> = Vec::new();
            let mut y: usize = 0;
            while y < h
                invariant
                    self.wf(),
                    w == self.width(),
                    h == self.height(),
                    x < w,
                    y <= h,
                    self.points@[x as int]@.len() == h,
                    row@.len() == y,
                    forall|j: int| 0 <= j < y ==> (#[trigger] row@[j]) == choke_code(pt(self.points@, x as int, j)),
                decreases h - y,
            {
                let p = self.points[x][y];
                let code: usize = if p.is_border {
                    if p.is_choke {
                        175
                    } else {
                        255
                    }
                } else if p.is_choke {
                    100
                } else {
                    0
                };
                row.push(code);
                y += 1;
            }
            let ghost prev = out@;
            out.push(row);
            proof {
                assert forall|i: int, j: int| 0 <= i < x + 1 && 0 <= j < h implies (#[trigger] out@[i]@[j]) == choke_code(pt(self.points@, i, j)) by {
                    if i < x {
                        assert(out@[i] == prev[i]);
                    }
                }
                assert forall|i: int| 0 <= i < x + 1 implies (#[trigger] out@[i]@.len()) == h by {
                    if i < x {
                        assert(out@[i] == prev[i]);
                    }
                }
            }
            x += 1;
        }
        out
    }

    /// Restores every cost grid to the costs it was built with.
    pub fn reset(&mut self)
        requires
            old(self).wf(),
        ensures
            final(self).wf(),
            crate::movement::cells(final(self).ground_pathing.map@) == crate::movement::cells(old(self).ground_pathing.original_map@),
            crate::movement::cells(final(self).air_pathing.map@) == crate::movement::cells(old(self).air_pathing.original_map@),
            crate::movement::cells(final(self).colossus_pathing.map@) == crate::movement::cells(old(self).colossus_pathing.original_map@),
            crate::movement::cells(final(self).reaper_pathing.map@) == crate::movement::cells(old(self).reaper_pathing.original_map@),
            final(self).points@ == old(self).points@,
            final(self).ground_pathing.original_map@ == old(self).ground_pathing.original_map@,
            final(self).air_pathing.original_map@ == old(self).air_pathing.original_map@,
            final(self).colossus_pathing.original_map@ == old(self).colossus_pathing.original_map@,
            final(self).reaper_pathing.original_map@ == old(self).reaper_pathing.original_map@,
    {
        self.ground_pathing.reset_void();
        self.air_pathing.reset_void();
        self.colossus_pathing.reset_void();
        self.reaper_pathing.reset_void();
    }

    /// Normalises the influence of every cost grid to `value`.
    pub fn normalize_influence(&mut self, value: usize)
        requires
            old(self).wf(),
            value <= MAX_CELL,
        ensures
            final(self).wf(),
            crate::influence::normalized(old(self).ground_pathing.map@, final(self).ground_pathing.map@, value),
            crate::influence::normalized(old(self).air_pathing.map@, final(self).air_pathing.map@, value),
            crate::influence::normalized(old(self).colossus_pathing.map@, final(self).colossus_pathing.map@, value),
            crate::influence::normalized(old(self).reaper_pathing.map@, final(self).reaper_pathing.map@, value),
            final(self).ground_pathing.normal_influence == value,
            final(self).air_pathing.normal_influence == value,
            final(self).colossus_pathing.normal_influence == value,
            final(self).reaper_pathing.normal_influence == value,
            final(self).points@ == old(self).points@,
            final(self).ground_pathing.original_map@ == old(self).ground_pathing.original_map@,
            final(self).air_pathing.original_map@ == old(self).air_pathing.original_map@,
            final(self).colossus_pathing.original_map@ == old(self).colossus_pathing.original_map@,
            final(self).reaper_pathing.original_map@ == old(self).reaper_pathing.original_map@,
    {
        self.ground_pathing.normalize_influence(value);
        self.air_pathing.normalize_influence(value);
        self.colossus_pathing.normalize_influence(value);
        self.reaper_pathing.normalize_influence(value);
    }

    /// Blocks the rectangles on the ground, colossus and reaper grids.
    pub fn create_blocks(&mut self, centers: &Vec<Cell>, size: (usize, usize))
        requires
            old(self).wf(),
        ensures
            final(self).wf(),
            crate::influence::cells_follow(
                old(self).ground_pathing.map@,
                final(self).ground_pathing.map@,
                crate::influence::blocks_value(centers@, size, old(self).ground_pathing.width, old(self).ground_pathing.height, 0),
            ),
            crate::influence::cells_follow(
                old(self).colossus_pathing.map@,
                final(self).colossus_pathing.map@,
                crate::influence::blocks_value(centers@, size, old(self).colossus_pathing.width, old(self).colossus_pathing.height, 0),
            ),
            crate::influence::cells_follow(
                old(self).reaper_pathing.map@,
                final(self).reaper_pathing.map@,
                crate::influence::blocks_value(centers@, size, old(self).reaper_pathing.width, old(self).reaper_pathing.height, 0),
            ),
            final(self).air_pathing == old(self).air_pathing,
            final(self).points@ == old(self).points@,
            final(self).ground_pathing.original_map@ == old(self).ground_pathing.original_map@,
            final(self).air_pathing.original_map@ == old(self).air_pathing.original_map@,
            final(self).colossus_pathing.original_map@ == old(self).colossus_pathing.original_map@,
            final(self).reaper_pathing.original_map@ == old(self).reaper_pathing.original_map@,
    {
        self.ground_pathing.create_blocks(centers, size);
        self.colossus_pathing.create_blocks(centers, size);
        self.reaper_pathing.create_blocks(centers, size);
    }

    /// Opens the rectangles on the ground, colossus and reaper grids.
    pub fn remove_blocks(&mut self, centers: &Vec<Cell>, size: (usize, usize))
        requires
            old(self).wf(),
        ensures
            final(self).wf(),
            crate::influence::cells_follow(
                old(self).ground_pathing.map@,
                final(self).ground_pathing.map@,
                crate::influence::blocks_value(centers@, size, old(self).ground_pathing.width, old(self).ground_pathing.height, old(self).ground_pathing.normal_influence),
            ),
            crate::influence::cells_follow(
                old(self).colossus_pathing.map@,
                final(self).colossus_pathing.map@,
                crate::influence::blocks_value(centers@, size, old(self).colossus_pathing.width, old(self).colossus_pathing.height, old(self).colossus_pathing.normal_influence),
            ),
            crate::influence::cells_follow(
                old(self).reaper_pathing.map@,
                final(self).reaper_pathing.map@,
                crate::influence::blocks_value(centers@, size, old(self).reaper_pathing.width, old(self).reaper_pathing.height, old(self).reaper_pathing.normal_influence),
            ),
            final(self).air_pathing == old(self).air_pathing,
            final(self).points@ == old(self).points@,
            final(self).ground_pathing.original_map@ == old(self).ground_pathing.original_map@,
            final(self).air_pathing.original_map@ == old(self).air_pathing.original_map@,
            final(self).colossus_pathing.original_map@ == old(self).colossus_pathing.original_map@,
            final(self).reaper_pathing.original_map@ == old(self).reaper_pathing.original_map@,
    {
        self.ground_pathing.remove_blocks(centers, size);
        self.colossus_pathing.remove_blocks(centers, size);
        self.reaper_pathing.remove_blocks(centers, size);
    }

    /// `find_path` on the grid of type `t`.
    pub fn find_path(&self, t: MapType, start: Cell, end: Cell, possible_heuristic: Option<u8>) -> (r: Result<
        (Vec<Cell>, u64),
        crate::pathfind::PathError,
    >)
        requires
            self.wf(),
        ensures
            r is Err <==> !self.grid_of(t).contains(start) || !self.grid_of(t).contains(end),
            r matches Ok((path, d)) ==> crate::pathfind::route(
                crate::movement::Movement::Normal,
                self.grid_of(t).map@,
                self.grid_of(t).closest(start),
                self.grid_of(t).closest(end),
                crate::search::heuristic_spec_of(possible_heuristic),
                1,
                None,
                path@,
                d,
            ),
            r matches Ok((path, d)) ==> (possible_heuristic == Some(1u8) && path@.len() > 0) ==> forall|q: Seq<Cell>|
                q.len() > 0 && q[0] == self.grid_of(t).closest(start) && #[trigger] crate::search::is_walk(
                    crate::movement::Movement::Normal,
                    self.grid_of(t).map@,
                    q,
                ) && q.last() == self.grid_of(t).closest(end) ==> d <= crate::search::path_cost(
                    crate::movement::Movement::Normal,
                    self.grid_of(t).map@,
                    q,
                ),
    {
        self.get_map(t).find_path(start, end, possible_heuristic)
    }

    /// `find_path_large` on the grid of type `t`.
    pub fn find_path_large(&self, t: MapType, start: Cell, end: Cell, possible_heuristic: Option<u8>) -> (r: Result<
        (Vec<Cell>, u64),
        crate::pathfind::PathError,
    >)
        requires
            self.wf(),
        ensures
            r is Err <==> !self.grid_of(t).contains(start) || !self.grid_of(t).contains(end),
            r matches Ok((path, d)) ==> crate::pathfind::route(
                crate::movement::Movement::Large,
                self.grid_of(t).map@,
                self.grid_of(t).closest(start),
                self.grid_of(t).closest(end),
                crate::search::heuristic_spec_of(possible_heuristic),
                1,
                None,
                path@,
                d,
            ),
    {
        self.get_map(t).find_path_large(start, end, possible_heuristic)
    }

    /// `find_path_influence` on the grid of type `t`.
    pub fn find_path_influence(&self, t: MapType, start: Cell, end: Cell, possible_heuristic: Option<u8>) -> (r: Result<
        (Vec<Cell>, u64),
        crate::pathfind::PathError,
    >)
        requires
            self.wf(),
        ensures
            r is Err <==> !self.grid_of(t).contains(start) || !self.grid_of(t).contains(end),
            r matches Ok((path, d)) ==> crate::pathfind::route(
                crate::movement::Movement::Influenced,
                self.grid_of(t).map@,
                self.grid_of(t).closest(start),
                self.grid_of(t).closest(end),
                crate::search::heuristic_spec_of(possible_heuristic),
                self.grid_of(t).normal_influence as int,
                None,
                path@,
                d,
            ),
    {
        self.get_map(t).find_path_influence(start, end, possible_heuristic)
    }

    /// `find_path_influence_large` on the grid of type `t`.
    pub fn find_path_influence_large(&self, t: MapType, start: Cell, end: Cell, possible_heuristic: Option<u8>) -> (r:
        Result<(Vec<Cell>, u64), crate::pathfind::PathError>)
        requires
            self.wf(),
        ensures
            r is Err <==> !self.grid_of(t).contains(start) || !self.grid_of(t).contains(end),
            r matches Ok((path, d)) ==> crate::pathfind::route(
                crate::movement::Movement::InfluencedLarge,
                self.grid_of(t).map@,
                self.grid_of(t).closest(start),
                self.grid_of(t).closest(end),
                crate::search::heuristic_spec_of(possible_heuristic),
                self.grid_of(t).normal_influence as int,
                None,
                path@,
                d,
            ),
    {
        self.get_map(t).find_path_influence_large(start, end, possible_heuristic)
    }
}

} // verus!

verus! {

/// The effect of an influence call on one grid. An untouched grid stays as
/// it was. A touched grid gains `amount` exactly on its open cells when none
/// would reach `MAX_CELL`, and keeps its costs otherwise.
pub open spec fn grid_raised(before: PathFind, after: PathFind, touched: bool, amount: spec_fn(int, int) -> int) -> bool {
    &&& after.wf()
    &&& after.original_map@ == before.original_map@
    &&& after.normal_influence == before.normal_influence
    &&& after.auto_correct == before.auto_correct
    &&& after.width == before.width
    &&& after.height == before.height
    &&& if touched {
        &&& crate::influence::stays_below(before.map@, amount) ==> crate::influence::cells_follow(
            before.map@,
            after.map@,
            crate::influence::added_by(amount),
        )
        &&& !crate::influence::stays_below(before.map@, amount) ==> crate::movement::cells(after.map@)
            == crate::movement::cells(before.map@)
    } else {
        after == before
    }
}

/// The call succeeds exactly when no touched grid would reach `MAX_CELL`.
pub open spec fn all_fit(before: PathFind, touched: bool, amount: spec_fn(int, int) -> int) -> bool {
    touched ==> crate::influence::stays_below(before.map@, amount)
}

pub open spec fn spread_of(g: PathFind, kind: crate::influence::Falloff, max: usize, reach: u64, positions: Seq<Cell>) -> spec_fn(int, int) -> int {
    crate::influence::spread_amount(kind, max, reach, g.width, g.height, positions)
}

pub open spec fn walk_of(g: PathFind, max: usize, reach: u64, positions: Seq<Cell>) -> spec_fn(int, int) -> int {
    crate::influence::walk_amount(crate::influence::Falloff::Linear, g.map@, g.auto_correct, max, reach, positions)
}

/// Grid set selector of `add_influence_fading`: only the ground grid.
pub const MAPS_PURE_GROUND: usize = 0;

/// Grid set selector: the ground grid and the grids that take ground influence.
pub const MAPS_GROUND: usize = 1;

/// Grid set selector: the air grid (and the colossus grid when it takes influence).
pub const MAPS_AIR: usize = 2;

/// The grids `add_influence_fading` raises: ground, air, colossus, reaper.
pub open spec fn fading_grids(map_type: usize, colossus: bool, reaper: bool) -> (bool, bool, bool, bool) {
    if map_type == MAPS_PURE_GROUND {
        (true, false, false, reaper)
    } else if map_type == MAPS_GROUND {
        (true, false, colossus, reaper)
    } else if map_type == MAPS_AIR {
        (false, true, colossus, false)
    } else {
        (true, true, colossus, reaper)
    }
}

impl TerrainMap {
    fn spread_on(
        &mut self,
        ground: bool,
        air: bool,
        colossus: bool,
        reaper: bool,
        positions: &Vec<Cell>,
        max: usize,
        reach: u64,
        kind: crate::influence::Falloff,
    ) -> (r: Result<(), crate::pathfind::GridError>)
        requires
            old(self).wf(),
        ensures
            final(self).wf(),
            grid_raised(old(self).ground_pathing, final(self).ground_pathing, ground, spread_of(old(self).ground_pathing, kind, max, reach, positions@)),
            grid_raised(old(self).air_pathing, final(self).air_pathing, air, spread_of(old(self).air_pathing, kind, max, reach, positions@)),
            grid_raised(old(self).colossus_pathing, final(self).colossus_pathing, colossus, spread_of(old(self).colossus_pathing, kind, max, reach, positions@)),
            grid_raised(old(self).reaper_pathing, final(self).reaper_pathing, reaper, spread_of(old(self).reaper_pathing, kind, max, reach, positions@)),
            r is Ok <==> all_fit(old(self).ground_pathing, ground, spread_of(old(self).ground_pathing, kind, max, reach, positions@))
                && all_fit(old(self).air_pathing, air, spread_of(old(self).air_pathing, kind, max, reach, positions@))
                && all_fit(old(self).colossus_pathing, colossus, spread_of(old(self).colossus_pathing, kind, max, reach, positions@))
                && all_fit(old(self).reaper_pathing, reaper, spread_of(old(self).reaper_pathing, kind, max, reach, positions@)),
            final(self).points@ == old(self).points@,
            final(self).influence_colossus_map == old(self).influence_colossus_map,
            final(self).influence_reaper_map == old(self).influence_reaper_map,
    {
        let mut ok = true;
        if ground {
            ok = self.ground_pathing.add_influence_with(positions, max, reach, kind).is_ok() && ok;
        }
        if air {
            ok = self.air_pathing.add_influence_with(positions, max, reach, kind).is_ok() && ok;
        }
        if colossus {
            ok = self.colossus_pathing.add_influence_with(positions, max, reach, kind).is_ok() && ok;
        }
        if reaper {
            ok = self.reaper_pathing.add_influence_with(positions, max, reach, kind).is_ok() && ok;
        }
        if ok {
            Ok(())
        } else {
            Err(crate::pathfind::GridError::CostTooHigh)
        }
    }

    /// Adds `influence` to the open cells whose octile distance to a source
    /// lies strictly between `min` and `max` (fixed point), on the ground grid
    /// and the grids that take ground influence. A grid on which an open cell
    /// would reach `MAX_CELL` keeps its costs, and the call returns
    /// `CostTooHigh`.
    pub fn add_influence_flat_hollow(&mut self, positions: &Vec<Cell>, influence: usize, min: u64, max: u64) -> (r: Result<
        (),
        crate::pathfind::GridError,
    >)
        requires
            old(self).wf(),
        ensures
            final(self).wf(),
            ({
                let kind = crate::influence::Falloff::Hollow(min);
                let c = old(self).influence_colossus_map;
                let rr = old(self).influence_reaper_map;
                &&& grid_raised(old(self).ground_pathing, final(self).ground_pathing, true, spread_of(old(self).ground_pathing, kind, influence, max, positions@))
                &&& grid_raised(old(self).air_pathing, final(self).air_pathing, false, spread_of(old(self).air_pathing, kind, influence, max, positions@))
                &&& grid_raised(old(self).colossus_pathing, final(self).colossus_pathing, c, spread_of(old(self).colossus_pathing, kind, influence, max, positions@))
                &&& grid_raised(old(self).reaper_pathing, final(self).reaper_pathing, rr, spread_of(old(self).reaper_pathing, kind, influence, max, positions@))
                &&& r is Ok <==> all_fit(old(self).ground_pathing, true, spread_of(old(self).ground_pathing, kind, influence, max, positions@))
                    && all_fit(old(self).colossus_pathing, c, spread_of(old(self).colossus_pathing, kind, influence, max, positions@))
                    && all_fit(old(self).reaper_pathing, rr, spread_of(old(self).reaper_pathing, kind, influence, max, positions@))
            }),
            final(self).points@ == old(self).points@,
    {
        let c = self.influence_colossus_map;
        let r = self.influence_reaper_map;
        self.spread_on(true, false, c, r, positions, influence, max, crate::influence::Falloff::Hollow(min))
    }

    /// Adds `influence` within `min` of a source and a linearly fading amount
    /// out to `max` (fixed point). `map_type` picks the grids (see
    /// `fading_grids`): `MAPS_PURE_GROUND` ground (and reaper when it takes
    /// influence), `MAPS_GROUND` ground (and colossus, reaper), `MAPS_AIR` air
    /// (and colossus), anything else ground and air (and colossus, reaper). A
    /// grid on which an open cell would reach `MAX_CELL` keeps its costs, and
    /// the call returns `CostTooHigh`.
    pub fn add_influence_fading(&mut self, map_type: usize, positions: &Vec<Cell>, influence: usize, min: u64, max: u64) -> (r:
        Result<(), crate::pathfind::GridError>)
        requires
            old(self).wf(),
        ensures
            final(self).wf(),
            ({
                let kind = crate::influence::Falloff::Fading(min);
                let (g, a, cc, rr) = fading_grids(map_type, old(self).influence_colossus_map, old(self).influence_reaper_map);
                &&& grid_raised(old(self).ground_pathing, final(self).ground_pathing, g, spread_of(old(self).ground_pathing, kind, influence, max, positions@))
                &&& grid_raised(old(self).air_pathing, final(self).air_pathing, a, spread_of(old(self).air_pathing, kind, influence, max, positions@))
                &&& grid_raised(old(self).colossus_pathing, final(self).colossus_pathing, cc, spread_of(old(self).colossus_pathing, kind, influence, max, positions@))
                &&& grid_raised(old(self).reaper_pathing, final(self).reaper_pathing, rr, spread_of(old(self).reaper_pathing, kind, influence, max, positions@))
                &&& r is Ok <==> all_fit(old(self).ground_pathing, g, spread_of(old(self).ground_pathing, kind, influence, max, positions@))
                    && all_fit(old(self).air_pathing, a, spread_of(old(self).air_pathing, kind, influence, max, positions@))
                    && all_fit(old(self).colossus_pathing, cc, spread_of(old(self).colossus_pathing, kind, influence, max, positions@))
                    && all_fit(old(self).reaper_pathing, rr, spread_of(old(self).reaper_pathing, kind, influence, max, positions@))
            }),
            final(self).points@ == old(self).points@,
    {
        let c = self.influence_colossus_map;
        let r = self.influence_reaper_map;
        let kind = crate::influence::Falloff::Fading(min);
        if map_type == MAPS_PURE_GROUND {
            self.spread_on(true, false, false, r, positions, influence, max, kind)
        } else if map_type == MAPS_GROUND {
            self.spread_on(true, false, c, r, positions, influence, max, kind)
        } else if map_type == MAPS_AIR {
            self.spread_on(false, true, c, false, positions, influence, max, kind)
        } else {
            self.spread_on(true, true, c, r, positions, influence, max, kind)
        }
    }

    /// Adds walk influence (see `PathFind::add_walk_influence`) to the ground
    /// grid and to the grids that take ground influence, each walking on its
    /// own costs. A grid on which an open cell would reach `MAX_CELL` keeps its
    /// costs, and the call returns `CostTooHigh`.
    pub fn add_influence_walk(&mut self, positions: &Vec<Cell>, influence: usize, distance: u64) -> (r: Result<
        (),
        crate::pathfind::GridError,
    >)
        requires
            old(self).wf(),
        ensures
            final(self).wf(),
            ({
                let c = old(self).influence_colossus_map;
                let rr = old(self).influence_reaper_map;
                &&& grid_raised(old(self).ground_pathing, final(self).ground_pathing, true, walk_of(old(self).ground_pathing, influence, distance, positions@))
                &&& grid_raised(old(self).air_pathing, final(self).air_pathing, false, walk_of(old(self).air_pathing, influence, distance, positions@))
                &&& grid_raised(old(self).colossus_pathing, final(self).colossus_pathing, c, walk_of(old(self).colossus_pathing, influence, distance, positions@))
                &&& grid_raised(old(self).reaper_pathing, final(self).reaper_pathing, rr, walk_of(old(self).reaper_pathing, influence, distance, positions@))
                &&& r is Ok <==> all_fit(old(self).ground_pathing, true, walk_of(old(self).ground_pathing, influence, distance, positions@))
                    && all_fit(old(self).colossus_pathing, c, walk_of(old(self).colossus_pathing, influence, distance, positions@))
                    && all_fit(old(self).reaper_pathing, rr, walk_of(old(self).reaper_pathing, influence, distance, positions@))
            }),
            final(self).points@ == old(self).points@,
    {
        let mut ok = self.ground_pathing.add_walk_influence(positions, influence, distance).is_ok();
        if self.influence_colossus_map {
            ok = self.colossus_pathing.add_walk_influence(positions, influence, distance).is_ok() && ok;
        }
        if self.influence_reaper_map {
            ok = self.reaper_pathing.add_walk_influence(positions, influence, distance).is_ok() && ok;
        }
        if ok {
            Ok(())
        } else {
            Err(crate::pathfind::GridError::CostTooHigh)
        }
    }

    /// `lowest_influence` on the grid of type `t`.
    pub fn lowest_influence(&self, t: MapType, center: Cell, distance: usize) -> (r: Result<(Cell, u64), crate::pathfind::PathError>)
        requires
            self.wf(),
        ensures
            r is Err <==> !self.grid_of(t).contains(center),
            r matches Ok(best) ==> crate::lowest::lowest_in_rect(
                self.grid_of(t).map@,
                crate::rectangle::rect_spec(center, (distance, distance), self.grid_of(t).width, self.grid_of(t).height),
                center,
                best,
            ),
    {
        self.get_map(t).lowest_influence(center, distance)
    }

    /// `lowest_influence_walk` on the grid of type `t`.
    pub fn lowest_influence_walk(&self, t: MapType, center: Cell, distance: u64) -> (r: Result<(Cell, u64), crate::pathfind::PathError>)
        requires
            self.wf(),
        ensures
            r is Err <==> !self.grid_of(t).contains(center),
            r matches Ok(best) ==> crate::lowest::lowest_in_walk(
                self.grid_of(t).map@,
                crate::influence::walk_found(self.grid_of(t).map@, self.grid_of(t).closest(center), distance),
                self.grid_of(t).closest(center),
                best,
            ),
    {
        self.get_map(t).lowest_influence_walk(center, distance)
    }
}

} // verus!

verus! {

impl TerrainMap {
    /// Blocks one rectangle on the ground, colossus and reaper grids.
    pub fn create_block(&mut self, center: Cell, size: (usize, usize))
        requires
            old(self).wf(),
        ensures
            final(self).wf(),
            crate::influence::cells_follow(
                old(self).ground_pathing.map@,
                final(self).ground_pathing.map@,
                crate::influence::fill_value(crate::rectangle::rect_spec(center, size, old(self).ground_pathing.width, old(self).ground_pathing.height), 0),
            ),
            crate::influence::cells_follow(
                old(self).colossus_pathing.map@,
                final(self).colossus_pathing.map@,
                crate::influence::fill_value(crate::rectangle::rect_spec(center, size, old(self).colossus_pathing.width, old(self).colossus_pathing.height), 0),
            ),
            crate::influence::cells_follow(
                old(self).reaper_pathing.map@,
                final(self).reaper_pathing.map@,
                crate::influence::fill_value(crate::rectangle::rect_spec(center, size, old(self).reaper_pathing.width, old(self).reaper_pathing.height), 0),
            ),
            final(self).air_pathing == old(self).air_pathing,
            final(self).points@ == old(self).points@,
            final(self).ground_pathing.original_map@ == old(self).ground_pathing.original_map@,
            final(self).air_pathing.original_map@ == old(self).air_pathing.original_map@,
            final(self).colossus_pathing.original_map@ == old(self).colossus_pathing.original_map@,
            final(self).reaper_pathing.original_map@ == old(self).reaper_pathing.original_map@,
    {
        self.ground_pathing.create_block(center, size);
        self.colossus_pathing.create_block(center, size);
        self.reaper_pathing.create_block(center, size);
    }

    /// `find_low_inside_walk` on the grid of type `t`.
    pub fn find_low_inside_walk(&self, t: MapType, start: Cell, target: Cell, distance: u64) -> (r: Result<
        Option<(Cell, u64)>,
        crate::pathfind::PathError,
    >)
        requires
            self.wf(),
        ensures
            r is Err <==> !self.grid_of(t).contains(start) || !self.grid_of(t).contains(target),
            r matches Ok(res) ==> {
                let g = self.grid_of(t);
                let cs = g.closest(start);
                let ct = g.closest(target);
                let straight = crate::grid::euclidean_spec(start, target);
                if straight > distance + 2 * MULT {
                    crate::lowest::far_result(g.map@, g.normal_influence as int, cs, ct, crate::pathfind::scaled_bound(distance, g.normal_influence as u64), res)
                } else {
                    &&& res is Some
                    &&& crate::lowest::low_inside(g.map@, g.normal_influence as int, cs, ct, distance, straight < distance, res->Some_0)
                }
            },
    {
        self.get_map(t).find_low_inside_walk(start, target, distance)
    }
}

} // verus!

verus! {

/// Resetting a map after any sequence of edits reproduces the cost grids it
/// was built with: `states` are the map as built and after each edit (each
/// edit keeps the grids' construction-time copies), and `after` is the map
/// once reset.
pub proof fn lemma_map_reset_after_sequence(states: Seq<TerrainMap>, after: TerrainMap)
    requires
        states.len() > 0,
        crate::movement::cells(states[0].ground_pathing.original_map@) == crate::movement::cells(states[0].ground_pathing.map@),
        crate::movement::cells(states[0].air_pathing.original_map@) == crate::movement::cells(states[0].air_pathing.map@),
        crate::movement::cells(states[0].colossus_pathing.original_map@) == crate::movement::cells(states[0].colossus_pathing.map@),
        crate::movement::cells(states[0].reaper_pathing.original_map@) == crate::movement::cells(states[0].reaper_pathing.map@),
        forall|i: int|
            0 <= i < states.len() - 1 ==> {
                &&& (#[trigger] states[i + 1]).ground_pathing.original_map@ == states[i].ground_pathing.original_map@
                &&& states[i + 1].air_pathing.original_map@ == states[i].air_pathing.original_map@
                &&& states[i + 1].colossus_pathing.original_map@ == states[i].colossus_pathing.original_map@
                &&& states[i + 1].reaper_pathing.original_map@ == states[i].reaper_pathing.original_map@
            },
        crate::movement::cells(after.ground_pathing.map@) == crate::movement::cells(states.last().ground_pathing.original_map@),
        crate::movement::cells(after.air_pathing.map@) == crate::movement::cells(states.last().air_pathing.original_map@),
        crate::movement::cells(after.colossus_pathing.map@) == crate::movement::cells(states.last().colossus_pathing.original_map@),
        crate::movement::cells(after.reaper_pathing.map@) == crate::movement::cells(states.last().reaper_pathing.original_map@),
    ensures
        crate::movement::cells(after.ground_pathing.map@) == crate::movement::cells(states[0].ground_pathing.map@),
        crate::movement::cells(after.air_pathing.map@) == crate::movement::cells(states[0].air_pathing.map@),
        crate::movement::cells(after.colossus_pathing.map@) == crate::movement::cells(states[0].colossus_pathing.map@),
        crate::movement::cells(after.reaper_pathing.map@) == crate::movement::cells(states[0].reaper_pathing.map@),
{
    lemma_originals_from_start(states, states.len() - 1);
}

proof fn lemma_originals_from_start(states: Seq<TerrainMap>, i: int)
    requires
        0 <= i < states.len(),
        forall|k: int|
            0 <= k < states.len() - 1 ==> {
                &&& (#[trigger] states[k + 1]).ground_pathing.original_map@ == states[k].ground_pathing.original_map@
                &&& states[k + 1].air_pathing.original_map@ == states[k].air_pathing.original_map@
                &&& states[k + 1].colossus_pathing.original_map@ == states[k].colossus_pathing.original_map@
                &&& states[k + 1].reaper_pathing.original_map@ == states[k].reaper_pathing.original_map@
            },
    ensures
        states[i].ground_pathing.original_map@ == states[0].ground_pathing.original_map@,
        states[i].air_pathing.original_map@ == states[0].air_pathing.original_map@,
        states[i].colossus_pathing.original_map@ == states[0].colossus_pathing.original_map@,
        states[i].reaper_pathing.original_map@ == states[0].reaper_pathing.original_map@,
    decreases i,
{
    if i > 0 {
        lemma_originals_from_start(states, i - 1);
        let k = i - 1;
        assert(states[k + 1].ground_pathing.original_map@ == states[k].ground_pathing.original_map@);
    }
}

} // verus!

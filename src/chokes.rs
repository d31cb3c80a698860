//! Chokepoints: short unobstructed segments between border cells that a walk
//! along the border cannot join, grouped into chokes.
use vstd::prelude::*;

use crate::grid::{euclidean_distance, euclidean_spec, octile_distance, octile_spec, Cell, MULT, SQRT2};
use crate::influence::{listed, walk_found};
use crate::map_point::{point_in, points_ok, pt, same_shape, MapPoint};
use crate::movement::MAX_SIDE;
use crate::pathfind::PathFind;

verus! {

/// A candidate segment between two border cells.
pub type Line = (Cell, Cell);

/// Longest choke segment, in cells.
pub const CHOKE_DISTANCE: usize = 13;

/// Walk distance along the border, in cells, within which two border cells
/// count as the same side.
pub const CHOKE_BORDER_DISTANCE: usize = 30;

/// Shortest choke segment, in cells.
pub const CHOKE_MIN_DISTANCE: usize = 2;

/// Fewest segments a choke needs.
pub const CHOKE_MIN_LINES: usize = 4;

/// How much longer than the shortest a segment of a choke may be (fixed point).
pub const CHOKE_LENGTH_SLACK: u64 = 25000;

/// `num / den` for a non-negative result, else zero (as a saturating cast).
pub open spec fn floor_or_zero(num: int, den: int) -> int {
    if num < 0 {
        0
    } else {
        num / den
    }
}

/// The `i`-th sample from `s` towards `c`, one cell apart, where `e` is their
/// fixed-point distance.
pub open spec fn sample_along(s: Cell, c: Cell, e: int, i: int) -> (int, int) {
    (
        floor_or_zero(s.0 * e + (c.0 - s.0) * i * MULT, e),
        floor_or_zero(s.1 * e + (c.1 - s.1) * i * MULT, e),
    )
}

/// The `i`-th sample across the segment from `s` to `c`, through its middle.
pub open spec fn sample_across(s: Cell, c: Cell, e: int, i: int) -> (int, int) {
    let cx = (s.0 + c.0) / 2;
    let cy = (s.1 + c.1) / 2;
    (floor_or_zero(cx * e - (c.1 - s.1) * i * MULT, e), floor_or_zero(cy * e + (c.0 - s.0) * i * MULT, e))
}

pub open spec fn walkable_at(p: Seq<Vec<MapPoint>>, q: (int, int)) -> bool {
    point_in(p, q.0, q.1) && pt(p, q.0, q.1).walkable
}

/// Every sample strictly between the ends is walkable.
pub open spec fn clear_along(p: Seq<Vec<MapPoint>>, s: Cell, c: Cell, e: int) -> bool {
    forall|i: int|
        1 <= i < e / (MULT as int) ==> {
            let q = #[trigger] sample_along(s, c, e, i);
            q == (s.0 as int, s.1 as int) || q == (c.0 as int, c.1 as int) || walkable_at(p, q)
        }
}

/// Every sample across the middle is walkable.
pub open spec fn clear_across(p: Seq<Vec<MapPoint>>, s: Cell, c: Cell, e: int) -> bool {
    let half = e / (MULT as int) / 2;
    forall|i: int| -half <= i < half ==> walkable_at(p, #[trigger] sample_across(s, c, e, i))
}

/// `c` ends a choke segment from `s`: a border cell two to thirteen cells
/// away, not reached by the border walk `reach`, with a clear segment and,
/// for segments longer than four cells, a clear cross.
pub open spec fn choke_end(p: Seq<Vec<MapPoint>>, reach: Set<(Cell, u64)>, s: Cell, c: Cell) -> bool {
    let e = euclidean_spec(c, s);
    &&& point_in(p, c.0 as int, c.1 as int)
    &&& pt(p, c.0 as int, c.1 as int).is_border
    &&& CHOKE_MIN_DISTANCE * MULT <= e <= CHOKE_DISTANCE * MULT
    &&& !listed(reach, c)
    &&& clear_along(p, s, c, e)
    &&& (e / (MULT as int) > 4 ==> clear_across(p, s, c, e))
}

/// The cells a segment from `(x, y)` may end at: to the right within thirteen
/// cells, vertically within thirteen, inside the playable area.
pub open spec fn in_choke_window(x: int, y: int, y_start: int, x_end: int, y_end: int, c: Cell) -> bool {
    &&& x <= c.0 < x + CHOKE_DISTANCE && c.0 < x_end
    &&& y - CHOKE_DISTANCE <= c.1 && y_start <= c.1
    &&& c.1 < y + CHOKE_DISTANCE && c.1 < y_end
}

fn walkable_cell(points: &Vec<Vec<MapPoint>>, qx: i64, qy: i64) -> (r: bool)
    ensures
        r == walkable_at(points@, (qx as int, qy as int)),
{
    if qx < 0 || qy < 0 {
        return false;
    }
    let n = points.len();
    if (qx as u64) >= (n as u64) {
        return false;
    }
    let ux = qx as usize;
    let m = points[ux].len();
    if (qy as u64) >= (m as u64) {
        return false;
    }
    let uy = qy as usize;
    if ux < points.len() && uy < points[ux].len() {
        points[ux][uy].walkable
    } else {
        false
    }
}

fn floor_div(num: i64, den: i64) -> (r: i64)
    requires
        den > 0,
    ensures
        r == floor_or_zero(num as int, den as int),
{
    if num < 0 {
        0
    } else {
        num / den
    }
}

/// Whether the segment from `s` to `c` (fixed-point length `e`) is clear
/// along and, when longer than four cells, across.
fn segment_clear(points: &Vec<Vec<MapPoint>>, s: Cell, c: Cell, e: u64) -> (r: bool)
    requires
        s.0 < MAX_SIDE && s.1 < MAX_SIDE && c.0 < MAX_SIDE && c.1 < MAX_SIDE,
        MULT <= e <= CHOKE_DISTANCE * MULT,
    ensures
        r == (clear_along(points@, s, c, e as int) && (e / (MULT as u64) > 4 ==> clear_across(
            points@,
            s,
            c,
            e as int,
        ))),
{
    let dots = (e / (MULT as u64)) as i64;
    let ei = e as i64;
    let sx = s.0 as i64;
    let sy = s.1 as i64;
    let dx = c.0 as i64 - sx;
    let dy = c.1 as i64 - sy;
    let mut i: i64 = 1;
    while i < dots
        invariant
            1 <= i,
            dots == e / (MULT as u64),
            dots <= 13,
            ei == e,
            MULT <= e <= CHOKE_DISTANCE * MULT,
            sx == s.0 && sy == s.1,
            dx == c.0 - s.0 && dy == c.1 - s.1,
            -4096 < dx < 4096 && -4096 < dy < 4096,
            0 <= sx < 4096 && 0 <= sy < 4096,
            forall|k: int|
                1 <= k < i ==> {
                    let q = #[trigger] sample_along(s, c, e as int, k);
                    q == (s.0 as int, s.1 as int) || q == (c.0 as int, c.1 as int) || walkable_at(points@, q)
                },
        decreases dots - i,
    {
        assert(-4096 * 13 * 10000 <= dx * i * 10000 <= 4096 * 13 * 10000) by (nonlinear_arith)
            requires
                -4096 < dx < 4096,
                1 <= i <= 13,
        ;
        assert(-4096 * 13 * 10000 <= dy * i * 10000 <= 4096 * 13 * 10000) by (nonlinear_arith)
            requires
                -4096 < dy < 4096,
                1 <= i <= 13,
        ;
        assert(0 <= sx * ei <= 4096 * 130000) by (nonlinear_arith)
            requires
                0 <= sx < 4096,
                0 <= ei <= 130000,
        ;
        assert(0 <= sy * ei <= 4096 * 130000) by (nonlinear_arith)
            requires
                0 <= sy < 4096,
                0 <= ei <= 130000,
        ;
        let qx = floor_div(sx * ei + dx * i * 10000, ei);
        let qy = floor_div(sy * ei + dy * i * 10000, ei);
        assert((qx as int, qy as int) == sample_along(s, c, e as int, i as int));
        if !((qx == sx && qy == sy) || (qx == c.0 as i64 && qy == c.1 as i64)) && !walkable_cell(points, qx, qy) {
            return false;
        }
        i += 1;
    }
    if dots <= 4 {
        return true;
    }
    let half = dots / 2;
    let cx = (s.0 as i64 + c.0 as i64) / 2;
    let cy = (s.1 as i64 + c.1 as i64) / 2;
    let mut i: i64 = -half;
    while i < half
        invariant
            -half <= i,
            half == dots / 2,
            dots == e / (MULT as u64),
            4 < dots <= 13,
            ei == e,
            MULT <= e <= CHOKE_DISTANCE * MULT,
            cx == (s.0 + c.0) / 2 && cy == (s.1 + c.1) / 2,
            0 <= cx < 4096 && 0 <= cy < 4096,
            dx == c.0 - s.0 && dy == c.1 - s.1,
            -4096 < dx < 4096 && -4096 < dy < 4096,
            clear_along(points@, s, c, e as int),
            forall|k: int| -half <= k < i ==> walkable_at(points@, #[trigger] sample_across(s, c, e as int, k)),
        decreases half - i,
    {
        assert(-4096 * 13 * 10000 <= dx * i * 10000 <= 4096 * 13 * 10000) by (nonlinear_arith)
            requires
                -4096 < dx < 4096,
                -13 <= i <= 13,
        ;
        assert(-4096 * 13 * 10000 <= dy * i * 10000 <= 4096 * 13 * 10000) by (nonlinear_arith)
            requires
                -4096 < dy < 4096,
                -13 <= i <= 13,
        ;
        assert(0 <= cx * ei <= 4096 * 130000) by (nonlinear_arith)
            requires
                0 <= cx < 4096,
                0 <= ei <= 130000,
        ;
        assert(0 <= cy * ei <= 4096 * 130000) by (nonlinear_arith)
            requires
                0 <= cy < 4096,
                0 <= ei <= 130000,
        ;
        let qx = floor_div(cx * ei - dy * i * 10000, ei);
        let qy = floor_div(cy * ei + dx * i * 10000, ei);
        assert((qx as int, qy as int) == sample_across(s, c, e as int, i as int));
        if !walkable_cell(points, qx, qy) {
            proof {
                let hs = (e as int) / (MULT as int) / 2;
                assert(hs == half);
                assert(-hs <= i < hs);
                assert(!walkable_at(points@, sample_across(s, c, e as int, i as int)));
                assert(!clear_across(points@, s, c, e as int));
                assert(e / (MULT as u64) > 4);
            }
            return false;
        }
        i += 1;
    }
    true
}

} // verus!

verus! {

/// The border cells reached from `s` by walking along the border.
pub open spec fn border_reach(border: Seq<Vec<usize>>, s: Cell) -> Set<(Cell, u64)> {
    walk_found(border, s, (CHOKE_BORDER_DISTANCE * MULT) as u64)
}

/// The border cells reached from `s` on a border grid given by its cells.
pub open spec fn border_reach_cells(border: Seq<Seq<usize>>, s: Cell) -> Set<(Cell, u64)> {
    crate::search::dijkstra_found(crate::movement::Movement::Normal, border, s, 1, Some((CHOKE_BORDER_DISTANCE * MULT) as u64)).map(
        |e: crate::search::Reached| (e.0, e.2),
    )
}

/// `l` is a choke segment of the scanned area: it starts at a border cell
/// there and `choke_end` accepts its end in the start's window.
pub open spec fn choke_segment(
    p: Seq<Vec<MapPoint>>,
    border: Seq<Seq<usize>>,
    x_start: int,
    y_start: int,
    x_end: int,
    y_end: int,
    l: Line,
) -> bool {
    let s = l.0;
    &&& x_start <= s.0 < x_end && y_start <= s.1 < y_end
    &&& pt(p, s.0 as int, s.1 as int).is_border
    &&& in_choke_window(s.0 as int, s.1 as int, y_start, x_end, y_end, l.1)
    &&& choke_end(p, border_reach_cells(border, s), s, l.1)
}

/// `a` comes before `b`: by start in scan order, then by end.
pub open spec fn line_before(a: Line, b: Line) -> bool {
    scan_before(a.0, b.0) || (a.0 == b.0 && scan_before(a.1, b.1))
}

/// `lines` lists every choke segment of the scanned area once, in order.
pub open spec fn segment_list(
    p: Seq<Vec<MapPoint>>,
    border: Seq<Seq<usize>>,
    x_start: int,
    y_start: int,
    x_end: int,
    y_end: int,
    lines: Seq<Line>,
) -> bool {
    &&& forall|k: int| 0 <= k < lines.len() ==> #[trigger] choke_segment(p, border, x_start, y_start, x_end, y_end, lines[k])
    &&& forall|l: Line| #[trigger] choke_segment(p, border, x_start, y_start, x_end, y_end, l) ==> lines.contains(l)
    &&& forall|k1: int, k2: int| 0 <= k1 < k2 < lines.len() ==> line_before(#[trigger] lines[k1], #[trigger] lines[k2])
}

fn listed_in(list: &Vec<(Cell, u64)>, c: Cell) -> (r: bool)
    ensures
        r == listed(list@.to_set(), c),
{
    let mut k: usize = 0;
    while k < list.len()
        invariant
            k <= list@.len(),
            forall|i: int| 0 <= i < k ==> (#[trigger] list@[i]).0 != c,
        decreases list@.len() - k,
    {
        if list[k].0.0 == c.0 && list[k].0.1 == c.1 {
            assert(list@.to_set().contains(list@[k as int]));
            return true;
        }
        k += 1;
    }
    proof {
        if listed(list@.to_set(), c) {
            let e = choose|e: (Cell, u64)| list@.to_set().contains(e) && e.0 == c;
            let i = choose|i: int| 0 <= i < list@.len() && list@[i] == e;
        }
    }
    false
}

/// `a` comes before `b` in scan order (by `x`, then `y`).
pub open spec fn scan_before(a: Cell, b: Cell) -> bool {
    a.0 < b.0 || (a.0 == b.0 && a.1 < b.1)
}

/// Appends every choke segment from the border cell `(x, y)`: one for each
/// cell of its window (see `in_choke_window`) that `choke_end` accepts, each
/// once, in scan order. Nothing is appended when `(x, y)` is not a border
/// cell.
pub fn solve_chokes(
    points: &Vec<Vec<MapPoint>>,
    border_pathing: &PathFind,
    chokes: &mut Vec<Line>,
    x: usize,
    y: usize,
    x_start: usize,
    y_start: usize,
    x_end: usize,
    y_end: usize,
)
    requires
        points_ok(points@),
        border_pathing.wf(),
        points@.len() == border_pathing.width,
        points@[0]@.len() == border_pathing.height,
        x < border_pathing.width,
        y < border_pathing.height,
        x_end <= border_pathing.width,
        y_end <= border_pathing.height,
    ensures
        final(chokes)@.len() >= old(chokes)@.len(),
        final(chokes)@.subrange(0, old(chokes)@.len() as int) == old(chokes)@,
        !pt(points@, x as int, y as int).is_border ==> final(chokes)@ == old(chokes)@,
        forall|k: int|
            old(chokes)@.len() <= k < final(chokes)@.len() ==> {
                &&& (#[trigger] final(chokes)@[k]).0 == (x, y)
                &&& in_choke_window(x as int, y as int, y_start as int, x_end as int, y_end as int, final(chokes)@[k].1)
                &&& choke_end(points@, border_reach(border_pathing.map@, (x, y)), (x, y), final(chokes)@[k].1)
            },
        pt(points@, x as int, y as int).is_border ==> forall|c: Cell|
            in_choke_window(x as int, y as int, y_start as int, x_end as int, y_end as int, c) && #[trigger] choke_end(
                points@,
                border_reach(border_pathing.map@, (x, y)),
                (x, y),
                c,
            ) ==> exists|k: int| old(chokes)@.len() <= k < final(chokes)@.len() && final(chokes)@[k] == ((x, y), c),
        forall|k1: int, k2: int|
            old(chokes)@.len() <= k1 < k2 < final(chokes)@.len() ==> scan_before(
                (#[trigger] final(chokes)@[k1]).1,
                (#[trigger] final(chokes)@[k2]).1,
            ),
{
    let ghost start_len = chokes@.len();
    let ghost before = chokes@;
    proof {
        assert(points@[x as int]@.len() == points@[0]@.len());
    }
    if !points[x][y].is_border {
        return;
    }
    let s: Cell = (x, y);
    let reach = match border_pathing.djiktra(s, (CHOKE_BORDER_DISTANCE * MULT) as u64) {
        Ok(v) => v,
        Err(_) => {
            return;
        },
    };
    let ghost rs = border_reach(border_pathing.map@, s);
    assert(reach@.to_set() == rs);
    let xmax = if x + CHOKE_DISTANCE < x_end {
        x + CHOKE_DISTANCE
    } else {
        x_end
    };
    let ymin = if y >= CHOKE_DISTANCE && y - CHOKE_DISTANCE > y_start {
        y - CHOKE_DISTANCE
    } else if y >= CHOKE_DISTANCE {
        y_start
    } else if y_start > 0 {
        y_start
    } else {
        0
    };
    let ymax = if y + CHOKE_DISTANCE < y_end {
        y + CHOKE_DISTANCE
    } else {
        y_end
    };
    let mut cx: usize = x;
    while cx < xmax
        invariant
            points_ok(points@),
            border_pathing.wf(),
            points@.len() == border_pathing.width,
            points@[0]@.len() == border_pathing.height,
            x < border_pathing.width,
            y < border_pathing.height,
            xmax <= x_end <= border_pathing.width,
            ymax <= y_end <= border_pathing.height,
            xmax == if x + CHOKE_DISTANCE < x_end { x + CHOKE_DISTANCE } else { x_end as int },
            ymax == if y + CHOKE_DISTANCE < y_end { y + CHOKE_DISTANCE } else { y_end as int },
            ymin as int == if y - CHOKE_DISTANCE > y_start { y - CHOKE_DISTANCE } else { y_start as int },
            x <= cx,
            s == (x, y),
            reach@.to_set() == rs,
            rs == border_reach(border_pathing.map@, s),
            chokes@.len() >= start_len,
            chokes@.subrange(0, start_len as int) == before,
            forall|k1: int, k2: int|
                start_len <= k1 < k2 < chokes@.len() ==> scan_before((#[trigger] chokes@[k1]).1, (#[trigger] chokes@[k2]).1),
            forall|k: int| start_len <= k < chokes@.len() ==> (#[trigger] chokes@[k]).1.0 < cx,
            forall|k: int|
                start_len <= k < chokes@.len() ==> {
                    &&& (#[trigger] chokes@[k]).0 == s
                    &&& in_choke_window(x as int, y as int, y_start as int, x_end as int, y_end as int, chokes@[k].1)
                    &&& choke_end(points@, rs, s, chokes@[k].1)
                },
            forall|c: Cell|
                in_choke_window(x as int, y as int, y_start as int, x_end as int, y_end as int, c) && c.0 < cx
                    && #[trigger] choke_end(points@, rs, s, c) ==> exists|k: int|
                    start_len <= k < chokes@.len() && chokes@[k] == (s, c),
        decreases xmax - cx,
    {
        let mut cy: usize = ymin;
        while cy < ymax
            invariant
                points_ok(points@),
                border_pathing.wf(),
                points@.len() == border_pathing.width,
                points@[0]@.len() == border_pathing.height,
                x < border_pathing.width,
                y < border_pathing.height,
                xmax <= x_end <= border_pathing.width,
                ymax <= y_end <= border_pathing.height,
                xmax == if x + CHOKE_DISTANCE < x_end { x + CHOKE_DISTANCE } else { x_end as int },
                ymax == if y + CHOKE_DISTANCE < y_end { y + CHOKE_DISTANCE } else { y_end as int },
                ymin as int == if y - CHOKE_DISTANCE > y_start { y - CHOKE_DISTANCE } else { y_start as int },
                x <= cx < xmax,
                ymin <= cy,
                s == (x, y),
                reach@.to_set() == rs,
                rs == border_reach(border_pathing.map@, s),
                chokes@.len() >= start_len,
                chokes@.subrange(0, start_len as int) == before,
                forall|k1: int, k2: int|
                    start_len <= k1 < k2 < chokes@.len() ==> scan_before((#[trigger] chokes@[k1]).1, (#[trigger] chokes@[k2]).1),
                forall|k: int| start_len <= k < chokes@.len() ==> scan_before((#[trigger] chokes@[k]).1, (cx, cy)),
                forall|k: int|
                    start_len <= k < chokes@.len() ==> {
                        &&& (#[trigger] chokes@[k]).0 == s
                        &&& in_choke_window(x as int, y as int, y_start as int, x_end as int, y_end as int, chokes@[k].1)
                        &&& choke_end(points@, rs, s, chokes@[k].1)
                    },
                forall|c: Cell|
                    in_choke_window(x as int, y as int, y_start as int, x_end as int, y_end as int, c) && (c.0 < cx
                        || (c.0 == cx && c.1 < cy)) && #[trigger] choke_end(points@, rs, s, c) ==> exists|k: int|
                        start_len <= k < chokes@.len() && chokes@[k] == (s, c),
            decreases ymax - cy,
        {
            let c: Cell = (cx, cy);
            assert(points@[cx as int]@.len() == points@[0]@.len());
            let ghost old_chokes = chokes@;
            if points[cx][cy].is_border {
                let e = euclidean_distance(c, s) as u64;
                if e >= (CHOKE_MIN_DISTANCE * MULT) as u64 && e <= (CHOKE_DISTANCE * MULT) as u64 && !listed_in(&reach, c) {
                    if segment_clear(points, s, c, e) {
                        let ghost before_push = chokes@;
                        chokes.push((s, c));
                        proof {
                            assert forall|k1: int, k2: int|
                                start_len <= k1 < k2 < chokes@.len() implies scan_before((#[trigger] chokes@[k1]).1, (#[trigger] chokes@[k2]).1) by {
                                if k2 == chokes@.len() - 1 {
                                    assert(chokes@[k1] == before_push[k1]);
                                } else {
                                    assert(chokes@[k1] == before_push[k1] && chokes@[k2] == before_push[k2]);
                                }
                            }
                            assert forall|k: int| start_len <= k < chokes@.len() implies scan_before((#[trigger] chokes@[k]).1, (cx, (cy + 1) as usize)) by {
                                if k < chokes@.len() - 1 {
                                    assert(chokes@[k] == before_push[k]);
                                }
                            }
                            assert(choke_end(points@, rs, s, c));
                            assert(chokes@[chokes@.len() - 1] == (s, c));
                            assert forall|k: int| 0 <= k < start_len implies chokes@[k] == old_chokes[k] by {
                                assert(old_chokes.subrange(0, start_len as int)[k] == before[k]);
                            }
                            assert(chokes@.subrange(0, start_len as int) =~= before);
                        }
                    }
                }
            }
            proof {
                assert forall|d: Cell|
                    in_choke_window(x as int, y as int, y_start as int, x_end as int, y_end as int, d) && (d.0 < cx
                        || (d.0 == cx && d.1 < cy + 1)) && #[trigger] choke_end(points@, rs, s, d) implies exists|k: int|
                        start_len <= k < chokes@.len() && chokes@[k] == (s, d) by {
                    if d.0 < cx || (d.0 == cx && d.1 < cy) {
                        let k = choose|k: int| start_len <= k < old_chokes.len() && old_chokes[k] == (s, d);
                        assert(chokes@[k] == old_chokes[k]);
                    } else {
                        assert(d == c);
                        assert(chokes@[chokes@.len() - 1] == (s, c));
                    }
                }
            }
            cy += 1;
        }
        proof {
            assert forall|d: Cell|
                in_choke_window(x as int, y as int, y_start as int, x_end as int, y_end as int, d) && d.0 < cx + 1
                    && #[trigger] choke_end(points@, rs, s, d) implies exists|k: int|
                    start_len <= k < chokes@.len() && chokes@[k] == (s, d) by {
                if d.0 == cx {
                    assert(d.1 < cy);
                }
            }
        }
        cx += 1;
    }
}

} // verus!

verus! {

/// A point in fixed-point coordinates (`MULT` per cell).
#[derive(Clone, Copy, Debug, PartialEq, Eq, Structural)]
pub struct FixedPoint {
    pub x: u64,
    pub y: u64,
}

/// One chokepoint: its segments, the cells on either side, the centre line
/// through the averages of the two sides (fixed point), the cells its
/// segments cross, and its shortest segment (fixed point).
#[derive(Debug)]
pub struct Choke {
    pub main_line: (FixedPoint, FixedPoint),
    pub lines: Vec<Line>,
    pub side1: Vec<Cell>,
    pub side2: Vec<Cell>,
    pub pixels: Vec<Cell>,
    pub min_length: u64,
}

pub open spec fn small(c: Cell) -> bool {
    c.0 < MAX_SIDE && c.1 < MAX_SIDE
}

pub open spec fn line_length(l: Line) -> int {
    euclidean_spec(l.0, l.1)
}

/// The length of the shortest of the segments (0 when there are none).
pub open spec fn shortest(lines: Seq<Line>) -> int
    decreases lines.len(),
{
    if lines.len() == 0 {
        0
    } else if lines.len() == 1 {
        line_length(lines[0])
    } else {
        let m = shortest(lines.drop_last());
        let d = line_length(lines.last());
        if d < m {
            d
        } else {
            m
        }
    }
}

/// The segments no longer than `limit`, in order.
pub open spec fn keep_short(lines: Seq<Line>, limit: int) -> Seq<Line>
    decreases lines.len(),
{
    if lines.len() == 0 {
        lines
    } else {
        let rest = keep_short(lines.drop_last(), limit);
        if line_length(lines.last()) <= limit {
            rest.push(lines.last())
        } else {
            rest
        }
    }
}

pub open spec fn sum_x(cells: Seq<Cell>) -> int
    decreases cells.len(),
{
    if cells.len() == 0 {
        0
    } else {
        sum_x(cells.drop_last()) + cells.last().0
    }
}

pub open spec fn sum_y(cells: Seq<Cell>) -> int
    decreases cells.len(),
{
    if cells.len() == 0 {
        0
    } else {
        sum_y(cells.drop_last()) + cells.last().1
    }
}

/// The average of the cells, in fixed point (rounded down).
pub open spec fn average(cells: Seq<Cell>) -> FixedPoint {
    FixedPoint {
        x: (sum_x(cells) * MULT / cells.len() as int) as u64,
        y: (sum_y(cells) * MULT / cells.len() as int) as u64,
    }
}

pub open spec fn fixed_of(c: Cell) -> FixedPoint {
    FixedPoint { x: (c.0 * MULT) as u64, y: (c.1 * MULT) as u64 }
}

/// `v` with `c` appended unless already present.
pub open spec fn with_cell(v: Seq<Cell>, c: Cell) -> Seq<Cell> {
    if v.contains(c) {
        v
    } else {
        v.push(c)
    }
}

/// A copy of a list of pairs.
pub fn copy_items<T: Copy>(v: &Vec<T>) -> (r: Vec<T>)
    ensures
        r@ == v@,
{
    let mut r: Vec<T> = Vec::new();
    let mut k: usize = 0;
    while k < v.len()
        invariant
            k <= v@.len(),
            r@ == v@.subrange(0, k as int),
        decreases v@.len() - k,
    {
        r.push(v[k]);
        k += 1;
    }
    assert(v@.subrange(0, v@.len() as int) =~= v@);
    r
}

fn contains_cell(v: &Vec<Cell>, c: Cell) -> (r: bool)
    ensures
        r == v@.contains(c),
{
    let mut k: usize = 0;
    while k < v.len()
        invariant
            k <= v@.len(),
            forall|i: int| 0 <= i < k ==> v@[i] != c,
        decreases v@.len() - k,
    {
        if v[k].0 == c.0 && v[k].1 == c.1 {
            return true;
        }
        k += 1;
    }
    false
}

fn side_average(cells: &Vec<Cell>) -> (r: FixedPoint)
    requires
        cells@.len() > 0,
        forall|i: int| 0 <= i < cells@.len() ==> small(#[trigger] cells@[i]),
    ensures
        r == average(cells@),
{
    let n = cells.len();
    let mut sx: u128 = 0;
    let mut sy: u128 = 0;
    let mut k: usize = 0;
    while k < n
        invariant
            n == cells@.len(),
            k <= n,
            forall|i: int| 0 <= i < cells@.len() ==> small(#[trigger] cells@[i]),
            sx == sum_x(cells@.subrange(0, k as int)),
            sy == sum_y(cells@.subrange(0, k as int)),
            sx <= k * MAX_SIDE,
            sy <= k * MAX_SIDE,
        decreases n - k,
    {
        let c = cells[k];
        proof {
            assert(cells@.subrange(0, k as int + 1).drop_last() =~= cells@.subrange(0, k as int));
            assert(small(cells@[k as int]));
        }
        sx = sx + c.0 as u128;
        sy = sy + c.1 as u128;
        k += 1;
    }
    assert(cells@.subrange(0, cells@.len() as int) =~= cells@);
    assert(sx * 10000 <= 0x1_0000_0000_0000_0000 * 4096 * 10000 && sy * 10000 <= 0x1_0000_0000_0000_0000 * 4096 * 10000) by (nonlinear_arith)
        requires
            sx <= n * 4096,
            sy <= n * 4096,
            n <= 0x1_0000_0000_0000_0000,
    ;
    let ax = sx * 10000 / (n as u128);
    let ay = sy * 10000 / (n as u128);
    assert(ax <= 4096 * 10000 && ay <= 4096 * 10000) by (nonlinear_arith)
        requires
            sx <= n * 4096,
            sy <= n * 4096,
            n > 0,
            ax == sx * 10000 / (n as int),
            ay == sy * 10000 / (n as int),
    ;
    FixedPoint { x: ax as u64, y: ay as u64 }
}

impl Choke {
    pub open spec fn cells_small(&self) -> bool {
        &&& forall|i: int| 0 <= i < self.lines@.len() ==> small((#[trigger] self.lines@[i]).0) && small(self.lines@[i].1)
        &&& forall|i: int| 0 <= i < self.side1@.len() ==> small(#[trigger] self.side1@[i])
        &&& forall|i: int| 0 <= i < self.side2@.len() ==> small(#[trigger] self.side2@[i])
        &&& self.side1@.len() > 0
        &&& self.side2@.len() > 0
    }

    /// A choke of one segment.
    pub fn new(line: Line) -> (r: Choke)
        requires
            small(line.0) && small(line.1),
        ensures
            r.lines@ == seq![line],
            r.side1@ == seq![line.0],
            r.side2@ == seq![line.1],
            r.pixels@.len() == 0,
            r.min_length == line_length(line),
            r.main_line == (fixed_of(line.0), fixed_of(line.1)),
            r.cells_small(),
    {
        let mut lines: Vec<Line> = Vec::new();
        lines.push(line);
        let mut side1: Vec<Cell> = Vec::new();
        side1.push(line.0);
        let mut side2: Vec<Cell> = Vec::new();
        side2.push(line.1);
        let m = MULT as u64;
        let main_line = (
            FixedPoint { x: (line.0).0 as u64 * m, y: (line.0).1 as u64 * m },
            FixedPoint { x: (line.1).0 as u64 * m, y: (line.1).1 as u64 * m },
        );
        let min_length = euclidean_distance(line.0, line.1) as u64;
        let r = Choke { main_line, lines, side1, side2, pixels: Vec::new(), min_length };
        assert(r.lines@ =~= seq![line]);
        assert(r.side1@ =~= seq![line.0]);
        assert(r.side2@ =~= seq![line.1]);
        r
    }

    /// Adds a segment, and its ends to the sides they are not yet on.
    pub fn add_line(&mut self, point1: Cell, point2: Cell)
        requires
            small(point1) && small(point2),
            old(self).cells_small(),
        ensures
            final(self).lines@ == old(self).lines@.push((point1, point2)),
            final(self).side1@ == with_cell(old(self).side1@, point1),
            final(self).side2@ == with_cell(old(self).side2@, point2),
            final(self).pixels@ == old(self).pixels@,
            final(self).min_length == old(self).min_length,
            final(self).main_line == old(self).main_line,
            final(self).cells_small(),
    {
        self.lines.push((point1, point2));
        if !contains_cell(&self.side1, point1) {
            self.side1.push(point1);
        }
        if !contains_cell(&self.side2, point2) {
            self.side2.push(point2);
        }
        proof {
            assert forall|i: int| 0 <= i < self.side1@.len() implies small(#[trigger] self.side1@[i]) by {
                if i < old(self).side1@.len() {
                    assert(self.side1@[i] == old(self).side1@[i]);
                }
            }
            assert forall|i: int| 0 <= i < self.side2@.len() implies small(#[trigger] self.side2@[i]) by {
                if i < old(self).side2@.len() {
                    assert(self.side2@[i] == old(self).side2@[i]);
                }
            }
            assert forall|i: int| 0 <= i < self.lines@.len() implies small((#[trigger] self.lines@[i]).0) && small(self.lines@[i].1) by {
                if i < old(self).lines@.len() {
                    assert(self.lines@[i] == old(self).lines@[i]);
                }
            }
        }
    }

    /// Drops the segments more than `CHOKE_LENGTH_SLACK` longer than the
    /// shortest, and records the shortest length.
    pub fn remove_excess_lines(&mut self)
        requires
            old(self).cells_small(),
        ensures
            final(self).min_length == shortest(old(self).lines@),
            final(self).lines@ == keep_short(
                old(self).lines@,
                shortest(old(self).lines@) + CHOKE_LENGTH_SLACK,
            ),
            final(self).side1@ == old(self).side1@,
            final(self).side2@ == old(self).side2@,
            final(self).pixels@ == old(self).pixels@,
            final(self).main_line == old(self).main_line,
    {
        let ghost lines0 = self.lines@;
        let mut min_distance: u64 = 0;
        let mut k: usize = 0;
        if self.lines.len() > 0 {
            let l0 = self.lines[0];
            assert(small(lines0[0].0) && small(lines0[0].1));
            min_distance = euclidean_distance(l0.0, l0.1) as u64;
            k = 1;
            assert(lines0.subrange(0, 1).len() == 1 && lines0.subrange(0, 1)[0] == l0);
        }
        while k < self.lines.len()
            invariant
                self.lines@ == lines0,
                k <= lines0.len(),
                lines0.len() > 0 ==> k >= 1,
                forall|i: int| 0 <= i < lines0.len() ==> small((#[trigger] lines0[i]).0) && small(lines0[i].1),
                min_distance == shortest(lines0.subrange(0, k as int)),
                min_distance < 0x4000_0000,
            decreases lines0.len() - k,
        {
            let l = self.lines[k];
            proof {
                assert(lines0.subrange(0, k as int + 1).drop_last() =~= lines0.subrange(0, k as int));
                assert(small(lines0[k as int].0));
            }
            let d = euclidean_distance(l.0, l.1) as u64;
            if d < min_distance {
                min_distance = d;
            }
            k += 1;
        }
        assert(lines0.subrange(0, lines0.len() as int) =~= lines0);
        let limit = min_distance + CHOKE_LENGTH_SLACK;
        let mut kept: Vec<Line> = Vec::new();
        let mut k: usize = 0;
        while k < self.lines.len()
            invariant
                self.lines@ == lines0,
                k <= lines0.len(),
                forall|i: int| 0 <= i < lines0.len() ==> small((#[trigger] lines0[i]).0) && small(lines0[i].1),
                kept@ == keep_short(lines0.subrange(0, k as int), limit as int),
            decreases lines0.len() - k,
        {
            let l = self.lines[k];
            proof {
                assert(lines0.subrange(0, k as int + 1).drop_last() =~= lines0.subrange(0, k as int));
                assert(small(lines0[k as int].0));
            }
            let d = euclidean_distance(l.0, l.1) as u64;
            if d <= limit {
                kept.push(l);
            }
            k += 1;
        }
        self.lines = kept;
        self.min_length = min_distance;
    }

    /// Sets the centre line through the averages of the two sides.
    pub fn calc_final_line(&mut self)
        requires
            old(self).cells_small(),
        ensures
            final(self).main_line == (average(old(self).side1@), average(old(self).side2@)),
            final(self).lines@ == old(self).lines@,
            final(self).side1@ == old(self).side1@,
            final(self).side2@ == old(self).side2@,
            final(self).pixels@ == old(self).pixels@,
            final(self).min_length == old(self).min_length,
    {
        let a = side_average(&self.side1);
        let b = side_average(&self.side2);
        self.main_line = (a, b);
    }

    pub fn get_lines(&self) -> (r: Vec<Line>)
        ensures
            r@ == self.lines@,
    {
        copy_items(&self.lines)
    }

    pub fn get_side1(&self) -> (r: Vec<Cell>)
        ensures
            r@ == self.side1@,
    {
        copy_items(&self.side1)
    }

    pub fn get_side2(&self) -> (r: Vec<Cell>)
        ensures
            r@ == self.side2@,
    {
        copy_items(&self.side2)
    }

    pub fn get_pixels(&self) -> (r: Vec<Cell>)
        ensures
            r@ == self.pixels@,
    {
        copy_items(&self.pixels)
    }

    pub fn get_main_line(&self) -> (r: (FixedPoint, FixedPoint))
        ensures
            r == self.main_line,
    {
        self.main_line
    }

    pub fn get_min_length(&self) -> (r: u64)
        ensures
            r == self.min_length,
    {
        self.min_length
    }
}

} // verus!

verus! {

/// `after` is `before` with some cells additionally marked as choke cells.
pub open spec fn marks_chokes(before: Seq<Vec<MapPoint>>, after: Seq<Vec<MapPoint>>) -> bool {
    &&& same_shape(before, after)
    &&& forall|i: int, j: int|
        point_in(before, i, j) ==> (#[trigger] pt(after, i, j)) == (MapPoint {
            is_choke: pt(after, i, j).is_choke,
            ..pt(before, i, j)
        }) && (pt(before, i, j).is_choke ==> pt(after, i, j).is_choke)
}

/// Every end of every segment is in the array.
pub open spec fn lines_inside(p: Seq<Vec<MapPoint>>, lines: Seq<Line>) -> bool {
    forall|k: int|
        0 <= k < lines.len() ==> point_in(p, (#[trigger] lines[k]).0.0 as int, lines[k].0.1 as int)
            && point_in(p, lines[k].1.0 as int, lines[k].1.1 as int) && small(lines[k].0) && small(lines[k].1)
}

/// The kept segments are segments of the input.
proof fn lemma_keep_short_from(lines: Seq<Line>, limit: int)
    ensures
        forall|l: Line| keep_short(lines, limit).contains(l) ==> lines.contains(l),
    decreases lines.len(),
{
    if lines.len() > 0 {
        lemma_keep_short_from(lines.drop_last(), limit);
        let rest = keep_short(lines.drop_last(), limit);
        assert forall|l: Line| keep_short(lines, limit).contains(l) implies lines.contains(l) by {
            if rest.contains(l) {
                assert(lines.drop_last().contains(l));
                let j = choose|j: int| 0 <= j < lines.drop_last().len() && lines.drop_last()[j] == l;
                assert(lines[j] == l);
            } else {
                assert(l == lines.last());
                assert(lines[lines.len() - 1] == l);
            }
        }
    }
}

/// The segment `l` crosses the cell `c`: one of its samples strictly between
/// its ends falls on `c`, which lies in the array.
pub open spec fn crosses(p: Seq<Vec<MapPoint>>, l: Line, c: Cell) -> bool {
    let e = euclidean_spec(l.0, l.1);
    &&& e > 0
    &&& exists|i: int| 1 <= i < e / (MULT as int) && #[trigger] sample_along(l.0, l.1, e, i) == (c.0 as int, c.1 as int)
    &&& c != l.0
    &&& c != l.1
    &&& point_in(p, c.0 as int, c.1 as int)
}

/// The ends and crossed cells of the choke `c` are marked in `p`.
pub open spec fn choke_marked(p: Seq<Vec<MapPoint>>, c: Choke) -> bool {
    &&& forall|k: int|
        0 <= k < c.lines@.len() ==> pt(p, (#[trigger] c.lines@[k]).0.0 as int, c.lines@[k].0.1 as int).is_choke && pt(
            p,
            c.lines@[k].1.0 as int,
            c.lines@[k].1.1 as int,
        ).is_choke
    &&& forall|q: int| 0 <= q < c.pixels@.len() ==> pt(p, (#[trigger] c.pixels@[q]).0 as int, c.pixels@[q].1 as int).is_choke
    &&& forall|k: int| 0 <= k < c.lines@.len() ==> point_in(p, (#[trigger] c.lines@[k]).0.0 as int, c.lines@[k].0.1 as int)
        && point_in(p, c.lines@[k].1.0 as int, c.lines@[k].1.1 as int)
    &&& forall|q: int| 0 <= q < c.pixels@.len() ==> point_in(p, (#[trigger] c.pixels@[q]).0 as int, c.pixels@[q].1 as int)
}

proof fn lemma_choke_marked_kept(a: Seq<Vec<MapPoint>>, b: Seq<Vec<MapPoint>>, c: Choke)
    requires
        choke_marked(a, c),
        marks_chokes(a, b),
    ensures
        choke_marked(b, c),
{
    assert forall|x: int, y: int| point_in(a, x, y) implies point_in(b, x, y) by {
        assert(b[x]@.len() == a[x]@.len());
    }
}

/// `c` is an end of one of `lines`.
pub open spec fn line_end(lines: Seq<Line>, c: Cell) -> bool {
    exists|k: int| 0 <= k < lines.len() && ((#[trigger] lines[k]).0 == c || lines[k].1 == c)
}

/// Whether a segment crosses a cell depends only on the array's shape.
pub proof fn lemma_crosses_shape(a: Seq<Vec<MapPoint>>, b: Seq<Vec<MapPoint>>, l: Line, c: Cell)
    requires
        same_shape(a, b),
    ensures
        crosses(a, l, c) == crosses(b, l, c),
{
    if 0 <= c.0 < a.len() {
        assert(a[c.0 as int]@.len() == b[c.0 as int]@.len());
    }
}

/// `c` is an end of a segment of one of `chokes`, or crossed by one.
pub open spec fn kept_cell(p: Seq<Vec<MapPoint>>, chokes: Seq<Choke>, c: Cell) -> bool {
    exists|i: int| 0 <= i < chokes.len() && (line_end((#[trigger] chokes[i]).lines@, c) || crossed_by(p, chokes[i].lines@, c))
}

/// The pixels of `c` are the cells its segments cross, each once.
pub open spec fn pixels_exact(p: Seq<Vec<MapPoint>>, c: Choke) -> bool {
    &&& c.pixels@.no_duplicates()
    &&& forall|x: Cell| c.pixels@.contains(x) <==> #[trigger] crossed_by(p, c.lines@, x)
}

/// One of `lines` crosses `c`.
pub open spec fn crossed_by(p: Seq<Vec<MapPoint>>, lines: Seq<Line>, c: Cell) -> bool {
    exists|k: int| 0 <= k < lines.len() && #[trigger] crosses(p, lines[k], c)
}

fn mark_choke(points: &mut Vec<Vec<MapPoint>>, x: usize, y: usize)
    requires
        point_in(old(points)@, x as int, y as int),
    ensures
        marks_chokes(old(points)@, final(points)@),
        pt(final(points)@, x as int, y as int).is_choke,
        forall|i: int, j: int|
            point_in(old(points)@, i, j) && !(i == x && j == y) ==> #[trigger] pt(final(points)@, i, j)
                == pt(old(points)@, i, j),
{
    let mut p = points[x][y];
    p.is_choke = true;
    points[x][y] = p;
}

proof fn lemma_marks_chokes_trans(a: Seq<Vec<MapPoint>>, b: Seq<Vec<MapPoint>>, c: Seq<Vec<MapPoint>>)
    requires
        marks_chokes(a, b),
        marks_chokes(b, c),
    ensures
        marks_chokes(a, c),
{
    assert forall|i: int, j: int| point_in(a, i, j) implies (#[trigger] pt(c, i, j)) == (MapPoint {
        is_choke: pt(c, i, j).is_choke,
        ..pt(a, i, j)
    }) && (pt(a, i, j).is_choke ==> pt(c, i, j).is_choke) by {
        assert(point_in(b, i, j));
    }
    assert forall|x: int| 0 <= x < a.len() implies (#[trigger] a[x]@.len()) == c[x]@.len() by {
        assert(b[x]@.len() == a[x]@.len());
    }
}

impl Choke {
    /// Marks the cells of each segment as choke cells: its ends, and the
    /// samples between them, which are also collected (once each) in
    /// `pixels`.
    /// Marks the `i`-th sample of the segment `(a, b)` (of fixed-point length
    /// `e`) when it lies strictly between the ends and in the array, and
    /// collects it in `pixels` unless it is there already.
    fn record_sample(&mut self, points: &mut Vec<Vec<MapPoint>>, a: Cell, b: Cell, e: u64, i: u64)
        requires
            small(a) && small(b),
            0 < e < 0x4000_0000,
            1 <= i < e / (MULT as u64),
            e == euclidean_spec(a, b),
        ensures
            marks_chokes(old(points)@, final(points)@),
            final(self).lines@ == old(self).lines@,
            final(self).side1@ == old(self).side1@,
            final(self).side2@ == old(self).side2@,
            final(self).min_length == old(self).min_length,
            final(self).main_line == old(self).main_line,
            final(self).pixels@.len() >= old(self).pixels@.len(),
            forall|q: int| 0 <= q < old(self).pixels@.len() ==> #[trigger] final(self).pixels@[q] == old(self).pixels@[q],
            old(self).pixels@.no_duplicates() ==> final(self).pixels@.no_duplicates(),
            forall|q: int|
                old(self).pixels@.len() <= q < final(self).pixels@.len() ==> crosses(old(points)@, (a, b), #[trigger] final(self).pixels@[q]),
            ({
                let q = sample_along(a, b, e as int, i as int);
                (q != (a.0 as int, a.1 as int) && q != (b.0 as int, b.1 as int) && q.0 >= 0 && q.1 >= 0 && point_in(old(points)@, q.0, q.1))
                    ==> final(self).pixels@.contains((q.0 as usize, q.1 as usize)) && pt(final(points)@, q.0, q.1).is_choke
            }),
            forall|x2: int, y2: int|
                point_in(old(points)@, x2, y2) && #[trigger] pt(final(points)@, x2, y2).is_choke ==> pt(old(points)@, x2, y2).is_choke
                    || crosses(old(points)@, (a, b), (x2 as usize, y2 as usize)),
    {
        let ghost p0 = points@;
        let ghost px = self.pixels@;
        let sx = a.0 as i64;
        let sy = a.1 as i64;
        let dx = b.0 as i64 - sx;
        let dy = b.1 as i64 - sy;
        let dots = e / (MULT as u64);
        let ei = e as i64;
        let ii = i as i64;
        assert(-4096 * 0x4000_0000 * 10000 <= dx * ii * 10000 <= 4096 * 0x4000_0000 * 10000) by (nonlinear_arith)
            requires
                -4096 < dx < 4096,
                1 <= ii < 0x4000_0000,
        ;
        assert(-4096 * 0x4000_0000 * 10000 <= dy * ii * 10000 <= 4096 * 0x4000_0000 * 10000) by (nonlinear_arith)
            requires
                -4096 < dy < 4096,
                1 <= ii < 0x4000_0000,
        ;
        assert(0 <= sx * ei <= 4096 * 0x4000_0000 && 0 <= sy * ei <= 4096 * 0x4000_0000) by (nonlinear_arith)
            requires
                0 <= sx < 4096,
                0 <= sy < 4096,
                0 < ei < 0x4000_0000,
        ;
        let qx = floor_div(sx * ei + dx * ii * 10000, ei);
        let qy = floor_div(sy * ei + dy * ii * 10000, ei);
        assert((qx as int, qy as int) == sample_along(a, b, e as int, i as int));
        if !((qx == sx && qy == sy) || (qx == b.0 as i64 && qy == b.1 as i64)) && qx >= 0 && qy >= 0
            && (qx as u64) < (points.len() as u64) {
            let ux = qx as usize;
            if (qy as u64) < (points[ux].len() as u64) {
                let uy = qy as usize;
                mark_choke(points, ux, uy);
                let c: Cell = (ux, uy);
                proof {
                    assert(point_in(p0, ux as int, uy as int)) by {
                        assert(points@[ux as int]@.len() == p0[ux as int]@.len());
                    }
                    assert(sample_along(a, b, e as int, i as int) == (c.0 as int, c.1 as int));
                    let l: Line = (a, b);
                    assert(euclidean_spec(l.0, l.1) == e);
                    assert(1 <= i && (i as int) < (e as int) / (MULT as int));
                    assert(sample_along(l.0, l.1, euclidean_spec(l.0, l.1), i as int) == (c.0 as int, c.1 as int));
                    assert(c != l.0 && c != l.1);
                    assert(crosses(p0, l, c));
                }
                if !contains_cell(&self.pixels, c) {
                    self.pixels.push(c);
                    proof {
                        assert(self.pixels@[self.pixels@.len() - 1] == c);
                        if px.no_duplicates() {
                            assert forall|u: int, v: int| 0 <= u < v < self.pixels@.len() implies self.pixels@[u] != self.pixels@[v] by {
                                if v == self.pixels@.len() - 1 {
                                    assert(self.pixels@[u] == px[u]);
                                } else {
                                    assert(self.pixels@[u] == px[u] && self.pixels@[v] == px[v]);
                                }
                            }
                        }
                    }
                }
                proof {
                    assert(point_in(p0, ux as int, uy as int));
                    assert(sample_along(a, b, e as int, i as int) == (c.0 as int, c.1 as int));
                    if e != euclidean_spec(a, b) {
                    }
                }
            }
        }
    }

    pub fn set_points(&mut self, points: &mut Vec<Vec<MapPoint>>)
        requires
            lines_inside(old(points)@, old(self).lines@),
        ensures
            marks_chokes(old(points)@, final(points)@),
            forall|k: int|
                0 <= k < old(self).lines@.len() ==> pt(final(points)@, (#[trigger] old(self).lines@[k]).0.0 as int, old(self).lines@[k].0.1 as int).is_choke
                    && pt(final(points)@, old(self).lines@[k].1.0 as int, old(self).lines@[k].1.1 as int).is_choke,
            final(self).lines@ == old(self).lines@,
            final(self).side1@ == old(self).side1@,
            final(self).side2@ == old(self).side2@,
            final(self).min_length == old(self).min_length,
            final(self).main_line == old(self).main_line,
            final(self).pixels@.len() >= old(self).pixels@.len(),
            final(self).pixels@.subrange(0, old(self).pixels@.len() as int) == old(self).pixels@,
            old(self).pixels@.no_duplicates() ==> final(self).pixels@.no_duplicates(),
            forall|q: int|
                old(self).pixels@.len() <= q < final(self).pixels@.len() ==> crossed_by(old(points)@, old(self).lines@, #[trigger] final(self).pixels@[q]),
            forall|k: int, c: Cell|
                0 <= k < old(self).lines@.len() && #[trigger] crosses(old(points)@, old(self).lines@[k], c) ==> final(self).pixels@.contains(c)
                    && pt(final(points)@, c.0 as int, c.1 as int).is_choke,
            forall|x2: int, y2: int|
                point_in(old(points)@, x2, y2) && #[trigger] pt(final(points)@, x2, y2).is_choke ==> pt(old(points)@, x2, y2).is_choke
                    || line_end(old(self).lines@, (x2 as usize, y2 as usize)) || crossed_by(
                    old(points)@,
                    old(self).lines@,
                    (x2 as usize, y2 as usize),
                ),
    {
        let ghost p0 = points@;
        let ghost px0 = self.pixels@;
        let mut k: usize = 0;
        while k < self.lines.len()
            invariant
                lines_inside(p0, self.lines@),
                self.lines@ == old(self).lines@,
                self.side1@ == old(self).side1@,
                self.side2@ == old(self).side2@,
                self.min_length == old(self).min_length,
                self.main_line == old(self).main_line,
                p0 == old(points)@,
                marks_chokes(p0, points@),
                k <= self.lines@.len(),
                forall|q: int|
                    0 <= q < k ==> pt(points@, (#[trigger] self.lines@[q]).0.0 as int, self.lines@[q].0.1 as int).is_choke
                        && pt(points@, self.lines@[q].1.0 as int, self.lines@[q].1.1 as int).is_choke,
                self.pixels@.len() >= px0.len(),
                px0 == old(self).pixels@,
                self.pixels@.subrange(0, px0.len() as int) == px0,
                px0.no_duplicates() ==> self.pixels@.no_duplicates(),
                forall|q: int|
                    px0.len() <= q < self.pixels@.len() ==> crossed_by(p0, self.lines@, #[trigger] self.pixels@[q]),
                forall|k2: int, c: Cell|
                    0 <= k2 < k && #[trigger] crosses(p0, self.lines@[k2], c) ==> self.pixels@.contains(c) && pt(points@, c.0 as int, c.1 as int).is_choke,
                forall|x2: int, y2: int|
                    point_in(p0, x2, y2) && #[trigger] pt(points@, x2, y2).is_choke ==> pt(p0, x2, y2).is_choke || line_end(
                        self.lines@,
                        (x2 as usize, y2 as usize),
                    ) || crossed_by(p0, self.lines@, (x2 as usize, y2 as usize)),
            decreases self.lines@.len() - k,
        {
            let (a, b) = self.lines[k];
            let ghost m0 = points@;
            assert(point_in(p0, a.0 as int, a.1 as int) && point_in(p0, b.0 as int, b.1 as int));
            assert(point_in(points@, a.0 as int, a.1 as int));
            mark_choke(points, a.0, a.1);
            let ghost m1 = points@;
            assert(point_in(m1, b.0 as int, b.1 as int));
            mark_choke(points, b.0, b.1);
            let ghost m2 = points@;
            proof {
                lemma_marks_chokes_trans(p0, m0, m1);
                lemma_marks_chokes_trans(p0, m1, m2);
                assert(pt(m2, a.0 as int, a.1 as int).is_choke) by {
                    if !(a.0 == b.0 && a.1 == b.1) {
                        assert(pt(m2, a.0 as int, a.1 as int) == pt(m1, a.0 as int, a.1 as int));
                    }
                }
            }
            let ghost px_k = self.pixels@;
            proof {
                assert forall|x2: int, y2: int|
                    point_in(p0, x2, y2) && #[trigger] pt(m2, x2, y2).is_choke implies pt(p0, x2, y2).is_choke || line_end(
                        self.lines@,
                        (x2 as usize, y2 as usize),
                    ) || crossed_by(p0, self.lines@, (x2 as usize, y2 as usize)) by {
                    assert(point_in(m0, x2, y2)) by {
                        assert(m0[x2]@.len() == p0[x2]@.len());
                    }
                    let _ = pt(m0, x2, y2);
                    assert(point_in(m1, x2, y2));
                    if (x2 == a.0 && y2 == a.1) || (x2 == b.0 && y2 == b.1) {
                        assert(self.lines@[k as int] == (a, b));
                    }
                }
                assert forall|x2: int, y2: int| point_in(m0, x2, y2) && pt(m0, x2, y2).is_choke implies #[trigger] pt(m2, x2, y2).is_choke by {
                    assert(pt(m2, x2, y2) == (MapPoint { is_choke: pt(m2, x2, y2).is_choke, ..pt(p0, x2, y2) }));
                    assert(pt(m0, x2, y2) == (MapPoint { is_choke: pt(m0, x2, y2).is_choke, ..pt(p0, x2, y2) }));
                    assert(point_in(p0, x2, y2)) by {
                        assert(m0[x2]@.len() == p0[x2]@.len());
                    }
                    if pt(m1, x2, y2) != pt(m0, x2, y2) || pt(m2, x2, y2) != pt(m1, x2, y2) {
                    }
                }
            }
            let e = euclidean_distance(a, b) as u64;
            if e > 0 {
                let dots = e / (MULT as u64);
                let ei = e as i64;
                let mut i: u64 = 1;
                while i < dots
                    invariant
                        lines_inside(p0, self.lines@),
                        self.lines@ == old(self).lines@,
                        self.side1@ == old(self).side1@,
                        self.side2@ == old(self).side2@,
                        self.min_length == old(self).min_length,
                        self.main_line == old(self).main_line,
                        p0 == old(points)@,
                        m2 == points@ || marks_chokes(m2, points@),
                        marks_chokes(p0, points@),
                        small(a) && small(b),
                        ei == e,
                        0 < e,
                        e == euclidean_spec(a, b),
                        e < 0x4000_0000,
                        dots == e / (MULT as u64),
                        1 <= i,
                        k < self.lines@.len(),
                        self.lines@[k as int] == (a, b),
                        pt(points@, a.0 as int, a.1 as int).is_choke,
                        pt(points@, b.0 as int, b.1 as int).is_choke,
                        forall|q: int|
                            0 <= q < k ==> pt(points@, (#[trigger] self.lines@[q]).0.0 as int, self.lines@[q].0.1 as int).is_choke
                                && pt(points@, self.lines@[q].1.0 as int, self.lines@[q].1.1 as int).is_choke,
                                self.pixels@.len() >= px0.len(),
                        px0 == old(self).pixels@,
                        self.pixels@.subrange(0, px0.len() as int) == px0,
                        px0.no_duplicates() ==> self.pixels@.no_duplicates(),
                        forall|q: int|
                            px0.len() <= q < self.pixels@.len() ==> crossed_by(p0, self.lines@, #[trigger] self.pixels@[q]),
                        forall|k2: int, c: Cell|
                            0 <= k2 < k && #[trigger] crosses(p0, self.lines@[k2], c) ==> self.pixels@.contains(c) && pt(points@, c.0 as int, c.1 as int).is_choke,
                        forall|j: int|
                            1 <= j < i ==> {
                                let q = #[trigger] sample_along(a, b, e as int, j);
                                (q != (a.0 as int, a.1 as int) && q != (b.0 as int, b.1 as int) && q.0 >= 0 && q.1 >= 0
                                    && point_in(p0, q.0, q.1)) ==> self.pixels@.contains((q.0 as usize, q.1 as usize))
                                    && pt(points@, q.0, q.1).is_choke
                            },
                        forall|x2: int, y2: int|
                            point_in(p0, x2, y2) && #[trigger] pt(points@, x2, y2).is_choke ==> pt(p0, x2, y2).is_choke || line_end(
                                self.lines@,
                                (x2 as usize, y2 as usize),
                            ) || crossed_by(p0, self.lines@, (x2 as usize, y2 as usize)),
                    decreases dots - i,
                {
                    let ghost px_before = self.pixels@;
                    let ghost pts_before = points@;
                    let ghost line = self.lines@[k as int];
                    proof {
                        assert(point_in(p0, a.0 as int, a.1 as int) && point_in(p0, b.0 as int, b.1 as int));
                        assert forall|x2: int, y2: int| point_in(p0, x2, y2) <==> point_in(pts_before, x2, y2) by {
                            if 0 <= x2 < p0.len() {
                                assert(pts_before[x2]@.len() == p0[x2]@.len());
                            }
                        }
                    }
                    self.record_sample(points, a, b, e, i);
                    proof {
                        assert forall|x2: int, y2: int|
                            point_in(p0, x2, y2) && #[trigger] pt(points@, x2, y2).is_choke implies pt(p0, x2, y2).is_choke || line_end(
                                self.lines@,
                                (x2 as usize, y2 as usize),
                            ) || crossed_by(p0, self.lines@, (x2 as usize, y2 as usize)) by {
                            let _ = pt(pts_before, x2, y2);
                            if !pt(pts_before, x2, y2).is_choke {
                                lemma_crosses_shape(p0, pts_before, (a, b), (x2 as usize, y2 as usize));
                                assert(self.lines@[k as int] == (a, b));
                            }
                        }
                        lemma_marks_chokes_trans(p0, pts_before, points@);
                        if m2 == pts_before {
                        } else {
                            lemma_marks_chokes_trans(m2, pts_before, points@);
                        }
                        assert forall|q: int|
                            0 <= q < k implies pt(points@, (#[trigger] self.lines@[q]).0.0 as int, self.lines@[q].0.1 as int).is_choke
                                && pt(points@, self.lines@[q].1.0 as int, self.lines@[q].1.1 as int).is_choke by {
                            assert(point_in(p0, self.lines@[q].0.0 as int, self.lines@[q].0.1 as int));
                            assert(point_in(p0, self.lines@[q].1.0 as int, self.lines@[q].1.1 as int));
                        }
                        assert(pt(points@, a.0 as int, a.1 as int).is_choke);
                        assert(pt(points@, b.0 as int, b.1 as int).is_choke);
                        assert forall|q: int| 0 <= q < px_before.len() implies self.pixels@[q] == px_before[q] by {}
                        assert(self.pixels@.subrange(0, px0.len() as int) =~= px0) by {
                            assert forall|q: int| 0 <= q < px0.len() implies self.pixels@[q] == px0[q] by {
                                assert(px_before.subrange(0, px0.len() as int)[q] == px0[q]);
                            }
                        }
                        assert forall|q: int| px0.len() <= q < self.pixels@.len() implies crossed_by(p0, self.lines@, #[trigger] self.pixels@[q]) by {
                            if q < px_before.len() {
                                assert(self.pixels@[q] == px_before[q]);
                            } else {
                                assert(crosses(p0, line, self.pixels@[q]));
                            }
                        }
                        assert forall|k2: int, c: Cell|
                            0 <= k2 < k && #[trigger] crosses(p0, self.lines@[k2], c) implies self.pixels@.contains(c) && pt(points@, c.0 as int, c.1 as int).is_choke by {
                            let q = choose|q: int| 0 <= q < px_before.len() && px_before[q] == c;
                            assert(self.pixels@[q] == c);
                        }
                        assert forall|j: int|
                            1 <= j < i + 1 implies {
                                let q = #[trigger] sample_along(a, b, e as int, j);
                                (q != (a.0 as int, a.1 as int) && q != (b.0 as int, b.1 as int) && q.0 >= 0 && q.1 >= 0
                                    && point_in(p0, q.0, q.1)) ==> self.pixels@.contains((q.0 as usize, q.1 as usize))
                                    && pt(points@, q.0, q.1).is_choke
                            } by {
                            let q = sample_along(a, b, e as int, j);
                            if j < i && q != (a.0 as int, a.1 as int) && q != (b.0 as int, b.1 as int) && q.0 >= 0 && q.1 >= 0 && point_in(p0, q.0, q.1) {
                                let c = (q.0 as usize, q.1 as usize);
                                let r = choose|r: int| 0 <= r < px_before.len() && px_before[r] == c;
                                assert(self.pixels@[r] == c);
                            }
                        }
                    }
                    i += 1;
                }
            }
            proof {
                assert forall|q: int| px0.len() <= q < self.pixels@.len() implies crossed_by(p0, self.lines@, #[trigger] self.pixels@[q]) by {
                    if e == 0 {
                        assert(self.pixels@ == px_k);
                    }
                }
                assert forall|k2: int, c: Cell|
                    0 <= k2 < k + 1 && #[trigger] crosses(p0, self.lines@[k2], c) implies self.pixels@.contains(c) && pt(points@, c.0 as int, c.1 as int).is_choke by {
                    if k2 == k {
                        let l = self.lines@[k2];
                        assert(l == (a, b));
                        let ee = euclidean_spec(a, b);
                        let j = choose|j: int| 1 <= j < ee / (MULT as int) && #[trigger] sample_along(l.0, l.1, ee, j) == (c.0 as int, c.1 as int);
                        assert(sample_along(a, b, e as int, j) == (c.0 as int, c.1 as int));
                        assert(point_in(p0, c.0 as int, c.1 as int));
                    } else {
                        if e == 0 {
                            assert(self.pixels@ == px_k);
                        }
                    }
                }
            }
            k += 1;
        }
    }

    /// Drops the overlong segments and sets the centre line.
    pub fn finalize(&mut self)
        requires
            old(self).cells_small(),
        ensures
            final(self).min_length == shortest(old(self).lines@),
            final(self).lines@ == keep_short(
                old(self).lines@,
                shortest(old(self).lines@) + CHOKE_LENGTH_SLACK,
            ),
            final(self).main_line == (average(old(self).side1@), average(old(self).side2@)),
            final(self).side1@ == old(self).side1@,
            final(self).side2@ == old(self).side2@,
            final(self).pixels@ == old(self).pixels@,
    {
        self.remove_excess_lines();
        proof {
            let limit = shortest(old(self).lines@) + CHOKE_LENGTH_SLACK;
            lemma_keep_short_from(old(self).lines@, limit);
            assert forall|i: int| 0 <= i < self.lines@.len() implies small((#[trigger] self.lines@[i]).0) && small(self.lines@[i].1) by {
                assert(self.lines@ == keep_short(old(self).lines@, limit));
                assert(keep_short(old(self).lines@, limit).contains(self.lines@[i]));
                assert(old(self).lines@.contains(self.lines@[i]));
                let j = choose|j: int| 0 <= j < old(self).lines@.len() && old(self).lines@[j] == self.lines@[i];
                assert(small(old(self).lines@[j].0) && small(old(self).lines@[j].1));
            }
        }
        self.calc_final_line();
    }
}

} // verus!

verus! {

/// Every segment of `lines` is one of `input`, possibly reversed.
pub open spec fn drawn_from(input: Seq<Line>, lines: Seq<Line>) -> bool {
    forall|k: int| 0 <= k < lines.len() ==> input.contains(#[trigger] lines[k]) || input.contains((lines[k].1, lines[k].0))
}

/// A choke being grown: its segments and its two sides.
pub type Group = (Seq<Line>, Seq<Cell>, Seq<Cell>);

/// Two cells at most one diagonal step apart.
pub open spec fn near(a: Cell, b: Cell) -> bool {
    octile_spec(a, b) <= SQRT2
}

/// The first index from `l` below `n` whose cell of `side` is near `p`.
pub open spec fn first_near(side: Seq<Cell>, p: Cell, l: int, n: int) -> Option<int>
    decreases n - l,
{
    if l >= n {
        None
    } else if near(p, side[l]) {
        Some(l)
    } else {
        first_near(side, p, l + 1, n)
    }
}

/// `g` with the segment `(a, b)` added, and its ends added to the sides.
pub open spec fn with_line(g: Group, a: Cell, b: Cell) -> Group {
    (g.0.push((a, b)), with_cell(g.1, a), with_cell(g.2, b))
}

/// Tests the segment `check` against the `k`-th cell of the first side: in
/// its own direction, then reversed. Returns the grown group, whether the
/// segment is now taken, and whether the test joined it.
pub open spec fn join_step(g: Group, taken: bool, check: Line, k: int) -> (Group, bool, bool) {
    let p1 = g.1[k];
    let (g1, t1, a1) = if near(check.0, p1) {
        match first_near(g.2, check.1, 0, g.2.len() as int) {
            Some(l) => if octile_spec(check.0, p1) > 0 || octile_spec(check.1, g.2[l]) > 0 {
                (with_line(g, check.0, check.1), true, true)
            } else {
                (g, true, false)
            },
            None => (g, taken, false),
        }
    } else {
        (g, taken, false)
    };
    if near(check.1, p1) {
        match first_near(g1.2, check.0, 0, g1.2.len() as int) {
            Some(l) => (
                if octile_spec(check.1, p1) > 0 && octile_spec(check.0, g1.2[l]) > 0 {
                    with_line(g1, check.1, check.0)
                } else {
                    g1
                },
                true,
                true,
            ),
            None => (g1, t1, a1),
        }
    } else {
        (g1, t1, a1)
    }
}

/// The tests of `check` against the first-side cells `k..n1`, stopping at the
/// first that joins.
pub open spec fn join_all(g: Group, taken: bool, check: Line, k: int, n1: int) -> (Group, bool)
    decreases n1 - k,
{
    if k >= n1 {
        (g, taken)
    } else {
        let (g2, t2, a2) = join_step(g, taken, check, k);
        if a2 {
            (g2, t2)
        } else {
            join_all(g2, t2, check, k + 1, n1)
        }
    }
}

/// One pass over the segments `j..n` not yet taken.
pub open spec fn join_pass(g: Group, used: Seq<bool>, input: Seq<Line>, j: int, n: int) -> (Group, Seq<bool>)
    decreases n - j,
{
    if j >= n || j < 0 {
        (g, used)
    } else if used[j] {
        join_pass(g, used, input, j + 1, n)
    } else {
        let (g2, t) = join_all(g, false, input[j], 0, g.1.len() as int);
        join_pass(g2, if t { used.update(j, true) } else { used }, input, j + 1, n)
    }
}

/// Passes over the segments after `i` until a pass adds nothing (or `n`
/// passes were made).
pub open spec fn grow(g: Group, used: Seq<bool>, input: Seq<Line>, i: int, last: int, pass: int, n: int) -> (
    Group,
    Seq<bool>,
)
    decreases n - pass,
{
    if !(last < g.0.len() && pass < n) {
        (g, used)
    } else {
        let (g2, u2) = join_pass(g, used, input, i + 1, n);
        grow(g2, u2, input, i, g.0.len() as int, pass + 1, n)
    }
}

/// The groups started, in order, from the segments `i..n` not yet taken.
pub open spec fn group_from(used: Seq<bool>, input: Seq<Line>, i: int, n: int) -> Seq<Group>
    decreases n - i,
{
    if i >= n || i < 0 {
        Seq::empty()
    } else if used[i] {
        group_from(used, input, i + 1, n)
    } else {
        let g0: Group = (seq![input[i]], seq![input[i].0], seq![input[i].1]);
        let (g, u) = grow(g0, used.update(i, true), input, i, 0, 0, n);
        seq![g] + group_from(u, input, i + 1, n)
    }
}

/// The segments a group keeps once the overlong ones are dropped.
pub open spec fn final_lines(g: Group) -> Seq<Line> {
    keep_short(g.0, shortest(g.0) + CHOKE_LENGTH_SLACK)
}

/// The groups that keep at least `CHOKE_MIN_LINES` segments.
pub open spec fn kept(gs: Seq<Group>) -> Seq<Group>
    decreases gs.len(),
{
    if gs.len() == 0 {
        gs
    } else {
        (if final_lines(gs[0]).len() >= CHOKE_MIN_LINES {
            seq![gs[0]]
        } else {
            Seq::empty()
        }) + kept(gs.drop_first())
    }
}

/// All the chokes of the segments `input`, before finalizing.
pub open spec fn all_groups(input: Seq<Line>) -> Seq<Group> {
    group_from(Seq::new(input.len(), |q: int| false), input, 0, input.len() as int)
}

/// `c` is the finalized choke of the group `g`.
pub open spec fn finalized_from(c: Choke, g: Group) -> bool {
    &&& c.lines@ == final_lines(g)
    &&& c.side1@ == g.1
    &&& c.side2@ == g.2
    &&& c.min_length == shortest(g.0)
    &&& c.main_line == (average(g.1), average(g.2))
}

pub open spec fn group_small(g: Group) -> bool {
    &&& forall|i: int| 0 <= i < g.0.len() ==> small((#[trigger] g.0[i]).0) && small(g.0[i].1)
    &&& forall|i: int| 0 <= i < g.1.len() ==> small(#[trigger] g.1[i])
    &&& forall|i: int| 0 <= i < g.2.len() ==> small(#[trigger] g.2[i])
    &&& g.1.len() > 0
    &&& g.2.len() > 0
}

impl Choke {
    pub open spec fn group(&self) -> Group {
        (self.lines@, self.side1@, self.side2@)
    }
}

fn find_near(side: &Vec<Cell>, p: Cell) -> (r: Option<usize>)
    requires
        small(p),
        forall|i: int| 0 <= i < side@.len() ==> small(#[trigger] side@[i]),
    ensures
        match r {
            Some(l) => first_near(side@, p, 0, side@.len() as int) == Some(l as int) && l < side@.len(),
            None => first_near(side@, p, 0, side@.len() as int) is None,
        },
{
    let n = side.len();
    let mut l: usize = 0;
    while l < n
        invariant
            n == side@.len(),
            l <= n,
            small(p),
            forall|i: int| 0 <= i < side@.len() ==> small(#[trigger] side@[i]),
            first_near(side@, p, 0, n as int) == first_near(side@, p, l as int, n as int),
        decreases n - l,
    {
        assert(small(side@[l as int]));
        if octile_distance(p, side[l]) <= SQRT2 {
            return Some(l);
        }
        l += 1;
    }
    None
}

proof fn lemma_with_line_small(g: Group, a: Cell, b: Cell)
    requires
        group_small(g),
        small(a),
        small(b),
    ensures
        group_small(with_line(g, a, b)),
{
    let h = with_line(g, a, b);
    assert forall|i: int| 0 <= i < h.0.len() implies small((#[trigger] h.0[i]).0) && small(h.0[i].1) by {
        if i < g.0.len() {
            assert(h.0[i] == g.0[i]);
        }
    }
    assert forall|i: int| 0 <= i < h.1.len() implies small(#[trigger] h.1[i]) by {
        if i < g.1.len() {
            assert(h.1[i] == g.1[i]);
        }
    }
    assert forall|i: int| 0 <= i < h.2.len() implies small(#[trigger] h.2[i]) by {
        if i < g.2.len() {
            assert(h.2[i] == g.2[i]);
        }
    }
}

impl Choke {
    fn join_step_exec(&mut self, check: Line, k: usize, taken: bool) -> (r: (bool, bool))
        requires
            group_small(old(self).group()),
            k < old(self).side1@.len(),
            small(check.0) && small(check.1),
        ensures
            (final(self).group(), r.0, r.1) == join_step(old(self).group(), taken, check, k as int),
            group_small(final(self).group()),
            final(self).pixels@ == old(self).pixels@,
            final(self).side1@.len() >= old(self).side1@.len(),
            final(self).lines@.len() >= old(self).lines@.len(),
            forall|q: int| 0 <= q < old(self).lines@.len() ==> #[trigger] final(self).lines@[q] == old(self).lines@[q],
            forall|q: int|
                old(self).lines@.len() <= q < final(self).lines@.len() ==> #[trigger] final(self).lines@[q] == check
                    || final(self).lines@[q] == (check.1, check.0),
    {
        let ghost g = self.group();
        let p1 = self.side1[k];
        assert(small(g.1[k as int]));
        let mut t = taken;
        let mut added = false;
        let d01 = octile_distance(check.0, p1);
        if d01 <= SQRT2 {
            match find_near(&self.side2, check.1) {
                Some(l) => {
                    let d12 = octile_distance(check.1, self.side2[l]);
                    assert(small(self.side2@[l as int]));
                    t = true;
                    if d01 > 0 || d12 > 0 {
                        proof {
                            lemma_with_line_small(g, check.0, check.1);
                        }
                        self.add_line(check.0, check.1);
                        added = true;
                    }
                },
                None => {},
            }
        }
        let ghost g1 = self.group();
        let ghost mid_lines = self.lines@;
        let d11 = octile_distance(check.1, p1);
        if d11 <= SQRT2 {
            match find_near(&self.side2, check.0) {
                Some(l) => {
                    let d02 = octile_distance(check.0, self.side2[l]);
                    assert(small(self.side2@[l as int]));
                    t = true;
                    if d11 > 0 && d02 > 0 {
                        proof {
                            lemma_with_line_small(g1, check.1, check.0);
                        }
                        self.add_line(check.1, check.0);
                    }
                    added = true;
                },
                None => {},
            }
        }
        (t, added)
    }
}

/// Marks the cells of a kept choke and appends it to `result`.
fn mark_and_keep(choke: Choke, points: &mut Vec<Vec<MapPoint>>, result: &mut Vec<Choke>, p0: Ghost<Seq<Vec<MapPoint>>>)
    requires
        choke.pixels@.len() == 0,
        lines_inside(p0@, choke.lines@),
        marks_chokes(p0@, old(points)@),
        forall|q: int| 0 <= q < old(result)@.len() ==> choke_marked(old(points)@, #[trigger] old(result)@[q]),
        forall|q: int| 0 <= q < old(result)@.len() ==> pixels_exact(p0@, #[trigger] old(result)@[q]),
        forall|c: Cell| point_in(p0@, c.0 as int, c.1 as int) ==> (#[trigger] pt(old(points)@, c.0 as int, c.1 as int).is_choke <==> pt(p0@, c.0 as int, c.1 as int).is_choke || kept_cell(p0@, old(result)@, c)),
    ensures
        marks_chokes(p0@, final(points)@),
        final(result)@.len() == old(result)@.len() + 1,
        forall|q: int| 0 <= q < old(result)@.len() ==> #[trigger] final(result)@[q] == old(result)@[q],
        final(result)@.last().lines@ == choke.lines@,
        final(result)@.last().side1@ == choke.side1@,
        final(result)@.last().side2@ == choke.side2@,
        final(result)@.last().min_length == choke.min_length,
        final(result)@.last().main_line == choke.main_line,
        forall|q: int| 0 <= q < final(result)@.len() ==> choke_marked(final(points)@, #[trigger] final(result)@[q]),
        forall|q: int| 0 <= q < final(result)@.len() ==> pixels_exact(p0@, #[trigger] final(result)@[q]),
        forall|c: Cell| point_in(p0@, c.0 as int, c.1 as int) ==> (#[trigger] pt(final(points)@, c.0 as int, c.1 as int).is_choke <==> pt(p0@, c.0 as int, c.1 as int).is_choke || kept_cell(p0@, final(result)@, c)),
{
    let ghost p0 = p0@;
    let mut choke = choke;
    let ghost pm = points@;
    proof {
        assert forall|q: int| 0 <= q < choke.lines@.len() implies point_in(pm, (#[trigger] choke.lines@[q]).0.0 as int, choke.lines@[q].0.1 as int)
            && point_in(pm, choke.lines@[q].1.0 as int, choke.lines@[q].1.1 as int) && small(choke.lines@[q].0) && small(choke.lines@[q].1) by {
            assert(point_in(p0, choke.lines@[q].0.0 as int, choke.lines@[q].0.1 as int));
            assert(point_in(p0, choke.lines@[q].1.0 as int, choke.lines@[q].1.1 as int));
        }
    }
    let ghost cb = choke;
    assert(choke.pixels@.len() == 0);
    choke.set_points(points);
    proof {
        lemma_marks_chokes_trans(p0, pm, points@);
        assert forall|q: int| 0 <= q < result@.len() implies choke_marked(points@, #[trigger] result@[q]) by {
            lemma_choke_marked_kept(pm, points@, result@[q]);
        }
        assert(choke_marked(points@, choke)) by {
            assert forall|q: int| 0 <= q < choke.pixels@.len() implies pt(points@, (#[trigger] choke.pixels@[q]).0 as int, choke.pixels@[q].1 as int).is_choke
                && point_in(points@, choke.pixels@[q].0 as int, choke.pixels@[q].1 as int) by {
                assert(crossed_by(pm, choke.lines@, choke.pixels@[q]));
                let k2 = choose|k2: int| 0 <= k2 < choke.lines@.len() && #[trigger] crosses(pm, choke.lines@[k2], choke.pixels@[q]);
                assert(point_in(points@, choke.pixels@[q].0 as int, choke.pixels@[q].1 as int)) by {
                    assert(points@[choke.pixels@[q].0 as int]@.len() == pm[choke.pixels@[q].0 as int]@.len());
                }
            }
            assert forall|k: int| 0 <= k < choke.lines@.len() implies point_in(points@, (#[trigger] choke.lines@[k]).0.0 as int, choke.lines@[k].0.1 as int)
                && point_in(points@, choke.lines@[k].1.0 as int, choke.lines@[k].1.1 as int) by {
                assert(point_in(pm, choke.lines@[k].0.0 as int, choke.lines@[k].0.1 as int));
                assert(point_in(pm, choke.lines@[k].1.0 as int, choke.lines@[k].1.1 as int));
                assert(points@[choke.lines@[k].0.0 as int]@.len() == pm[choke.lines@[k].0.0 as int]@.len());
                assert(points@[choke.lines@[k].1.0 as int]@.len() == pm[choke.lines@[k].1.0 as int]@.len());
            }
        }
        assert(pixels_exact(p0, choke)) by {
            assert forall|x: Cell| choke.pixels@.contains(x) <==> #[trigger] crossed_by(p0, choke.lines@, x) by {
                if choke.pixels@.contains(x) {
                    let q = choose|q: int| 0 <= q < choke.pixels@.len() && choke.pixels@[q] == x;
                    assert(crossed_by(pm, choke.lines@, choke.pixels@[q]));
                    let k2 = choose|k2: int| 0 <= k2 < choke.lines@.len() && #[trigger] crosses(pm, choke.lines@[k2], x);
                    lemma_crosses_shape(p0, pm, choke.lines@[k2], x);
                }
                if crossed_by(p0, choke.lines@, x) {
                    let k2 = choose|k2: int| 0 <= k2 < choke.lines@.len() && #[trigger] crosses(p0, choke.lines@[k2], x);
                    lemma_crosses_shape(p0, pm, choke.lines@[k2], x);
                }
            }
        }
    }
    let ghost ch = choke;
    result.push(choke);
    proof {
        assert(result@[result@.len() - 1] == ch);
        assert forall|q: int| 0 <= q < result@.len() implies pixels_exact(p0, #[trigger] result@[q]) by {
            if q < old(result)@.len() {
                assert(result@[q] == old(result)@[q]);
            }
        }
        assert forall|c: Cell| point_in(p0, c.0 as int, c.1 as int) implies (#[trigger] pt(points@, c.0 as int, c.1 as int).is_choke <==> pt(p0, c.0 as int, c.1 as int).is_choke || kept_cell(p0, result@, c)) by {
            let x = c.0 as int;
            let y = c.1 as int;
            assert(point_in(pm, x, y)) by {
                assert(pm[x]@.len() == p0[x]@.len());
            }
            let _ = pt(pm, x, y);
            assert(pt(pm, x, y).is_choke ==> pt(points@, x, y).is_choke);
            assert(pt(pm, x, y).is_choke <==> pt(p0, x, y).is_choke || kept_cell(p0, old(result)@, c));
            assert(pt(p0, x, y).is_choke ==> pt(pm, x, y).is_choke);
            if kept_cell(p0, old(result)@, c) {
                let q = choose|q: int| 0 <= q < old(result)@.len() && (line_end((#[trigger] old(result)@[q]).lines@, c) || crossed_by(p0, old(result)@[q].lines@, c));
                assert(result@[q] == old(result)@[q]);
            }
            if pt(points@, x, y).is_choke && !pt(pm, x, y).is_choke {
                if crossed_by(pm, ch.lines@, c) {
                    let k2 = choose|k2: int| 0 <= k2 < ch.lines@.len() && #[trigger] crosses(pm, ch.lines@[k2], c);
                    lemma_crosses_shape(p0, pm, ch.lines@[k2], c);
                }
                assert(line_end(result@[result@.len() - 1].lines@, c) || crossed_by(p0, result@[result@.len() - 1].lines@, c));
            }
            if kept_cell(p0, result@, c) {
                let q = choose|q: int| 0 <= q < result@.len() && (line_end((#[trigger] result@[q]).lines@, c) || crossed_by(p0, result@[q].lines@, c));
                if q < old(result)@.len() {
                    assert(result@[q] == old(result)@[q]);
                    assert(kept_cell(p0, old(result)@, c));
                } else {
                    assert(result@[q] == ch);
                    if line_end(ch.lines@, c) {
                        let k = choose|k: int| 0 <= k < ch.lines@.len() && ((#[trigger] ch.lines@[k]).0 == c || ch.lines@[k].1 == c);
                        assert(choke_marked(points@, ch));
                        assert(pt(points@, ch.lines@[k].0.0 as int, ch.lines@[k].0.1 as int).is_choke);
                        assert(pt(points@, ch.lines@[k].1.0 as int, ch.lines@[k].1.1 as int).is_choke);
                    } else {
                        assert(ch.pixels@.contains(c));
                        let q2 = choose|q2: int| 0 <= q2 < ch.pixels@.len() && ch.pixels@[q2] == c;
                        assert(choke_marked(points@, ch));
                        assert(pt(points@, ch.pixels@[q2].0 as int, ch.pixels@[q2].1 as int).is_choke);
                    }
                }
            }
        }
    }
}

/// Groups segments into chokes (see `all_groups`): a segment joins a choke
/// when its ends lie within one diagonal step of a cell on each side, over
/// repeated passes until one adds nothing. Each group is then finalized; those
/// left with fewer than `CHOKE_MIN_LINES` segments are dropped, the others mark
/// their cells.
pub fn group_chokes(choke_lines: &Vec<Line>, points: &mut Vec<Vec<MapPoint>>) -> (r: Vec<Choke>)
    requires
        lines_inside(old(points)@, choke_lines@),
    ensures
        marks_chokes(old(points)@, final(points)@),
        r@.len() == kept(all_groups(choke_lines@)).len(),
        forall|i: int| 0 <= i < r@.len() ==> finalized_from(#[trigger] r@[i], kept(all_groups(choke_lines@))[i]),
        forall|i: int| 0 <= i < r@.len() ==> (#[trigger] r@[i]).lines@.len() >= CHOKE_MIN_LINES,
        forall|i: int| 0 <= i < r@.len() ==> drawn_from(choke_lines@, (#[trigger] r@[i]).lines@),
        forall|i: int| 0 <= i < r@.len() ==> choke_marked(final(points)@, #[trigger] r@[i]),
        forall|i: int| 0 <= i < r@.len() ==> pixels_exact(old(points)@, #[trigger] r@[i]),
        forall|c: Cell| point_in(old(points)@, c.0 as int, c.1 as int) ==> (#[trigger] pt(final(points)@, c.0 as int, c.1 as int).is_choke <==> pt(old(points)@, c.0 as int, c.1 as int).is_choke || kept_cell(old(points)@, r@, c)),
{
    let ghost p0 = points@;
    let n = choke_lines.len();
    let mut used: Vec<bool> = Vec::new();
    let mut k: usize = 0;
    while k < n
        invariant
            k <= n,
            used@.len() == k,
            forall|q: int| 0 <= q < k ==> !(#[trigger] used@[q]),
        decreases n - k,
    {
        used.push(false);
        k += 1;
    }
    let ghost all = all_groups(choke_lines@);
    assert(used@ =~= Seq::new(n as nat, |q: int| false));
    let ghost mut done: Seq<Group> = Seq::empty();
    let mut result: Vec<Choke> = Vec::new();
    let mut i: usize = 0;
    while i < n
        invariant
            n == choke_lines@.len(),
            used@.len() == n,
            i <= n,
            lines_inside(p0, choke_lines@),
            p0 == old(points)@,
            marks_chokes(p0, points@),
            done + kept(group_from(used@, choke_lines@, i as int, n as int)) == kept(all),
            done.len() == result@.len(),
            forall|q: int| 0 <= q < result@.len() ==> finalized_from(#[trigger] result@[q], done[q]),
            forall|q: int| 0 <= q < result@.len() ==> (#[trigger] result@[q]).lines@.len() >= CHOKE_MIN_LINES,
            forall|q: int| 0 <= q < result@.len() ==> drawn_from(choke_lines@, (#[trigger] result@[q]).lines@),
            forall|q: int| 0 <= q < result@.len() ==> choke_marked(points@, #[trigger] result@[q]),
            forall|q: int| 0 <= q < result@.len() ==> pixels_exact(p0, #[trigger] result@[q]),
            forall|c: Cell| point_in(p0, c.0 as int, c.1 as int) ==> (#[trigger] pt(points@, c.0 as int, c.1 as int).is_choke <==> pt(p0, c.0 as int, c.1 as int).is_choke || kept_cell(p0, result@, c)),
        decreases n - i,
    {
        if used[i] {
            i += 1;
            continue;
        }
        let ghost used_i = used@;
        used.set(i, true);
        assert(small(choke_lines@[i as int].0) && small(choke_lines@[i as int].1));
        let mut choke = Choke::new(choke_lines[i]);
        let ghost g0: Group = (seq![choke_lines@[i as int]], seq![choke_lines@[i as int].0], seq![choke_lines@[i as int].1]);
        assert(choke.group() == g0);
        proof {
            assert(lines_inside(p0, choke.lines@)) by {
                assert(choke.lines@[0] == choke_lines@[i as int]);
            }
            assert(drawn_from(choke_lines@, choke.lines@)) by {
                assert(choke.lines@[0] == choke_lines@[i as int]);
                assert(choke_lines@.contains(choke_lines@[i as int]));
            }
        }
        let ghost target = grow(g0, used@, choke_lines@, i as int, 0, 0, n as int);
        let mut last: usize = 0;
        let mut cur: usize = choke.lines.len();
        let mut pass: usize = 0;
        while last < cur && pass < n
            invariant
                n == choke_lines@.len(),
                used@.len() == n,
                lines_inside(p0, choke_lines@),
                lines_inside(p0, choke.lines@),
                drawn_from(choke_lines@, choke.lines@),
                group_small(choke.group()),
                choke.pixels@.len() == 0,
                i < n,
                pass <= n,
                cur == choke.lines@.len(),
                grow(choke.group(), used@, choke_lines@, i as int, last as int, pass as int, n as int) == target,
            decreases n - pass,
        {
            let ghost gp = choke.group();
            let ghost up = used@;
            let mut j: usize = i + 1;
            while j < n
                invariant
                    n == choke_lines@.len(),
                    used@.len() == n,
                    lines_inside(p0, choke_lines@),
                    lines_inside(p0, choke.lines@),
                    drawn_from(choke_lines@, choke.lines@),
                    group_small(choke.group()),
                    choke.pixels@.len() == 0,
                choke.pixels@.len() == 0,
                    i + 1 <= j <= n,
                    join_pass(choke.group(), used@, choke_lines@, j as int, n as int) == join_pass(gp, up, choke_lines@, i + 1, n as int),
                decreases n - j,
            {
                if used[j] {
                    j += 1;
                    continue;
                }
                let check = choke_lines[j];
                assert(small(choke_lines@[j as int].0) && small(choke_lines@[j as int].1));
                assert(point_in(p0, check.0.0 as int, check.0.1 as int) && point_in(p0, check.1.0 as int, check.1.1 as int));
                assert(choke_lines@.contains(check)) by {
                    assert(choke_lines@[j as int] == check);
                }
                let ghost gj = choke.group();
                let n1 = choke.side1.len();
                let mut taken = false;
                let mut kk: usize = 0;
                while kk < n1
                    invariant_except_break
                        join_all(choke.group(), taken, check, kk as int, n1 as int) == join_all(gj, false, check, 0, n1 as int),
                    invariant
                        n == choke_lines@.len(),
                        used@.len() == n,
                        lines_inside(p0, choke.lines@),
                        drawn_from(choke_lines@, choke.lines@),
                        group_small(choke.group()),
                        choke.pixels@.len() == 0,
                    choke.pixels@.len() == 0,
                choke.pixels@.len() == 0,
                        j < n,
                        check == choke_lines@[j as int],
                        choke_lines@.contains(check),
                        small(check.0) && small(check.1),
                        point_in(p0, check.0.0 as int, check.0.1 as int),
                        point_in(p0, check.1.0 as int, check.1.1 as int),
                        n1 <= choke.side1@.len(),
                        n1 == gj.1.len(),
                    ensures
                        (choke.group(), taken) == join_all(gj, false, check, 0, n1 as int),
                    decreases n1 - kk,
                {
                    let ghost before_lines = choke.lines@;
                    let (t2, a2) = choke.join_step_exec(check, kk, taken);
                    proof {
                        assert forall|q: int| 0 <= q < choke.lines@.len() implies point_in(p0, (#[trigger] choke.lines@[q]).0.0 as int, choke.lines@[q].0.1 as int)
                            && point_in(p0, choke.lines@[q].1.0 as int, choke.lines@[q].1.1 as int) && small(choke.lines@[q].0) && small(choke.lines@[q].1) by {
                            if q < before_lines.len() {
                                assert(choke.lines@[q] == before_lines[q]);
                            }
                        }
                        assert forall|q: int| 0 <= q < choke.lines@.len() implies choke_lines@.contains(#[trigger] choke.lines@[q])
                            || choke_lines@.contains((choke.lines@[q].1, choke.lines@[q].0)) by {
                            if q < before_lines.len() {
                                assert(choke.lines@[q] == before_lines[q]);
                            } else {
                                assert((check.1, check.0).1 == check.0);
                            }
                        }
                    }
                    taken = t2;
                    if a2 {
                        break;
                    }
                    kk += 1;
                }
                let ghost used_j = used@;
                if taken {
                    used.set(j, true);
                }
                proof {
                    assert(used@ == if taken { used_j.update(j as int, true) } else { used_j });
                }
                j += 1;
            }
            last = cur;
            cur = choke.lines.len();
            pass += 1;
        }
        proof {
            assert(group_from(used_i, choke_lines@, i as int, n as int) == seq![target.0] + group_from(target.1, choke_lines@, i + 1, n as int));
        }
        let ghost g = choke.group();
        assert(g == target.0);
        choke.finalize();
        proof {
            let limit = shortest(g.0) + CHOKE_LENGTH_SLACK;
            lemma_keep_short_from(g.0, limit);
            assert(choke.lines@ == keep_short(g.0, limit));
            assert forall|q: int| 0 <= q < choke.lines@.len() implies point_in(p0, (#[trigger] choke.lines@[q]).0.0 as int, choke.lines@[q].0.1 as int)
                && point_in(p0, choke.lines@[q].1.0 as int, choke.lines@[q].1.1 as int) && small(choke.lines@[q].0) && small(choke.lines@[q].1) by {
                assert(keep_short(g.0, limit).contains(choke.lines@[q]));
                assert(g.0.contains(choke.lines@[q]));
                let t = choose|t: int| 0 <= t < g.0.len() && g.0[t] == choke.lines@[q];
                assert(point_in(p0, g.0[t].0.0 as int, g.0[t].0.1 as int));
            }
            assert forall|q: int| 0 <= q < choke.lines@.len() implies choke_lines@.contains(#[trigger] choke.lines@[q])
                || choke_lines@.contains((choke.lines@[q].1, choke.lines@[q].0)) by {
                assert(keep_short(g.0, limit).contains(choke.lines@[q]));
                assert(g.0.contains(choke.lines@[q]));
                let t = choose|t: int| 0 <= t < g.0.len() && g.0[t] == choke.lines@[q];
            }
            let rest = group_from(used@, choke_lines@, i as int + 1, n as int);
            assert((seq![g] + rest)[0] == g);
            assert((seq![g] + rest).drop_first() =~= rest);
        }
        if choke.lines.len() >= CHOKE_MIN_LINES {
            mark_and_keep(choke, points, &mut result, Ghost(p0));
            proof {
                done = done.push(g);
                let rest = group_from(used@, choke_lines@, i as int + 1, n as int);
                assert(kept(seq![g] + rest) == seq![g] + kept(rest));
                assert(done + kept(rest) =~= done.drop_last() + (seq![g] + kept(rest)));
                assert forall|q: int| 0 <= q < result@.len() implies finalized_from(#[trigger] result@[q], done[q]) by {
                    if q < result@.len() - 1 {
                    }
                }
                assert forall|q: int| 0 <= q < result@.len() implies drawn_from(choke_lines@, (#[trigger] result@[q]).lines@) && (#[trigger] result@[q]).lines@.len() >= CHOKE_MIN_LINES by {
                    if q < result@.len() - 1 {
                    }
                }
            }
        } else {
            proof {
                let rest = group_from(used@, choke_lines@, i as int + 1, n as int);
                assert(kept(seq![g] + rest) =~= kept(rest));
            }
        }
        i += 1;
    }
    proof {
        assert(kept(group_from(used@, choke_lines@, n as int, n as int)) =~= Seq::<Group>::empty());
        assert(done =~= kept(all));
    }
    result
}

} // verus!

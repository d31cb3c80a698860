//! Climbable cliffs: a blocked cell between two walkable ones whose
//! two-by-two height footprint shows exactly one cliff level of difference.
use vstd::prelude::*;

use crate::map_point::{point_in, points_ok, pt, same_shape, Cliff, MapPoint};

verus! {

/// Height difference of one cliff level.
pub const DIFFERENCE: usize = 16;

/// Tags a cell as the low side of a cliff (`Both` if it was the high side).
pub open spec fn with_low(c: Cliff) -> Cliff {
    if c == Cliff::Neither || c == Cliff::Low {
        Cliff::Low
    } else {
        Cliff::Both
    }
}

/// Tags a cell as the high side of a cliff (`Both` if it was the low side).
pub open spec fn with_high(c: Cliff) -> Cliff {
    if c == Cliff::Neither || c == Cliff::High {
        Cliff::High
    } else {
        Cliff::Both
    }
}

fn set_low(c: Cliff) -> (r: Cliff)
    ensures
        r == with_low(c),
{
    match c {
        Cliff::Neither | Cliff::Low => Cliff::Low,
        _ => Cliff::Both,
    }
}

fn set_high(c: Cliff) -> (r: Cliff)
    ensures
        r == with_high(c),
{
    match c {
        Cliff::Neither | Cliff::High => Cliff::High,
        _ => Cliff::Both,
    }
}

/// Whether the footprint heights (`h0` top-left, `h1` top-right, `h2`
/// bottom-left, `h3` bottom-right) form a climbable wall for a step in
/// direction `(xd, yd)`; `Some(true)` when the starting cell is the high side.
pub open spec fn climb_side(h0: int, h1: int, h2: int, h3: int, xd: int, yd: int) -> Option<bool> {
    let d = DIFFERENCE as int;
    if xd != 0 && yd != 0 {
        if xd == yd {
            if (h0 == h1 || h0 == h2) && h2 == h1 + d && h0 == h3 {
                Some(xd > 0)
            } else if (h0 == h1 && h0 == h3 && h0 == h2 + d) || (h0 == h2 && h0 == h3 && h1 == h2 + d) {
                Some(xd < 0)
            } else {
                None
            }
        } else {
            if (h1 == h2 && h1 == h3 && h1 == h0 + d) || (h0 == h1 && h0 == h2 && h3 == h0 + d) {
                Some(xd < 0)
            } else if (h0 == h1 && h0 == h2 && h0 == h3 + d) || (h1 == h2 && h1 == h3 && h0 == h3 + d) {
                Some(xd > 0)
            } else {
                None
            }
        }
    } else if xd != 0 {
        if h0 == h2 && h1 == h3 && h0 + d == h1 {
            Some(xd < 0)
        } else if h0 == h2 && h1 == h3 && h0 == h1 + d {
            Some(xd > 0)
        } else {
            None
        }
    } else if yd != 0 {
        if h0 == h1 && h2 == h3 && h0 + d == h2 {
            Some(yd > 0)
        } else if h0 == h1 && h2 == h3 && h0 == h2 + d {
            Some(yd < 0)
        } else {
            None
        }
    } else {
        None
    }
}

/// The outcome of one climb test from `(x, y)` in direction `(xd, yd)`:
/// `Some(high)` when the next cell is blocked, the one after is walkable and
/// the footprint shows a cliff (`high` when `(x, y)` is its high side);
/// `None` otherwise, including when a cell of the test lies outside the array.
pub open spec fn climb_case(before: Seq<Vec<MapPoint>>, x: int, y: int, xd: int, yd: int) -> Option<bool> {
    let x1 = x + xd;
    let y1 = y + yd;
    let x2 = x + 2 * xd;
    let y2 = y + 2 * yd;
    let inside = point_in(before, x, y) && point_in(before, x2, y2) && point_in(before, x1, y1)
        && point_in(before, x1 + 1, y1 + 1) && point_in(before, x1, y1 + 1) && point_in(before, x1 + 1, y1);
    if inside && !pt(before, x1, y1).walkable && pt(before, x2, y2).walkable {
        climb_side(
            pt(before, x1, y1 + 1).height as int,
            pt(before, x1 + 1, y1 + 1).height as int,
            pt(before, x1, y1).height as int,
            pt(before, x1 + 1, y1).height as int,
            xd,
            yd,
        )
    } else {
        None
    }
}

/// `after` is `before` with `(x1, y1)` made climbable and `(x, y)`,
/// `(x2, y2)` tagged as the high and low sides of the cliff (or the reverse).
pub open spec fn tagged(
    before: Seq<Vec<MapPoint>>,
    after: Seq<Vec<MapPoint>>,
    x: int,
    y: int,
    x1: int,
    y1: int,
    x2: int,
    y2: int,
    high: bool,
) -> bool {
    &&& same_shape(before, after)
    &&& pt(after, x1, y1) == (MapPoint { climbable: true, ..pt(before, x1, y1) })
    &&& pt(after, x, y) == (MapPoint {
        cliff_type: if high {
            with_high(pt(before, x, y).cliff_type)
        } else {
            with_low(pt(before, x, y).cliff_type)
        },
        ..pt(before, x, y)
    })
    &&& pt(after, x2, y2) == (MapPoint {
        cliff_type: if high {
            with_low(pt(before, x2, y2).cliff_type)
        } else {
            with_high(pt(before, x2, y2).cliff_type)
        },
        ..pt(before, x2, y2)
    })
    &&& forall|i: int, j: int|
        point_in(before, i, j) && !(i == x1 && j == y1) && !(i == x && j == y) && !(i == x2 && j == y2)
            ==> #[trigger] pt(after, i, j) == pt(before, i, j)
}

/// The effect of one climb test: the cells tagged as `climb_case` says, or
/// nothing changed.
pub open spec fn climbed(before: Seq<Vec<MapPoint>>, after: Seq<Vec<MapPoint>>, x: int, y: int, xd: int, yd: int) -> bool {
    match climb_case(before, x, y, xd, yd) {
        Some(high) => tagged(before, after, x, y, x + xd, y + yd, x + 2 * xd, y + 2 * yd, high),
        None => after == before,
    }
}

fn offset(v: usize, d: i32, times: i32) -> (r: Option<usize>)
    requires
        -2 <= times * d <= 2,
    ensures
        r matches Some(w) ==> w == v + times * d,
        r is None ==> v + times * d < 0 || v + times * d > usize::MAX,
{
    let step = times * d;
    if step < 0 {
        let m = (-step) as usize;
        if v >= m {
            Some(v - m)
        } else {
            None
        }
    } else {
        let m = step as usize;
        if v <= usize::MAX - m {
            Some(v + m)
        } else {
            None
        }
    }
}

/// Computes `climb_side`.
fn wall_side(h0: usize, h1: usize, h2: usize, h3: usize, xd: i32, yd: i32) -> (r: Option<bool>)
    ensures
        r == climb_side(h0 as int, h1 as int, h2 as int, h3 as int, xd as int, yd as int),
{
    let a = h0 as u128;
    let b = h1 as u128;
    let c = h2 as u128;
    let e = h3 as u128;
    let d = DIFFERENCE as u128;
    if xd != 0 && yd != 0 {
        if xd == yd {
            if (a == b || a == c) && c == b + d && a == e {
                Some(xd > 0)
            } else if (a == b && a == e && a == c + d) || (a == c && a == e && b == c + d) {
                Some(xd < 0)
            } else {
                None
            }
        } else {
            if (b == c && b == e && b == a + d) || (a == b && a == c && e == a + d) {
                Some(xd < 0)
            } else if (a == b && a == c && a == e + d) || (b == c && b == e && a == e + d) {
                Some(xd > 0)
            } else {
                None
            }
        }
    } else if xd != 0 {
        if a == c && b == e && a + d == b {
            Some(xd < 0)
        } else if a == c && b == e && a == b + d {
            Some(xd > 0)
        } else {
            None
        }
    } else if yd != 0 {
        if a == b && c == e && a + d == c {
            Some(yd > 0)
        } else if a == b && c == e && a == c + d {
            Some(yd < 0)
        } else {
            None
        }
    } else {
        None
    }
}

fn set_point(points: &mut Vec<Vec<MapPoint>>, x: usize, y: usize, p: MapPoint)
    requires
        point_in(old(points)@, x as int, y as int),
    ensures
        final(points)@.len() == old(points)@.len(),
        final(points)@[x as int]@ == old(points)@[x as int]@.update(y as int, p),
        forall|i: int| 0 <= i < old(points)@.len() && i != x ==> #[trigger] final(points)@[i] == old(points)@[i],
{
    points[x][y] = p;
}

/// Tests for a climbable cliff from the walkable cell `(x, y)` in direction
/// `(x_dir, y_dir)` (each of -1, 0, 1) and tags what it finds.
pub fn modify_climb(points: &mut Vec<Vec<MapPoint>>, x: usize, y: usize, x_dir: i32, y_dir: i32)
    requires
        points_ok(old(points)@),
        -1 <= x_dir <= 1,
        -1 <= y_dir <= 1,
    ensures
        climbed(old(points)@, final(points)@, x as int, y as int, x_dir as int, y_dir as int),
{
    let ghost before = points@;
    let w = points.len();
    let h = points[0].len();
    proof {
        assert(forall|i: int| 0 <= i < before.len() ==> (#[trigger] before[i]@.len()) == h);
    }
    let (x1, y1, x2, y2) = match (offset(x, x_dir, 1), offset(y, y_dir, 1), offset(x, x_dir, 2), offset(y, y_dir, 2)) {
        (Some(a), Some(b), Some(c), Some(d)) => (a, b, c, d),
        _ => {
            assert(climb_case(before, x as int, y as int, x_dir as int, y_dir as int) is None);
            return;
        },
    };
    if x >= w || y >= h || x2 >= w || y2 >= h || x1 >= w || y1 >= h || x1 + 1 >= w || y1 + 1 >= h {
        assert(climb_case(before, x as int, y as int, x_dir as int, y_dir as int) is None);
        return;
    }
    assert(points@[x1 as int]@.len() == h && points@[(x1 + 1) as int]@.len() == h);
    assert(points@[x2 as int]@.len() == h && points@[x as int]@.len() == h);
    if points[x1][y1].walkable || !points[x2][y2].walkable {
        assert(climb_case(before, x as int, y as int, x_dir as int, y_dir as int) is None);
        return;
    }
    let h0 = points[x1][y1 + 1].height;
    let h1 = points[x1 + 1][y1 + 1].height;
    let h2 = points[x1][y1].height;
    let h3 = points[x1 + 1][y1].height;
    let high = match wall_side(h0, h1, h2, h3, x_dir, y_dir) {
        Some(b) => b,
        None => {
            assert(climb_case(before, x as int, y as int, x_dir as int, y_dir as int) is None);
            return;
        },
    };
    assert(climb_case(before, x as int, y as int, x_dir as int, y_dir as int) == Some(high));
    proof {
        assert(!(x1 == x && y1 == y) && !(x1 == x2 && y1 == y2) && !(x == x2 && y == y2));
    }
    tag_climb(points, x, y, x1, y1, x2, y2, high);
}

/// Marks `(x1, y1)` climbable and tags `(x, y)` and `(x2, y2)` as the two
/// sides of the cliff.
fn tag_climb(points: &mut Vec<Vec<MapPoint>>, x: usize, y: usize, x1: usize, y1: usize, x2: usize, y2: usize, high: bool)
    requires
        point_in(old(points)@, x as int, y as int),
        point_in(old(points)@, x1 as int, y1 as int),
        point_in(old(points)@, x2 as int, y2 as int),
        !(x1 == x && y1 == y),
        !(x1 == x2 && y1 == y2),
        !(x == x2 && y == y2),
    ensures
        tagged(old(points)@, final(points)@, x as int, y as int, x1 as int, y1 as int, x2 as int, y2 as int, high),
{
    let ghost s0 = points@;
    let p1 = MapPoint { climbable: true, ..points[x1][y1] };
    let c0 = points[x][y].cliff_type;
    let p0 = MapPoint {
        cliff_type: if high {
            set_high(c0)
        } else {
            set_low(c0)
        },
        ..points[x][y]
    };
    let c2 = points[x2][y2].cliff_type;
    let p2 = MapPoint {
        cliff_type: if high {
            set_low(c2)
        } else {
            set_high(c2)
        },
        ..points[x2][y2]
    };
    set_point(points, x1, y1, p1);
    let ghost s1 = points@;
    assert(point_in(s1, x as int, y as int));
    set_point(points, x, y, p0);
    let ghost s2 = points@;
    assert(point_in(s2, x2 as int, y2 as int));
    set_point(points, x2, y2, p2);
    let ghost s3 = points@;
    proof {
        assert forall|i: int| 0 <= i < s0.len() implies (#[trigger] s3[i]@.len()) == s0[i]@.len() by {
            if i != x1 {
                assert(s1[i] == s0[i]);
            }
            if i != x {
                assert(s2[i] == s1[i]);
            }
            if i != x2 {
                assert(s3[i] == s2[i]);
            }
        }
        assert forall|i: int, j: int|
            point_in(s0, i, j) && !(i == x1 && j == y1) && !(i == x && j == y) && !(i == x2 && j == y2)
            implies #[trigger] pt(s3, i, j) == pt(s0, i, j) by {
            if i != x1 {
                assert(s1[i] == s0[i]);
            }
            if i != x {
                assert(s2[i] == s1[i]);
            }
            if i != x2 {
                assert(s3[i] == s2[i]);
            }
        }
        assert(pt(s3, x1 as int, y1 as int) == p1) by {
            if x1 != x {
                assert(s2[x1 as int] == s1[x1 as int]);
            }
            if x1 != x2 {
                assert(s3[x1 as int] == s2[x1 as int]);
            }
        }
        assert(pt(s3, x as int, y as int) == p0) by {
            if x != x2 {
                assert(s3[x as int] == s2[x as int]);
            }
        }
    }
}

} // verus!

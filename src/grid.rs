//! Fixed-point distance metrics on grid cells.
use vstd::prelude::*;

verus! {

/// Fixed-point multiplier: one straight step costs `MULT`.
pub const MULT: usize = 10000;

/// Fixed-point cost of one diagonal step (√2 · `MULT`, truncated).
pub const SQRT2: usize = 14142;

/// Extra cost of a diagonal step over a straight one (`SQRT2 - MULT`).
pub const DIAGONAL_MINUS_CARDINAL: usize = 4142;

/// A grid cell as `(x, y)`.
pub type Cell = (usize, usize);

pub open spec fn abs_diff_spec(a: int, b: int) -> int {
    if a >= b {
        a - b
    } else {
        b - a
    }
}

pub open spec fn dx_of(a: Cell, b: Cell) -> int {
    abs_diff_spec(a.0 as int, b.0 as int)
}

pub open spec fn dy_of(a: Cell, b: Cell) -> int {
    abs_diff_spec(a.1 as int, b.1 as int)
}

/// Octile distance: `MULT` per straight step plus `DIAGONAL_MINUS_CARDINAL`
/// per step that can be taken diagonally.
pub open spec fn octile_spec(a: Cell, b: Cell) -> int {
    let dx = dx_of(a, b);
    let dy = dy_of(a, b);
    if dx > dy {
        MULT * dx + DIAGONAL_MINUS_CARDINAL * dy
    } else {
        MULT * dy + DIAGONAL_MINUS_CARDINAL * dx
    }
}

/// Manhattan distance in fixed point.
pub open spec fn manhattan_spec(a: Cell, b: Cell) -> int {
    (dx_of(a, b) + dy_of(a, b)) * MULT
}

/// `r` is the integer square root of `n`, rounded down.
pub open spec fn is_floor_sqrt(r: int, n: int) -> bool {
    0 <= r && r * r <= n < (r + 1) * (r + 1)
}

pub open spec fn floor_sqrt(n: int) -> int {
    choose|r: int| is_floor_sqrt(r, n)
}

/// Straight-line distance in fixed point: `⌊√(dx² + dy²) · MULT⌋`.
pub open spec fn euclidean_spec(a: Cell, b: Cell) -> int {
    let dx = dx_of(a, b);
    let dy = dy_of(a, b);
    floor_sqrt((dx * dx + dy * dy) * (MULT * MULT))
}

/// Coordinates small enough for every distance of this module to fit a `usize`.
pub open spec fn small_cell(a: Cell) -> bool {
    a.0 < 0x10000 && a.1 < 0x10000
}

pub fn abs_diff(a: usize, b: usize) -> (r: usize)
    ensures
        r == abs_diff_spec(a as int, b as int),
{
    if a >= b {
        a - b
    } else {
        b - a
    }
}

/// Octile distance between two cells, in fixed point.
pub fn octile_distance(first: Cell, second: Cell) -> (r: usize)
    requires
        small_cell(first),
        small_cell(second),
    ensures
        r == octile_spec(first, second),
{
    let dx = abs_diff(first.0, second.0);
    let dy = abs_diff(first.1, second.1);
    if dx > dy {
        MULT * dx + DIAGONAL_MINUS_CARDINAL * dy
    } else {
        MULT * dy + DIAGONAL_MINUS_CARDINAL * dx
    }
}

/// Manhattan distance between two cells, in fixed point.
pub fn manhattan_distance(first: Cell, second: Cell) -> (r: usize)
    requires
        small_cell(first),
        small_cell(second),
    ensures
        r == manhattan_spec(first, second),
{
    (abs_diff(first.0, second.0) + abs_diff(first.1, second.1)) * MULT
}

proof fn lemma_floor_sqrt_unique(r: int, n: int)
    requires
        is_floor_sqrt(r, n),
    ensures
        floor_sqrt(n) == r,
{
    let s = floor_sqrt(n);
    assert(is_floor_sqrt(s, n));
    if s < r {
        assert((s + 1) * (s + 1) <= r * r) by (nonlinear_arith)
            requires
                0 <= s,
                s + 1 <= r,
        ;
    } else if r < s {
        assert((r + 1) * (r + 1) <= s * s) by (nonlinear_arith)
            requires
                0 <= r,
                r + 1 <= s,
        ;
    }
}

/// Integer square root, rounded down, by bisection.
pub fn isqrt(n: u64) -> (r: u64)
    ensures
        is_floor_sqrt(r as int, n as int),
        r as int == floor_sqrt(n as int),
        r < 0x1_0000_0000,
{
    let mut lo: u128 = 0;
    let mut hi: u128 = 0x1_0000_0000;
    let nn = n as u128;
    while lo + 1 < hi
        invariant
            lo < hi <= 0x1_0000_0000,
            lo * lo <= nn,
            nn < hi * hi,
            nn == n,
        decreases hi - lo,
    {
        let mid = lo + (hi - lo) / 2;
        assert(mid * mid <= 0x1_0000_0000 * 0x1_0000_0000) by (nonlinear_arith)
            requires
                0 <= mid <= 0x1_0000_0000,
        ;
        if mid * mid <= nn {
            lo = mid;
        } else {
            hi = mid;
        }
    }
    proof {
        lemma_floor_sqrt_unique(lo as int, n as int);
    }
    lo as u64
}

/// Straight-line distance between two cells, in fixed point.
pub fn euclidean_distance(first: Cell, second: Cell) -> (r: usize)
    requires
        small_cell(first),
        small_cell(second),
    ensures
        r == euclidean_spec(first, second),
        r < 0x4000_0000,
{
    let dx = abs_diff(first.0, second.0) as u128;
    let dy = abs_diff(first.1, second.1) as u128;
    assert(dx * dx < 0x1_0000_0000) by (nonlinear_arith)
        requires
            dx < 0x10000,
    ;
    assert(dy * dy < 0x1_0000_0000) by (nonlinear_arith)
        requires
            dy < 0x10000,
    ;
    let sum = dx * dx + dy * dy;
    assert(sum * 100000000 < 0x2_0000_0000 * 100000000) by (nonlinear_arith)
        requires
            sum < 0x2_0000_0000,
    ;
    let n = (sum * 100000000) as u64;
    let r = isqrt(n);
    assert(r < 0x4000_0000) by (nonlinear_arith)
        requires
            r as int * r as int <= n as int,
            n < 0x2_0000_0000 * 100000000,
            n == sum * 100000000,
            r >= 0,
    ;
    r as usize
}

/// Manhattan distance never underestimates octile distance.
pub proof fn lemma_manhattan_bounds_octile(a: Cell, b: Cell)
    ensures
        manhattan_spec(a, b) >= octile_spec(a, b),
{
}

} // verus!

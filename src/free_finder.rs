//! Nearest open cell: probes a fixed table of offsets in rings around a cell.
use vstd::prelude::*;

use crate::grid::Cell;
use crate::movement::{grid_ok, height_of, width_of};

verus! {

/// The probe order: rings of growing Chebyshev radius up to four, straight
/// offsets before diagonal ones within a ring.
pub open spec fn search_order() -> Seq<(i64, i64)> {
    seq![
        (-1i64, 0i64), (1i64, 0i64), (0i64, -1i64), (0i64, 1i64),
        (1i64, 1i64), (-1i64, -1i64), (1i64, -1i64), (-1i64, 1i64),
        (-2i64, 0i64), (2i64, 0i64), (0i64, -2i64), (0i64, 2i64),
        (-2i64, 1i64), (2i64, -1i64), (-1i64, -2i64), (1i64, 2i64),
        (-2i64, -1i64), (2i64, 1i64), (1i64, -2i64), (-1i64, 2i64),
        (2i64, 2i64), (-2i64, -2i64), (2i64, -2i64), (-2i64, 2i64),
        (-3i64, 0i64), (3i64, 0i64), (0i64, -3i64), (0i64, 3i64),
        (-3i64, 1i64), (3i64, -1i64), (-1i64, -3i64), (1i64, 3i64),
        (-3i64, -1i64), (3i64, 1i64), (1i64, -3i64), (-1i64, 3i64),
        (-3i64, 2i64), (3i64, -2i64), (-2i64, -3i64), (2i64, 3i64),
        (-3i64, -2i64), (3i64, 2i64), (2i64, -3i64), (-2i64, 3i64),
        (-4i64, 0i64), (4i64, 0i64), (0i64, -4i64), (0i64, 4i64),
        (-4i64, 1i64), (4i64, -1i64), (-1i64, -4i64), (1i64, 4i64),
        (-4i64, -1i64), (4i64, 1i64), (1i64, -4i64), (-1i64, 4i64),
    ]
}

/// The cell `lookup + off`, as integers.
pub open spec fn probe(lookup: Cell, off: (i64, i64)) -> (int, int) {
    (lookup.0 + off.0, lookup.1 + off.1)
}

/// The probe lands inside `width × height` on an open cell.
pub open spec fn probe_hits(g: Seq<Vec<usize>>, width: int, height: int, lookup: Cell, off: (i64, i64)) -> bool {
    let (x, y) = probe(lookup, off);
    0 <= x < width && 0 <= y < height && g[x]@[y] > 0
}

/// The first probe from index `i` on that hits, or `lookup` when none does.
pub open spec fn first_free(
    offsets: Seq<(i64, i64)>,
    i: int,
    g: Seq<Vec<usize>>,
    width: int,
    height: int,
    lookup: Cell,
) -> Cell
    decreases offsets.len() - i,
{
    if i < 0 || i >= offsets.len() {
        lookup
    } else if probe_hits(g, width, height, lookup, offsets[i]) {
        let (x, y) = probe(lookup, offsets[i]);
        (x as usize, y as usize)
    } else {
        first_free(offsets, i + 1, g, width, height, lookup)
    }
}

/// Finds the nearest open cell around a possibly blocked one.
#[derive(Clone, Debug)]
pub struct FreeFinder {
    closest_grid: Vec<(i64, i64)>,
}

/// The table of probe offsets, nearest first.
pub fn create_search_grid() -> (r: Vec<(i64, i64)>)
    ensures
        r@ == search_order(),
{
    let r = vec![
        (-1, 0), (1, 0), (0, -1), (0, 1),
        (1, 1), (-1, -1), (1, -1), (-1, 1),
        (-2, 0), (2, 0), (0, -2), (0, 2),
        (-2, 1), (2, -1), (-1, -2), (1, 2),
        (-2, -1), (2, 1), (1, -2), (-1, 2),
        (2, 2), (-2, -2), (2, -2), (-2, 2),
        (-3, 0), (3, 0), (0, -3), (0, 3),
        (-3, 1), (3, -1), (-1, -3), (1, 3),
        (-3, -1), (3, 1), (1, -3), (-1, 3),
        (-3, 2), (3, -2), (-2, -3), (2, 3),
        (-3, -2), (3, 2), (2, -3), (-2, 3),
        (-4, 0), (4, 0), (0, -4), (0, 4),
        (-4, 1), (4, -1), (-1, -4), (1, 4),
        (-4, -1), (4, 1), (1, -4), (-1, 4),
    ];
    assert(r@ =~= search_order());
    r
}

impl FreeFinder {
    pub closed spec fn wf(&self) -> bool {
        self.closest_grid@ == search_order()
    }

    pub fn new() -> (r: FreeFinder)
        ensures
            r.wf(),
    {
        FreeFinder { closest_grid: create_search_grid() }
    }

    /// The first cell of the probe order around `lookup` that lies inside
    /// `width × height` and is open; `lookup` itself when there is none.
    pub fn find_free(&self, lookup: Cell, map: &Vec<Vec<usize>>, width: usize, height: usize) -> (r: Cell)
        requires
            self.wf(),
            grid_ok(map@),
            width == width_of(map@),
            height == height_of(map@),
        ensures
            r == first_free(search_order(), 0, map@, width as int, height as int, lookup),
    {
        if lookup.0 >= 0x4000_0000 || lookup.1 >= 0x4000_0000 {
            assert forall|i: int| 0 <= i < search_order().len() implies !probe_hits(
                map@,
                width as int,
                height as int,
                lookup,
                #[trigger] search_order()[i],
            ) by {}
            proof {
                lemma_none_hit(map@, width as int, height as int, lookup, 0);
            }
            return lookup;
        }
        let n = self.closest_grid.len();
        let mut k: usize = 0;
        while k < n
            invariant
                self.wf(),
                grid_ok(map@),
                width == width_of(map@),
                height == height_of(map@),
                n == search_order().len(),
                k <= n,
                lookup.0 < 0x4000_0000,
                lookup.1 < 0x4000_0000,
                first_free(search_order(), 0, map@, width as int, height as int, lookup) == first_free(
                    search_order(),
                    k as int,
                    map@,
                    width as int,
                    height as int,
                    lookup,
                ),
            decreases n - k,
        {
            let offset = self.closest_grid[k];
            let ax = lookup.0 as i64 + offset.0;
            let ay = lookup.1 as i64 + offset.1;
            if ax >= 0 && ay >= 0 {
                let cx = ax as usize;
                let cy = ay as usize;
                if cx < width && cy < height && map[cx][cy] > 0 {
                    return (cx, cy);
                }
            }
            k += 1;
        }
        lookup
    }
}

proof fn lemma_none_hit(g: Seq<Vec<usize>>, width: int, height: int, lookup: Cell, i: int)
    requires
        0 <= i,
        forall|j: int| 0 <= j < search_order().len() ==> !probe_hits(g, width, height, lookup, #[trigger] search_order()[j]),
    ensures
        first_free(search_order(), i, g, width, height, lookup) == lookup,
    decreases search_order().len() - i,
{
    if i < search_order().len() {
        lemma_none_hit(g, width, height, lookup, i + 1);
    }
}

} // verus!

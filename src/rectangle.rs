//! Axis-aligned rectangles of cells, clamped to a grid.
use vstd::prelude::*;

verus! {

/// The cells `x..x_end` × `y..y_end`.
#[derive(Clone, Copy, Debug, PartialEq, Eq, Hash, PartialOrd, Ord, Structural)]
pub struct Rectangle {
    pub x: usize,
    pub y: usize,
    pub x_end: usize,
    pub y_end: usize,
}

/// The low edge of a span of `size` cells centred on `center`, clamped at zero.
pub open spec fn span_start(center: int, size: int) -> int {
    if center >= size / 2 {
        center - size / 2
    } else {
        0
    }
}

/// The high (exclusive) edge of a span starting at `start`, clamped at `limit`.
pub open spec fn span_end(start: int, size: int, limit: int) -> int {
    if start + size < limit {
        start + size
    } else {
        limit
    }
}

/// The rectangle `init_from_center2` builds.
pub open spec fn rect_spec(center: (usize, usize), size: (usize, usize), width: usize, height: usize) -> Rectangle {
    let x = span_start(center.0 as int, size.0 as int);
    let y = span_start(center.1 as int, size.1 as int);
    Rectangle {
        x: x as usize,
        y: y as usize,
        x_end: span_end(x, size.0 as int, width as int) as usize,
        y_end: span_end(y, size.1 as int, height as int) as usize,
    }
}

impl Rectangle {
    pub open spec fn contains(&self, x: int, y: int) -> bool {
        self.x <= x < self.x_end && self.y <= y < self.y_end
    }

    /// A `size.0 × size.1` rectangle centred on `center` (rounding the low
    /// edge up), clamped to `width × height`.
    pub fn init_from_center2(center: (usize, usize), size: (usize, usize), width: usize, height: usize) -> (r: Rectangle)
        ensures
            r == rect_spec(center, size, width, height),
            r.x_end <= width,
            r.y_end <= height,
            r.x == span_start(center.0 as int, size.0 as int),
            r.y == span_start(center.1 as int, size.1 as int),
            r.x_end == span_end(r.x as int, size.0 as int, width as int),
            r.y_end == span_end(r.y as int, size.1 as int, height as int),
    {
        let x = if center.0 >= size.0 / 2 {
            center.0 - size.0 / 2
        } else {
            0
        };
        let y = if center.1 >= size.1 / 2 {
            center.1 - size.1 / 2
        } else {
            0
        };
        let x_end = if x < width && size.0 < width - x {
            x + size.0
        } else {
            width
        };
        let y_end = if y < height && size.1 < height - y {
            y + size.1
        } else {
            height
        };
        Rectangle { x, y, x_end, y_end }
    }
}

} // verus!

//! Axis-aligned rectangles on the terminal grid, and the little geometry
//! the draw pipeline needs.

use vstd::prelude::*;

verus! {

/// A rectangle of terminal cells: origin, width and height.
#[derive(Clone, Copy, PartialEq, Eq, Structural, Debug)]
pub struct Rect {
    /// The leftmost column.
    pub x: u16,
    /// The topmost row.
    pub y: u16,
    /// How many columns the rectangle spans.
    pub width: u16,
    /// How many rows the rectangle spans.
    pub height: u16,
}

impl Rect {
    /// The rectangle's extent stays on the grid: both far edges are
    /// representable.
    pub open spec fn wf(self) -> bool {
        self.x + self.width <= u16::MAX && self.y + self.height <= u16::MAX
    }

    /// The column one past the right edge.
    pub open spec fn spec_right(self) -> int {
        self.x + self.width
    }

    /// The row one past the bottom edge.
    pub open spec fn spec_bottom(self) -> int {
        self.y + self.height
    }

    /// The column one past the right edge.
    pub fn right(self) -> (r: u16)
        requires
            self.wf(),
        ensures
            r == self.spec_right(),
    {
        self.x + self.width
    }

    /// Whether the cell at `(x, y)` lies inside the rectangle.
    pub open spec fn contains(self, x: int, y: int) -> bool {
        self.x <= x < self.spec_right() && self.y <= y < self.spec_bottom()
    }
}

/// The rectangle moved right by `dx` columns and narrowed by as much, its
/// right edge kept; moving past the right edge leaves an empty rectangle
/// at that edge.
pub open spec fn spec_offset_x(r: Rect, dx: u16) -> Rect {
    let d = if dx <= r.width {
        dx
    } else {
        r.width
    };
    Rect { x: (r.x + d) as u16, y: r.y, width: (r.width - d) as u16, height: r.height }
}

/// See [`spec_offset_x`]: the tail of the rectangle from column `x + dx`.
pub fn offset_x(r: Rect, dx: u16) -> (o: Rect)
    requires
        r.wf(),
    ensures
        o == spec_offset_x(r, dx),
        o.wf(),
        o.spec_right() == r.spec_right(),
{
    let d = if dx <= r.width {
        dx
    } else {
        r.width
    };
    Rect { x: r.x + d, y: r.y, width: r.width - d, height: r.height }
}

/// The largest rectangle lying in both arguments; empty when they do not
/// meet, with zero width or height.
pub open spec fn spec_intersect(a: Rect, b: Rect) -> Rect {
    let x = if a.x >= b.x {
        a.x
    } else {
        b.x
    };
    let y = if a.y >= b.y {
        a.y
    } else {
        b.y
    };
    let right = if a.spec_right() <= b.spec_right() {
        a.spec_right()
    } else {
        b.spec_right()
    };
    let bottom = if a.spec_bottom() <= b.spec_bottom() {
        a.spec_bottom()
    } else {
        b.spec_bottom()
    };
    Rect {
        x,
        y,
        width: if right > x {
            (right - x) as u16
        } else {
            0
        },
        height: if bottom > y {
            (bottom - y) as u16
        } else {
            0
        },
    }
}

/// See [`spec_intersect`]; a cell lies in the result exactly when it lies
/// in both arguments.
pub fn intersect(a: Rect, b: Rect) -> (r: Rect)
    requires
        a.wf(),
        b.wf(),
    ensures
        r == spec_intersect(a, b),
        r.wf(),
        forall|x: int, y: int| r.contains(x, y) <==> a.contains(x, y) && b.contains(x, y),
{
    let x = if a.x >= b.x {
        a.x
    } else {
        b.x
    };
    let y = if a.y >= b.y {
        a.y
    } else {
        b.y
    };
    let ar = a.right();
    let br = b.right();
    let right = if ar <= br {
        ar
    } else {
        br
    };
    let ab = a.y + a.height;
    let bb = b.y + b.height;
    let bottom = if ab <= bb {
        ab
    } else {
        bb
    };
    Rect {
        x,
        y,
        width: if right > x {
            right - x
        } else {
            0
        },
        height: if bottom > y {
            bottom - y
        } else {
            0
        },
    }
}

} // verus!

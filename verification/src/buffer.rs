//! The addressable two-dimensional cell buffer the draw pipeline writes
//! into. The embedding application presents it on a terminal; the core
//! only produces logical cell writes.

use crate::rect::Rect;
use vstd::prelude::*;

verus! {

/// The palette the dashboard draws with.
#[derive(Clone, Copy, PartialEq, Eq, Structural, Debug)]
pub enum Color {
    /// The terminal's default color.
    Reset,
    /// Black, the contrasting text color over a filled bar.
    Black,
    /// White, the spinner window's highlight.
    White,
    /// Green, the color of a nearly finished bar.
    Green,
    /// Yellow, the color of a bar still far from done.
    Yellow,
    /// Red, the warning background of the overflow row.
    Red,
}

/// One terminal cell: a character and its colors.
#[derive(Clone, Copy, PartialEq, Eq, Structural, Debug)]
pub struct Cell {
    /// The character shown in the cell.
    pub ch: char,
    /// The foreground color.
    pub fg: Color,
    /// The background color.
    pub bg: Color,
}

/// The cell every buffer starts from: a space in default colors.
pub open spec fn spec_blank() -> Cell {
    Cell { ch: ' ', fg: Color::Reset, bg: Color::Reset }
}

/// How text is colored as it is written: each `Some` replaces that color,
/// `None` keeps the cell's.
#[derive(Clone, Copy, PartialEq, Eq, Debug)]
pub struct TextStyle {
    /// The foreground to set, if any.
    pub fg: Option<Color>,
    /// The background to set, if any.
    pub bg: Option<Color>,
}

impl TextStyle {
    /// A style that sets neither color.
    pub fn plain() -> (s: TextStyle)
        ensures
            s == (TextStyle { fg: None::<Color>, bg: None::<Color> }),
    {
        TextStyle { fg: None, bg: None }
    }
}

/// The cell after writing character `ch` with style `st` over `c`.
pub open spec fn styled(c: Cell, ch: char, st: TextStyle) -> Cell {
    Cell {
        ch,
        fg: match st.fg {
            Some(f) => f,
            None => c.fg,
        },
        bg: match st.bg {
            Some(b) => b,
            None => c.bg,
        },
    }
}

/// The cell with only its background replaced.
pub open spec fn bg_set(c: Cell, color: Color) -> Cell {
    Cell { ch: c.ch, fg: c.fg, bg: color }
}

/// A width-by-height grid of cells, stored row by row.
pub struct Buffer {
    width: u16,
    height: u16,
    cells: Vec<Cell>,
}

/// A product of two grid coordinates stays well below the smallest
/// possible `usize::MAX`.
proof fn lemma_u16_mul_fits(a: int, b: int)
    requires
        0 <= a <= 65535,
        0 <= b <= 65535,
    ensures
        0 <= a * b <= 4294836225,
{
    assert(0 <= a * b <= 4294836225) by (nonlinear_arith)
        requires
            0 <= a <= 65535,
            0 <= b <= 65535,
    ;
}

/// A cell position strictly inside a `w`-wide grid maps to a unique index.
proof fn lemma_idx(w: int, h: int, x: int, y: int)
    requires
        0 <= x < w,
        0 <= y < h,
    ensures
        0 <= y * w + x < w * h,
{
    assert(y * w + x < w * h) by (nonlinear_arith)
        requires
            0 <= x < w,
            0 <= y < h,
    ;
    assert(y * w + x >= 0) by (nonlinear_arith)
        requires
            0 <= x,
            0 <= y,
            0 <= w,
    ;
}

/// Distinct in-bounds positions map to distinct indices.
proof fn lemma_idx_injective(w: int, x1: int, y1: int, x2: int, y2: int)
    requires
        0 <= x1 < w,
        0 <= x2 < w,
        0 <= y1,
        0 <= y2,
        y1 * w + x1 == y2 * w + x2,
    ensures
        x1 == x2 && y1 == y2,
{
    assert(x1 == x2 && y1 == y2) by (nonlinear_arith)
        requires
            0 <= x1 < w,
            0 <= x2 < w,
            0 <= y1,
            0 <= y2,
            y1 * w + x1 == y2 * w + x2,
    ;
}

impl Buffer {
    /// How many columns the buffer has.
    pub closed spec fn spec_width(&self) -> u16 {
        self.width
    }

    /// How many rows the buffer has.
    pub closed spec fn spec_height(&self) -> u16 {
        self.height
    }

    /// The backing row-by-row cell sequence.
    pub closed spec fn grid(&self) -> Seq<Cell> {
        self.cells@
    }

    /// The grid holds exactly width times height cells.
    pub open spec fn wf(&self) -> bool {
        self.grid().len() == self.spec_width() * self.spec_height()
    }

    /// Whether `(x, y)` lies on the grid.
    pub open spec fn in_bounds(&self, x: int, y: int) -> bool {
        0 <= x < self.spec_width() && 0 <= y < self.spec_height()
    }

    /// The cell at column `x` of row `y`.
    pub open spec fn cell(&self, x: int, y: int) -> Cell {
        self.grid()[y * self.spec_width() + x]
    }

    /// Whether the buffer has the same dimensions as another.
    pub open spec fn same_dims(&self, other: &Buffer) -> bool {
        self.spec_width() == other.spec_width() && self.spec_height() == other.spec_height()
    }

    /// The rectangle covering the whole buffer.
    pub fn area(&self) -> (r: Rect)
        ensures
            r == (Rect { x: 0u16, y: 0u16, width: self.spec_width(), height: self.spec_height() }),
            r.wf(),
    {
        Rect { x: 0, y: 0, width: self.width, height: self.height }
    }

    /// How many columns the buffer has.
    pub fn width(&self) -> (w: u16)
        ensures
            w == self.spec_width(),
    {
        self.width
    }

    /// How many rows the buffer has.
    pub fn height(&self) -> (h: u16)
        ensures
            h == self.spec_height(),
    {
        self.height
    }

    /// A buffer of the given size with every cell blank.
    pub fn new(width: u16, height: u16) -> (b: Buffer)
        ensures
            b.wf(),
            b.spec_width() == width,
            b.spec_height() == height,
            forall|x: int, y: int| b.in_bounds(x, y) ==> b.cell(x, y) == spec_blank(),
    {
        proof {
            lemma_u16_mul_fits(width as int, height as int);
        }
        let n = (width as usize) * (height as usize);
        let mut cells: Vec<Cell> = Vec::new();
        let mut i: usize = 0;
        while i < n
            invariant
                i <= n,
                cells@.len() == i,
                forall|k: int| 0 <= k < i ==> cells@[k] == spec_blank(),
            decreases n - i,
        {
            cells.push(Cell { ch: ' ', fg: Color::Reset, bg: Color::Reset });
            i += 1;
        }
        let b = Buffer { width, height, cells };
        proof {
            assert forall|x: int, y: int| b.in_bounds(x, y) implies b.cell(x, y) == spec_blank() by {
                lemma_idx(width as int, height as int, x, y);
            }
        }
        b
    }

    /// The cell at `(x, y)`.
    pub fn get(&self, x: u16, y: u16) -> (c: Cell)
        requires
            self.wf(),
            x < self.spec_width(),
            y < self.spec_height(),
        ensures
            c == self.cell(x as int, y as int),
    {
        proof {
            lemma_idx(self.width as int, self.height as int, x as int, y as int);
            lemma_u16_mul_fits(y as int, self.width as int);
        }
        self.cells[(y as usize) * (self.width as usize) + (x as usize)]
    }

    /// Write one cell, leaving every other cell as it was.
    pub fn put(&mut self, x: u16, y: u16, c: Cell)
        requires
            old(self).wf(),
            x < old(self).spec_width(),
            y < old(self).spec_height(),
        ensures
            final(self).wf(),
            final(self).same_dims(old(self)),
            final(self).cell(x as int, y as int) == c,
            forall|a: int, b: int|
                old(self).in_bounds(a, b) && !(a == x && b == y) ==> final(self).cell(a, b) == old(
                    self,
                ).cell(a, b),
    {
        proof {
            lemma_idx(self.width as int, self.height as int, x as int, y as int);
            lemma_u16_mul_fits(y as int, self.width as int);
        }
        let i = (y as usize) * (self.width as usize) + (x as usize);
        self.cells[i] = c;
        proof {
            assert forall|a: int, b: int|
                old(self).in_bounds(a, b) && !(a == x && b == y) implies final(self).cell(a, b)
                == old(self).cell(a, b) by {
                lemma_idx(self.width as int, self.height as int, a, b);
                if b * self.width + a == i {
                    lemma_idx_injective(self.width as int, a, b, x as int, y as int);
                }
            }
        }
    }

    /// Paint the background of every cell under `area`, keeping each
    /// cell's character and foreground; cells outside stay as they were.
    pub fn fill_bg(&mut self, area: Rect, color: Color)
        requires
            old(self).wf(),
            area.wf(),
        ensures
            final(self).wf(),
            final(self).same_dims(old(self)),
            forall|x: int, y: int|
                old(self).in_bounds(x, y) ==> final(self).cell(x, y) == (if area.contains(x, y) {
                    bg_set(old(self).cell(x, y), color)
                } else {
                    old(self).cell(x, y)
                }),
    {
        let ghost orig = *self;
        let y_end = if area.y + area.height <= self.height {
            area.y + area.height
        } else {
            self.height
        };
        let x_end = if area.x + area.width <= self.width {
            area.x + area.width
        } else {
            self.width
        };
        let mut y = area.y;
        while y < y_end
            invariant
                self.wf(),
                self.same_dims(&orig),
                orig == *old(self),
                area.y <= y <= y_end || y == area.y,
                y_end <= self.spec_height(),
                x_end <= self.spec_width(),
                y_end <= area.spec_bottom(),
                x_end <= area.spec_right(),
                (y_end as int == area.spec_bottom() || y_end == self.spec_height()),
                (x_end as int == area.spec_right() || x_end == self.spec_width()),
                forall|a: int, b: int|
                    orig.in_bounds(a, b) ==> self.cell(a, b) == (if area.contains(a, b) && b
                        < y {
                        bg_set(orig.cell(a, b), color)
                    } else {
                        orig.cell(a, b)
                    }),
            decreases y_end - y,
        {
            let mut x = area.x;
            while x < x_end
                invariant
                    self.wf(),
                    self.same_dims(&orig),
                    orig == *old(self),
                    area.y <= y < y_end,
                    y_end <= self.spec_height(),
                    x_end <= self.spec_width(),
                    y_end <= area.spec_bottom(),
                    x_end <= area.spec_right(),
                    (x_end as int == area.spec_right() || x_end == self.spec_width()),
                    area.x <= x <= x_end || x == area.x,
                    forall|a: int, b: int|
                        orig.in_bounds(a, b) ==> self.cell(a, b) == (if area.contains(a, b)
                            && (b < y || (b == y && a < x)) {
                            bg_set(orig.cell(a, b), color)
                        } else {
                            orig.cell(a, b)
                        }),
                decreases x_end - x,
            {
                let c = self.get(x, y);
                self.put(x, y, Cell { ch: c.ch, fg: c.fg, bg: color });
                x += 1;
            }
            y += 1;
        }
    }

    /// Write `text` into row `bound.y`, truncated to the bound's width,
    /// starting at column `bound.x`: cells left of column `split` take
    /// the `left` style, the rest the `right` style. Returns how many
    /// cells were written; every other cell stays as it was.
    pub fn draw_text(
        &mut self,
        bound: Rect,
        text: &Vec<char>,
        split: u16,
        left: TextStyle,
        right: TextStyle,
    ) -> (n: u16)
        requires
            old(self).wf(),
            bound.wf(),
            bound.height >= 1,
            bound.spec_right() <= old(self).spec_width(),
            bound.y < old(self).spec_height(),
        ensures
            final(self).wf(),
            final(self).same_dims(old(self)),
            n == (if text@.len() <= bound.width {
                text@.len() as u16
            } else {
                bound.width
            }),
            forall|k: int|
                0 <= k < n ==> final(self).cell(bound.x + k, bound.y as int) == styled(
                    old(self).cell(bound.x + k, bound.y as int),
                    text@[k],
                    if bound.x + k < split {
                        left
                    } else {
                        right
                    },
                ),
            forall|a: int, b: int|
                old(self).in_bounds(a, b) && !(b == bound.y && bound.x <= a < bound.x + n)
                    ==> final(self).cell(a, b) == old(self).cell(a, b),
    {
        let n: u16 = if text.len() <= bound.width as usize {
            text.len() as u16
        } else {
            bound.width
        };
        let mut k: u16 = 0;
        while k < n
            invariant
                self.wf(),
                self.same_dims(old(self)),
                k <= n,
                n <= bound.width,
                n <= text@.len(),
                bound.wf(),
                bound.spec_right() <= self.spec_width(),
                bound.y < self.spec_height(),
                forall|j: int|
                    0 <= j < k ==> self.cell(bound.x + j, bound.y as int) == styled(
                        old(self).cell(bound.x + j, bound.y as int),
                        text@[j],
                        if bound.x + j < split {
                            left
                        } else {
                            right
                        },
                    ),
                forall|a: int, b: int|
                    old(self).in_bounds(a, b) && !(b == bound.y && bound.x <= a < bound.x + k)
                        ==> self.cell(a, b) == old(self).cell(a, b),
            decreases n - k,
        {
            let x = bound.x + k;
            let c = self.get(x, bound.y);
            let st = if x < split {
                left
            } else {
                right
            };
            let ch = text[k as usize];
            let fg = match st.fg {
                Some(f) => f,
                None => c.fg,
            };
            let bg = match st.bg {
                Some(b) => b,
                None => c.bg,
            };
            self.put(x, bound.y, Cell { ch, fg, bg });
            k += 1;
        }
        n
    }
}

} // verus!

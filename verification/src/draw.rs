//! The draw pipeline: a pure function from a snapshot, the render state
//! and a viewport to cell-buffer writes — the tree column, the progress
//! column, the spinner and bar primitives, and the overflow summary row.

use crate::buffer::{bg_set, Buffer, Color, TextStyle};
use crate::progress::{fraction_of, Fraction, Progress, ProgressStep, ProgressV};
use crate::rect::{offset_x, spec_intersect, spec_offset_x, Rect};
use crate::tree::{TaskEntry, TaskEntryV};
use vstd::prelude::*;

verus! {

/// The column separator drawn at the left edge of the progress column.
pub const VERTICAL_LINE: char = '│';

/// The narrowest tree column worth drawing; below this the progress
/// column takes the whole width.
pub const MIN_TREE_WIDTH: u16 = 20;

/// The decimal digit characters of `n`, most significant first.
pub open spec fn spec_digits(n: nat) -> Seq<char>
    decreases n,
{
    if n < 10 {
        seq![digit_char(n)]
    } else {
        spec_digits(n / 10).push(digit_char(n % 10))
    }
}

/// The character of a single decimal digit.
pub open spec fn digit_char(d: nat) -> char {
    ((d + 48) as u8) as char
}

/// Append the decimal digits of `n` to `out`.
pub fn push_digits(n: u64, out: &mut Vec<char>)
    ensures
        final(out)@ == old(out)@ + spec_digits(n as nat),
    decreases n,
{
    if n < 10 {
        out.push(((n as u8) + 48) as char);
        proof {
            assert(final(out)@ =~= old(out)@ + spec_digits(n as nat));
        }
    } else {
        push_digits(n / 10, out);
        out.push((((n % 10) as u8) + 48) as char);
        proof {
            assert(final(out)@ =~= old(out)@ + spec_digits(n as nat));
        }
    }
}

/// How many cells of a `width`-wide column a filled bar covers: the
/// fraction `num / den` of the width, rounded up and capped at the
/// column width.
pub open spec fn spec_bar_cells(width: u16, num: int, den: int) -> int {
    (width * num + den - 1) / den
}

/// The rounded-up bar never overruns its column.
pub proof fn lemma_bar_cells_bounded(width: u16, num: int, den: int)
    requires
        0 <= num <= den,
        0 < den,
    ensures
        0 <= spec_bar_cells(width, num, den) <= width,
{
    assert(0 <= (width * num + den - 1) / den <= width) by (nonlinear_arith)
        requires
            0 <= num <= den,
            0 < den,
            0 <= width,
    ;
}

/// See [`spec_bar_cells`].
pub fn bar_cells(width: u16, num: u64, den: u64) -> (w: u16)
    requires
        num <= den,
        0 < den,
        den <= 0xFFFF_FFFF,
    ensures
        w == spec_bar_cells(width, num as int, den as int),
        w <= width,
{
    proof {
        lemma_bar_cells_bounded(width, num as int, den as int);
        assert((width as int) * (num as int) <= (width as int) * (den as int)) by (nonlinear_arith)
            requires
                0 <= width,
                0 <= num <= den,
        ;
        assert((width as int) * (den as int) <= 65535 * 0xFFFF_FFFFint) by (nonlinear_arith)
            requires
                0 <= width <= 65535,
                0 <= den <= 0xFFFF_FFFF,
        ;
    }
    (((width as u64) * num + (den - 1)) / den) as u16
}

/// The color of a bar filled to `num / den`: the high-fraction color at
/// and above eight tenths, the lower-urgency color below.
pub open spec fn spec_bar_color(f: Fraction) -> Color {
    if 5 * f.num >= 4 * f.den {
        Color::Green
    } else {
        Color::Yellow
    }
}

/// See [`spec_bar_color`].
pub fn bar_color(f: Fraction) -> (c: Color)
    ensures
        c == spec_bar_color(f),
{
    if 5 * (f.num as u64) >= 4 * (f.den as u64) {
        Color::Green
    } else {
        Color::Yellow
    }
}

/// The one-row rectangle of line `line` within `bound`.
pub open spec fn spec_line_bound(bound: Rect, line: int) -> Rect {
    Rect { x: bound.x, y: (bound.y + line) as u16, width: bound.width, height: 1 }
}

/// See [`spec_line_bound`].
pub fn line_bound(bound: Rect, line: u16) -> (r: Rect)
    requires
        bound.wf(),
        line < bound.height,
    ensures
        r == spec_line_bound(bound, line as int),
        r.wf(),
        r.spec_right() == bound.spec_right(),
        bound.y <= r.y < bound.spec_bottom(),
{
    Rect { x: bound.x, y: bound.y + line, width: bound.width, height: 1 }
}

/// Where the spinner window of a task at `step` on row `seed` sits: its
/// left edge moves by one cell per step, wrapping within the column, so
/// simultaneous indeterminate rows desynchronize.
pub open spec fn spec_spinner_rect(bound: Rect, step: ProgressStep, seed: int) -> Rect {
    let x = bound.x + ((step + seed) % (bound.width as int));
    let w: int = if x + 5 <= u16::MAX {
        5
    } else {
        u16::MAX - x
    };
    spec_intersect(Rect { x: x as u16, y: bound.y, width: w as u16, height: bound.height }, bound)
}

/// Highlight the spinner window for an indeterminate task: a small
/// fixed-width window whose offset is `(step + seed) mod width`, painted
/// with a highlight background; nothing else changes. A zero-width bound
/// changes nothing.
pub fn draw_spinner(buf: &mut Buffer, bound: Rect, step: ProgressStep, seed: u16)
    requires
        old(buf).wf(),
        bound.wf(),
    ensures
        final(buf).wf(),
        final(buf).same_dims(old(buf)),
        bound.width == 0 ==> *final(buf) == *old(buf),
        bound.width > 0 ==> forall|x: int, y: int|
            old(buf).in_bounds(x, y) ==> final(buf).cell(x, y) == (if spec_spinner_rect(
                bound,
                step,
                seed as int,
            ).contains(x, y) {
                bg_set(old(buf).cell(x, y), Color::White)
            } else {
                old(buf).cell(x, y)
            }),
{
    if bound.width == 0 {
        return;
    }
    let x = bound.x + (((step as u64 + seed as u64) % (bound.width as u64)) as u16);
    let w: u16 = if x <= u16::MAX - 5 {
        5
    } else {
        u16::MAX - x
    };
    let window = crate::rect::intersect(
        Rect { x, y: bound.y, width: w, height: bound.height },
        bound,
    );
    proof {
        assert(window == spec_spinner_rect(bound, step, seed as int));
    }
    buf.fill_bg(window, Color::White);
}

/// What the progress column prints for a task that has progress: the
/// step count, then ` / target` when the target is known, then a space
/// and the unit when one is set.
pub open spec fn spec_progress_text(p: ProgressV) -> Seq<char> {
    spec_digits(p.step as nat) + (match p.done_at {
        Some(d) => seq![' ', '/', ' '] + spec_digits(d as nat),
        None => Seq::<char>::empty(),
    }) + (match p.unit {
        Some(u) => seq![' '] + u,
        None => Seq::<char>::empty(),
    })
}

/// See [`spec_progress_text`].
pub fn progress_text(p: &Progress) -> (t: Vec<char>)
    ensures
        t@ == spec_progress_text(p@),
{
    let mut t: Vec<char> = Vec::new();
    push_digits(p.step as u64, &mut t);
    match p.done_at {
        Some(d) => {
            t.push(' ');
            t.push('/');
            t.push(' ');
            push_digits(d as u64, &mut t);
        },
        None => {},
    }
    match &p.unit {
        Some(u) => {
            t.push(' ');
            let mut cs = crate::text::str_chars(u.as_str());
            t.append(&mut cs);
        },
        None => {},
    }
    proof {
        assert(t@ =~= spec_progress_text(p@));
    }
    t
}

/// The label of the overflow row: how many entries are hidden below the
/// visible rows, preceded by the column separator when a tree column was
/// drawn.
pub open spec fn spec_overflow_label(label_offset: u16, count: nat) -> Seq<char> {
    (if label_offset != 0 {
        seq!['│']
    } else {
        Seq::<char>::empty()
    }) + seq![' ', '…', 'a', 'n', 'd', ' '] + spec_digits(count) + seq![' ', 'm', 'o', 'r', 'e']
}

/// See [`spec_overflow_label`].
pub fn overflow_label(label_offset: u16, count: u64) -> (t: Vec<char>)
    ensures
        t@ == spec_overflow_label(label_offset, count as nat),
{
    let mut t: Vec<char> = Vec::new();
    if label_offset != 0 {
        t.push('│');
    }
    t.push(' ');
    t.push('…');
    t.push('a');
    t.push('n');
    t.push('d');
    t.push(' ');
    push_digits(count, &mut t);
    t.push(' ');
    t.push('m');
    t.push('o');
    t.push('r');
    t.push('e');
    proof {
        assert(t@ =~= spec_overflow_label(label_offset, count as nat));
    }
    t
}

/// A task's share of done work in thousandths, clamped to `[0, 1000]`;
/// zero for tasks with no fraction, so indeterminate and untracked tasks
/// weigh as unstarted in the overflow mean.
pub open spec fn spec_permille(op: Option<ProgressV>) -> int {
    match op {
        Some(pv) => match fraction_of(pv) {
            Some(f) => 1000 * f.num / f.den as int,
            None => 0,
        },
        None => 0,
    }
}

/// A clamped fraction is at most one thousand thousandths.
proof fn lemma_permille_bounded(num: int, den: int)
    requires
        0 <= num <= den,
        0 < den,
    ensures
        0 <= 1000 * num / den <= 1000,
{
    vstd::arithmetic::div_mod::lemma_div_is_ordered(1000 * num, 1000 * den, den);
    vstd::arithmetic::div_mod::lemma_div_by_multiple(1000, den);
    assert(1000 * num <= 1000 * den) by (nonlinear_arith)
        requires
            0 <= num <= den,
    ;
    assert(1000 * num >= 0) by (nonlinear_arith)
        requires
            0 <= num,
    ;
    vstd::arithmetic::div_mod::lemma_div_pos_is_pos(1000 * num, den);
}

/// See [`spec_permille`].
fn frac_permille(op: &Option<Progress>) -> (r: u64)
    ensures
        r as int == spec_permille(
            match *op {
                Some(p) => Some(p@),
                None => None,
            },
        ),
        r <= 1000,
{
    match op {
        Some(p) => match p.fraction() {
            Some(f) => {
                proof {
                    lemma_permille_bounded(f.num as int, f.den as int);
                }
                (1000u64 * (f.num as u64)) / (f.den as u64)
            },
            None => 0,
        },
        None => 0,
    }
}

/// The total of [`spec_permille`] over a sequence of entries.
pub open spec fn sum_permille(s: Seq<TaskEntryV>) -> int
    decreases s.len(),
{
    if s.len() == 0 {
        0
    } else {
        sum_permille(s.drop_last()) + spec_permille(s.last().value.progress)
    }
}

/// The total of clamped fractions lies between zero and a thousand per
/// entry.
pub proof fn lemma_sum_permille_bounds(s: Seq<TaskEntryV>)
    ensures
        0 <= sum_permille(s) <= 1000 * s.len(),
    decreases s.len(),
{
    if s.len() > 0 {
        lemma_sum_permille_bounds(s.drop_last());
        match s.last().value.progress {
            Some(pv) => match fraction_of(pv) {
                Some(f) => {
                    lemma_permille_bounded(f.num as int, f.den as int);
                },
                None => {},
            },
            None => {},
        }
    }
}

/// The mean share of done work over the entries from `start` on, in
/// thousandths: the aggregate the overflow row's bar shows, counting
/// entries without a fraction as unstarted.
pub open spec fn spec_overflow_mean(s: Seq<TaskEntryV>, start: int) -> int {
    sum_permille(s.skip(start)) / (s.len() - start)
}

/// Fill the leading `num / den` share of `bound` with `color` and return
/// the filled rectangle together with the style that text overlaid on
/// the filled part must use: contrasting foreground over that
/// background. A zero-width bound changes nothing and reports an empty
/// rectangle with a plain style.
pub fn draw_progress_bar_fn(buf: &mut Buffer, bound: Rect, num: u64, den: u64, color: Color) -> (r:
    (Rect, TextStyle))
    requires
        old(buf).wf(),
        bound.wf(),
        num <= den,
        0 < den,
        den <= 0xFFFF_FFFF,
    ensures
        final(buf).wf(),
        final(buf).same_dims(old(buf)),
        bound.width == 0 ==> *final(buf) == *old(buf) && r.0 == (Rect {
            x: 0u16,
            y: 0u16,
            width: 0u16,
            height: 0u16,
        }) && r.1 == (TextStyle { fg: None::<Color>, bg: None::<Color> }),
        bound.width > 0 ==> {
            &&& r.0 == (Rect {
                x: bound.x,
                y: bound.y,
                width: spec_bar_cells(bound.width, num as int, den as int) as u16,
                height: bound.height,
            })
            &&& r.1 == (TextStyle { fg: Some(Color::Black), bg: Some(color) })
            &&& r.0.wf()
            &&& r.0.width <= bound.width
            &&& forall|x: int, y: int|
                old(buf).in_bounds(x, y) ==> final(buf).cell(x, y) == (if r.0.contains(x, y) {
                    bg_set(old(buf).cell(x, y), color)
                } else {
                    old(buf).cell(x, y)
                })
        },
{
    if bound.width == 0 {
        return (Rect { x: 0, y: 0, width: 0, height: 0 }, TextStyle { fg: None, bg: None });
    }
    let w = bar_cells(bound.width, num, den);
    let filled = Rect { x: bound.x, y: bound.y, width: w, height: bound.height };
    buf.fill_bg(filled, color);
    (filled, TextStyle { fg: Some(Color::Black), bg: Some(color) })
}

/// The space the centered title of a group row claims around itself: two
/// cells on the left, one on the right.
pub const TITLE_SPACING: u16 = 3;

/// What the progress column holds for one row before any overlay: a
/// leading space and the progress text for rows with progress, or a
/// leading space and a textual horizontal rule for group rows.
pub open spec fn spec_padded_text(e: TaskEntryV, width: u16) -> Seq<char> {
    match e.value.progress {
        Some(p) => seq![' '] + spec_progress_text(p),
        None => seq![' '] + spec_rule(width),
    }
}

/// The horizontal-rule filler of a group row: the leader character
/// repeated to the width left of the title spacing, and at least once.
pub open spec fn spec_rule(width: u16) -> Seq<char> {
    let w: int = if width > TITLE_SPACING {
        width - TITLE_SPACING
    } else {
        1
    };
    Seq::new(w as nat, |i: int| '─')
}

/// The text centered in the progress column for a group row: its title
/// between a depth-proportional leader and single spaces.
pub open spec fn spec_centered_title(e: TaskEntryV) -> Seq<char> {
    seq![' '] + Seq::new(e.key.len(), |i: int| '‧') + seq![' '] + e.value.title + seq![' ']
}

/// See [`spec_padded_text`].
pub fn padded_text(e: &TaskEntry, width: u16) -> (t: Vec<char>)
    ensures
        t@ == spec_padded_text(e@, width),
{
    let mut t: Vec<char> = Vec::new();
    t.push(' ');
    match &e.value.progress {
        Some(p) => {
            let mut body = progress_text(p);
            t.append(&mut body);
        },
        None => {
            let w: u16 = if width > TITLE_SPACING {
                width - TITLE_SPACING
            } else {
                1
            };
            let mut i: u16 = 0;
            while i < w
                invariant
                    i <= w,
                    t@ == seq![' '] + Seq::new(i as nat, |j: int| '─'),
                decreases w - i,
            {
                t.push('─');
                proof {
                    assert(t@ =~= seq![' '] + Seq::new((i + 1) as nat, |j: int| '─'));
                }
                i += 1;
            }
            proof {
                assert(t@ =~= seq![' '] + spec_rule(width));
            }
        },
    }
    proof {
        assert(t@ =~= spec_padded_text(e@, width));
    }
    t
}

/// See [`spec_centered_title`].
pub fn centered_title(e: &TaskEntry) -> (t: Vec<char>)
    ensures
        t@ == spec_centered_title(e@),
{
    let mut t: Vec<char> = Vec::new();
    t.push(' ');
    let level = e.key.level();
    let mut i: usize = 0;
    while i < level
        invariant
            i <= level,
            t@ == seq![' '] + Seq::new(i as nat, |j: int| '‧'),
        decreases level - i,
    {
        t.push('‧');
        proof {
            assert(t@ =~= seq![' '] + Seq::new((i + 1) as nat, |j: int| '‧'));
        }
        i += 1;
    }
    t.push(' ');
    let mut title = crate::text::str_chars(e.value.title.as_str());
    t.append(&mut title);
    t.push(' ');
    proof {
        assert(t@ =~= spec_centered_title(e@));
    }
    t
}

/// The display width of the widest progress text among the first `rows`
/// entries, in grapheme clusters; group rows do not count.
pub open spec fn spec_max_label_w(s: Seq<TaskEntryV>, rows: int) -> int
    decreases rows,
{
    if rows <= 0 {
        0
    } else {
        let prev = spec_max_label_w(s, rows - 1);
        match s[rows - 1].value.progress {
            Some(p) => {
                let n = crate::text::grapheme_len(spec_progress_text(p));
                if n > prev {
                    n
                } else {
                    prev
                }
            },
            None => prev,
        }
    }
}

/// The widest claim among the first `rows` group rows: the title's
/// display width plus the depth leader and the title spacing; rows with
/// progress do not count.
pub open spec fn spec_max_title_w(s: Seq<TaskEntryV>, rows: int) -> int
    decreases rows,
{
    if rows <= 0 {
        0
    } else {
        let prev = spec_max_title_w(s, rows - 1);
        match s[rows - 1].value.progress {
            Some(p) => prev,
            None => {
                let n = crate::text::grapheme_len(s[rows - 1].value.title) + s[rows - 1].key.len()
                    + TITLE_SPACING;
                if n > prev {
                    n
                } else {
                    prev
                }
            },
        }
    }
}

/// The tree column's text for one row: a connector glyph right-aligned
/// to the row's nesting depth — one glyph for the first level, another
/// for deeper rows, and a third for group rows without progress — then
/// the title for rows whose progress the other column shows.
pub open spec fn spec_tree_prefix(e: TaskEntryV) -> Seq<char> {
    let level = e.key.len() as int;
    let glyph: char = if level == 1 {
        '‧'
    } else if e.value.progress is None {
        '…'
    } else {
        '└'
    };
    let pad: int = if level >= 1 {
        level - 1
    } else {
        0
    };
    Seq::new(pad as nat, |i: int| ' ').push(glyph) + seq![' '] + (match e.value.progress {
        Some(p) => e.value.title,
        None => Seq::<char>::empty(),
    }) + seq![' ']
}

/// See [`spec_tree_prefix`].
pub fn tree_prefix(e: &TaskEntry) -> (t: Vec<char>)
    ensures
        t@ == spec_tree_prefix(e@),
{
    let level = e.key.level();
    let glyph: char = if level == 1 {
        '‧'
    } else if e.value.progress.is_none() {
        '…'
    } else {
        '└'
    };
    let pad: usize = if level >= 1 {
        level - 1
    } else {
        0
    };
    let mut t: Vec<char> = Vec::new();
    let mut i: usize = 0;
    while i < pad
        invariant
            i <= pad,
            t@ == Seq::new(i as nat, |j: int| ' '),
        decreases pad - i,
    {
        t.push(' ');
        proof {
            assert(t@ =~= Seq::new((i + 1) as nat, |j: int| ' '));
        }
        i += 1;
    }
    t.push(glyph);
    t.push(' ');
    match &e.value.progress {
        Some(p) => {
            let mut title = crate::text::str_chars(e.value.title.as_str());
            t.append(&mut title);
        },
        None => {},
    }
    t.push(' ');
    proof {
        assert(t@ =~= spec_tree_prefix(e@));
    }
    t
}

/// The width the tree column actually used over the first `rows` rows:
/// the widest prefix drawn, truncated to the column width.
pub open spec fn spec_tree_width(s: Seq<TaskEntryV>, rows: int, width: u16) -> int
    decreases rows,
{
    if rows <= 0 {
        0
    } else {
        let prev = spec_tree_width(s, rows - 1, width);
        let t = spec_tree_prefix(s[rows - 1]);
        let n: int = if t.len() <= width {
            t.len() as int
        } else {
            width as int
        };
        if n > prev {
            n
        } else {
            prev
        }
    }
}

/// What one tree-column row holds after drawing: the row's prefix,
/// truncated to the column width.
pub open spec fn tree_row_drawn(post: Buffer, bound: Rect, line: int, e: TaskEntryV) -> bool {
    let t = spec_tree_prefix(e);
    let n: int = if t.len() <= bound.width {
        t.len() as int
    } else {
        bound.width as int
    };
    let y = bound.y + line;
    forall|x: int| bound.x <= x < bound.x + n ==> #[trigger] post.cell(x, y).ch == t[x - bound.x]
}

/// How many rows of `bound` the first entries fill: all of them, or as
/// many as fit.
pub open spec fn spec_rows(len: int, height: u16) -> int {
    if len <= height {
        len
    } else {
        height as int
    }
}

/// Draw the tree column: one prefix per visible row, colors untouched,
/// and report the widest width drawn, where the progress column begins.
pub fn draw_tree(entries: &Vec<TaskEntry>, buf: &mut Buffer, bound: Rect) -> (w: u16)
    requires
        old(buf).wf(),
        bound.wf(),
        bound.spec_right() <= old(buf).spec_width(),
        bound.spec_bottom() <= old(buf).spec_height(),
    ensures
        final(buf).wf(),
        final(buf).same_dims(old(buf)),
        w as int == spec_tree_width(
            crate::tree::entries_view(entries@),
            spec_rows(entries@.len() as int, bound.height),
            bound.width,
        ),
        w <= bound.width,
        forall|r: int|
            0 <= r < spec_rows(entries@.len() as int, bound.height) ==> tree_row_drawn(
                *final(buf),
                bound,
                r,
                #[trigger] crate::tree::entries_view(entries@)[r],
            ),
        forall|a: int, b: int|
            old(buf).in_bounds(a, b) && !(bound.y <= b < bound.y + spec_rows(
                entries@.len() as int,
                bound.height,
            ) && bound.x <= a < bound.spec_right()) ==> final(buf).cell(a, b) == old(buf).cell(
                a,
                b,
            ),
        forall|a: int, b: int|
            old(buf).in_bounds(a, b) ==> final(buf).cell(a, b).bg == old(buf).cell(a, b).bg
                && final(buf).cell(a, b).fg == old(buf).cell(a, b).fg,
{
    let ghost sv = crate::tree::entries_view(entries@);
    let ghost orig = *buf;
    let rows: usize = if entries.len() <= bound.height as usize {
        entries.len()
    } else {
        bound.height as usize
    };
    let plain = TextStyle::plain();
    let mut w: u16 = 0;
    let mut i: usize = 0;
    while i < rows
        invariant
            i <= rows,
            rows == spec_rows(entries@.len() as int, bound.height),
            rows <= bound.height,
            sv == crate::tree::entries_view(entries@),
            buf.wf(),
            buf.same_dims(&orig),
            orig == *old(buf),
            bound.wf(),
            bound.spec_right() <= buf.spec_width(),
            bound.spec_bottom() <= buf.spec_height(),
            plain == (TextStyle { fg: None::<Color>, bg: None::<Color> }),
            w as int == spec_tree_width(sv, i as int, bound.width),
            w <= bound.width,
            forall|r: int| 0 <= r < i ==> tree_row_drawn(*buf, bound, r, #[trigger] sv[r]),
            forall|a: int, b: int|
                orig.in_bounds(a, b) && !(bound.y <= b < bound.y + i && bound.x <= a
                    < bound.spec_right()) ==> buf.cell(a, b) == orig.cell(a, b),
            forall|a: int, b: int|
                orig.in_bounds(a, b) ==> buf.cell(a, b).bg == orig.cell(a, b).bg && buf.cell(
                    a,
                    b,
                ).fg == orig.cell(a, b).fg,
        decreases rows - i,
    {
        let lb = line_bound(bound, i as u16);
        let t = tree_prefix(&entries[i]);
        let ghost prev = *buf;
        let n = buf.draw_text(lb, &t, 0, plain, plain);
        if n > w {
            w = n;
        }
        proof {
            assert(sv[i as int] == entries@[i as int]@);
            assert forall|a: int, b: int| orig.in_bounds(a, b) implies buf.cell(a, b).bg
                == orig.cell(a, b).bg && buf.cell(a, b).fg == orig.cell(a, b).fg by {
                assert(prev.in_bounds(a, b));
                if b == lb.y as int && lb.x <= a < lb.x + n {
                    assert(buf.cell(a, b) == crate::buffer::styled(
                        prev.cell(a, b),
                        t@[a - lb.x],
                        plain,
                    ));
                    assert(crate::buffer::styled(prev.cell(a, b), t@[a - lb.x], plain).bg
                        == prev.cell(a, b).bg);
                    assert(crate::buffer::styled(prev.cell(a, b), t@[a - lb.x], plain).fg
                        == prev.cell(a, b).fg);
                } else {
                    assert(buf.cell(a, b) == prev.cell(a, b));
                }
                assert(prev.cell(a, b).bg == orig.cell(a, b).bg);
                assert(prev.cell(a, b).fg == orig.cell(a, b).fg);
            }
            assert forall|r: int| 0 <= r < i + 1 implies tree_row_drawn(
                *buf,
                bound,
                r,
                #[trigger] sv[r],
            ) by {
                if r < i {
                    let yy = bound.y + r;
                    assert(forall|x: int|
                        prev.in_bounds(x, yy) ==> #[trigger] buf.cell(x, yy) == prev.cell(x, yy));
                    assert(tree_row_drawn(prev, bound, r, sv[r]));
                } else {
                    assert forall|x: int|
                        bound.x <= x < bound.x + n implies #[trigger] buf.cell(x, lb.y as int).ch
                        == t@[x - bound.x] by {
                        assert(buf.cell(x, lb.y as int) == crate::buffer::styled(
                            prev.cell(x, lb.y as int),
                            t@[x - bound.x],
                            plain,
                        ));
                    }
                }
            }
        }
        i += 1;
    }
    w
}

/// The fraction of a task that may or may not carry progress.
pub open spec fn opt_fraction(op: Option<ProgressV>) -> Option<Fraction> {
    match op {
        Some(p) => fraction_of(p),
        None => None,
    }
}

/// The column offset at which a group row's centered title begins,
/// counted from the progress column's left edge.
pub open spec fn spec_center_off(width: u16, clw: u16, mtw: u16) -> u16 {
    (clw + (if width > mtw {
        (width - mtw) / 2
    } else {
        0
    })) as u16
}

/// What one row of the progress column looks like after drawing, given
/// the buffer before (`pre`) and after (`post`): the column separator,
/// then per kind of row a filled bar under the progress text, or the
/// text with a spinner window, or a centered title over a horizontal
/// rule; cells of the row that nothing paints keep their colors.
pub open spec fn progress_row_drawn(
    pre: Buffer,
    post: Buffer,
    bound: Rect,
    line: int,
    e: TaskEntryV,
    clw: u16,
    mlw: u16,
    mtw: u16,
) -> bool {
    let lb = spec_line_bound(bound, line);
    let y = lb.y as int;
    let pr = spec_offset_x(lb, clw);
    let tx = pr.x as int;
    let text = spec_padded_text(e, bound.width);
    let n: int = if text.len() <= pr.width {
        text.len() as int
    } else {
        pr.width as int
    };
    &&& (clw == 1 && bound.width >= 1 ==> post.cell(bound.x as int, y).ch == '│')
    &&& (match opt_fraction(e.value.progress) {
        Some(f) => {
            let bw = spec_bar_cells(pr.width, f.num as int, f.den as int);
            &&& (forall|x: int|
                tx <= x < tx + bw ==> #[trigger] post.cell(x, y).bg == spec_bar_color(f))
            &&& (forall|x: int|
                tx + bw <= x < bound.spec_right() ==> #[trigger] post.cell(x, y).bg == pre.cell(
                    x,
                    y,
                ).bg)
            &&& (forall|x: int|
                tx <= x < tx + n ==> #[trigger] post.cell(x, y).ch == text[x - tx])
        },
        None => match e.value.progress {
            Some(p) => {
                let sr = spec_spinner_rect(spec_offset_x(lb, mlw), p.step, line);
                &&& (forall|x: int|
                    tx <= x < tx + n ==> #[trigger] post.cell(x, y).ch == text[x - tx])
                &&& (forall|x: int|
                    bound.x <= x < bound.spec_right() ==> #[trigger] post.cell(x, y).bg == (
                    if sr.contains(x, y) {
                        Color::White
                    } else {
                        pre.cell(x, y).bg
                    }))
            },
            None => {
                let ct = spec_centered_title(e);
                let crect = spec_offset_x(lb, spec_center_off(bound.width, clw, mtw));
                let cw: int = if mtw <= crect.width {
                    mtw as int
                } else {
                    crect.width as int
                };
                let cx = crect.x as int;
                let cn: int = if ct.len() <= cw {
                    ct.len() as int
                } else {
                    cw
                };
                &&& (forall|x: int|
                    cx <= x < cx + cn ==> #[trigger] post.cell(x, y).ch == ct[x - cx])
                &&& (forall|x: int|
                    tx <= x < tx + n && !(cx <= x < cx + cn) ==> #[trigger] post.cell(x, y).ch
                        == text[x - tx])
                &&& (forall|x: int|
                    bound.x <= x < bound.spec_right() ==> #[trigger] post.cell(x, y).bg
                        == pre.cell(x, y).bg)
            },
        },
    })
}

/// A drawn row stays drawn: the row's look depends only on the cells of
/// its own line, in the buffer before and after.
#[verifier::rlimit(100)]
proof fn lemma_row_drawn_stable(
    pre1: Buffer,
    pre2: Buffer,
    post1: Buffer,
    post2: Buffer,
    bound: Rect,
    line: int,
    e: TaskEntryV,
    clw: u16,
    mlw: u16,
    mtw: u16,
)
    requires
        bound.wf(),
        0 <= line < bound.height,
        progress_row_drawn(pre1, post1, bound, line, e, clw, mlw, mtw),
        forall|x: int|
            bound.x <= x < bound.spec_right() ==> #[trigger] post2.cell(x, bound.y + line)
                == post1.cell(x, bound.y + line),
        forall|x: int|
            bound.x <= x < bound.spec_right() ==> #[trigger] pre2.cell(x, bound.y + line).bg
                == pre1.cell(x, bound.y + line).bg,
    ensures
        progress_row_drawn(pre2, post2, bound, line, e, clw, mlw, mtw),
{
    let lb = spec_line_bound(bound, line);
    let y = lb.y as int;
    assert(y == bound.y + line);
    let pr = spec_offset_x(lb, clw);
    let tx = pr.x as int;
    let text = spec_padded_text(e, bound.width);
    let n: int = if text.len() <= pr.width {
        text.len() as int
    } else {
        pr.width as int
    };
    if clw == 1 && bound.width >= 1 {
        assert(post2.cell(bound.x as int, y) == post1.cell(bound.x as int, y));
    }
    match opt_fraction(e.value.progress) {
        Some(f) => {
            let bw = spec_bar_cells(pr.width, f.num as int, f.den as int);
            assert(f.wf());
            lemma_bar_cells_bounded(pr.width, f.num as int, f.den as int);
            assert(pr.x + pr.width == bound.spec_right());
            assert forall|x: int| tx <= x < tx + bw implies #[trigger] post2.cell(x, y).bg
                == spec_bar_color(f) by {
                assert(post1.cell(x, y).bg == spec_bar_color(f));
            }
            assert forall|x: int| tx + bw <= x < bound.spec_right() implies #[trigger] post2.cell(
                x,
                y,
            ).bg == pre2.cell(x, y).bg by {
                assert(post1.cell(x, y).bg == pre1.cell(x, y).bg);
            }
            assert forall|x: int| tx <= x < tx + n implies #[trigger] post2.cell(x, y).ch == text[x
                - tx] by {
                assert(post1.cell(x, y).ch == text[x - tx]);
            }
        },
        None => match e.value.progress {
            Some(p) => {
                let sr = spec_spinner_rect(spec_offset_x(lb, mlw), p.step, line);
                assert forall|x: int| tx <= x < tx + n implies #[trigger] post2.cell(x, y).ch
                    == text[x - tx] by {
                    assert(post1.cell(x, y).ch == text[x - tx]);
                }
                assert forall|x: int| bound.x <= x < bound.spec_right() implies #[trigger] post2.cell(
                    x,
                    y,
                ).bg == (if sr.contains(x, y) {
                    Color::White
                } else {
                    pre2.cell(x, y).bg
                }) by {
                    assert(post1.cell(x, y).bg == (if sr.contains(x, y) {
                        Color::White
                    } else {
                        pre1.cell(x, y).bg
                    }));
                }
            },
            None => {
                let ct = spec_centered_title(e);
                let crect = spec_offset_x(lb, spec_center_off(bound.width, clw, mtw));
                let cw: int = if mtw <= crect.width {
                    mtw as int
                } else {
                    crect.width as int
                };
                let cx = crect.x as int;
                let cn: int = if ct.len() <= cw {
                    ct.len() as int
                } else {
                    cw
                };
                assert forall|x: int| cx <= x < cx + cn implies #[trigger] post2.cell(x, y).ch
                    == ct[x - cx] by {
                    assert(post1.cell(x, y).ch == ct[x - cx]);
                }
                assert forall|x: int| tx <= x < tx + n && !(cx <= x < cx + cn)
                    implies #[trigger] post2.cell(x, y).ch == text[x - tx] by {
                    assert(post1.cell(x, y).ch == text[x - tx]);
                }
                assert forall|x: int| bound.x <= x < bound.spec_right() implies #[trigger] post2.cell(
                    x,
                    y,
                ).bg == pre2.cell(x, y).bg by {
                    assert(post1.cell(x, y).bg == pre1.cell(x, y).bg);
                }
            },
        },
    }
}

/// Draw one row of the progress column: the separator, and the bar,
/// spinner or centered title the row's entry calls for.
pub fn draw_progress_row(
    buf: &mut Buffer,
    bound: Rect,
    line: u16,
    e: &TaskEntry,
    clw: u16,
    mlw: u16,
    mtw: u16,
)
    requires
        old(buf).wf(),
        bound.wf(),
        bound.spec_right() <= old(buf).spec_width(),
        bound.spec_bottom() <= old(buf).spec_height(),
        line < bound.height,
        clw <= 1,
    ensures
        final(buf).wf(),
        final(buf).same_dims(old(buf)),
        progress_row_drawn(*old(buf), *final(buf), bound, line as int, e@, clw, mlw, mtw),
        forall|a: int, b: int|
            old(buf).in_bounds(a, b) && !(b == bound.y + line && bound.x <= a
                < bound.spec_right()) ==> final(buf).cell(a, b) == old(buf).cell(a, b),
{
    let frac = match &e.value.progress {
        Some(p) => p.fraction(),
        None => None,
    };
    proof {
        assert(frac == opt_fraction(e@.value.progress));
    }
    match frac {
        Some(f) => {
            draw_row_bar(buf, bound, line, e, clw, mlw, mtw, f);
        },
        None => {
            draw_row_plain(buf, bound, line, e, clw, mlw, mtw);
        },
    }
}

/// Draw a row whose task has a known fraction: the filled bar under the
/// progress text.
#[verifier::rlimit(100)]
fn draw_row_bar(
    buf: &mut Buffer,
    bound: Rect,
    line: u16,
    e: &TaskEntry,
    clw: u16,
    mlw: u16,
    mtw: u16,
    f: Fraction,
)
    requires
        old(buf).wf(),
        bound.wf(),
        bound.spec_right() <= old(buf).spec_width(),
        bound.spec_bottom() <= old(buf).spec_height(),
        line < bound.height,
        clw <= 1,
        opt_fraction(e@.value.progress) == Some(f),
        f.wf(),
    ensures
        final(buf).wf(),
        final(buf).same_dims(old(buf)),
        progress_row_drawn(*old(buf), *final(buf), bound, line as int, e@, clw, mlw, mtw),
        forall|a: int, b: int|
            old(buf).in_bounds(a, b) && !(b == bound.y + line && bound.x <= a
                < bound.spec_right()) ==> final(buf).cell(a, b) == old(buf).cell(a, b),
{
    let lb = line_bound(bound, line);
    let ghost y = lb.y as int;
    let text = padded_text(e, bound.width);
    let pr = offset_x(lb, clw);
    let plain = TextStyle::plain();
    let mut vline: Vec<char> = Vec::new();
    vline.push('│');
    proof {
        assert(vline@.len() == 1);
        assert(vline@[0] == '│');
    }
    let ghost b0 = *buf;
    let color = bar_color(f);
    let r = draw_progress_bar_fn(buf, pr, f.num as u64, f.den as u64, color);
    let ghost b1 = *buf;
    buf.draw_text(lb, &vline, 0, plain, plain);
    let ghost b2 = *buf;
    let split = pr.x + r.0.width;
    let n = buf.draw_text(pr, &text, split, r.1, plain);
    proof {
        let bw = spec_bar_cells(pr.width, f.num as int, f.den as int);
        if pr.width > 0 {
            lemma_bar_cells_bounded(pr.width, f.num as int, f.den as int);
            assert forall|x: int| pr.x <= x < pr.x + bw implies #[trigger] buf.cell(x, y).bg
                == spec_bar_color(f) by {
                assert(b1.cell(x, y) == bg_set(b0.cell(x, y), color));
                if x == lb.x && 1 <= lb.width {
                    assert(b2.cell(x, y) == crate::buffer::styled(b1.cell(x, y), '│', plain));
                } else {
                    assert(b2.cell(x, y) == b1.cell(x, y));
                }
                if pr.x <= x < pr.x + n {
                    assert(buf.cell(x, y) == crate::buffer::styled(
                        b2.cell(x, y),
                        text@[x - pr.x],
                        if x < split {
                            r.1
                        } else {
                            plain
                        },
                    ));
                } else {
                    assert(buf.cell(x, y) == b2.cell(x, y));
                }
            }
            assert forall|x: int| pr.x + bw <= x < bound.spec_right() implies #[trigger] buf.cell(
                x,
                y,
            ).bg == b0.cell(x, y).bg by {
                assert(!r.0.contains(x, y));
                assert(b1.cell(x, y) == b0.cell(x, y));
                if x == lb.x && 1 <= lb.width {
                    assert(b2.cell(x, y) == crate::buffer::styled(b1.cell(x, y), '│', plain));
                } else {
                    assert(b2.cell(x, y) == b1.cell(x, y));
                }
                if pr.x <= x < pr.x + n {
                    assert(buf.cell(x, y) == crate::buffer::styled(
                        b2.cell(x, y),
                        text@[x - pr.x],
                        if x < split {
                            r.1
                        } else {
                            plain
                        },
                    ));
                } else {
                    assert(buf.cell(x, y) == b2.cell(x, y));
                }
            }
        } else {
            lemma_bar_cells_bounded(pr.width, f.num as int, f.den as int);
            assert(spec_bar_cells(pr.width, f.num as int, f.den as int) == 0);
            assert(pr.x as int == bound.spec_right());
        }
        assert forall|x: int| pr.x <= x < pr.x + n implies #[trigger] buf.cell(x, y).ch == text@[x
            - pr.x] by {
            assert(buf.cell(x, y) == crate::buffer::styled(
                b2.cell(x, y),
                text@[x - pr.x],
                if x < split {
                    r.1
                } else {
                    plain
                },
            ));
        }
        if clw == 1 && bound.width >= 1 {
            assert(b2.cell(bound.x as int, y) == crate::buffer::styled(
                b1.cell(bound.x as int, y),
                '│',
                plain,
            ));
            assert(buf.cell(bound.x as int, y) == b2.cell(bound.x as int, y));
        }
        assert(progress_row_drawn(b0, *buf, bound, line as int, e@, clw, mlw, mtw));
    }
}

/// Draw a row without a known fraction: the text with a spinner window
/// for an indeterminate task, or the centered title of a group row.
#[verifier::rlimit(100)]
fn draw_row_plain(
    buf: &mut Buffer,
    bound: Rect,
    line: u16,
    e: &TaskEntry,
    clw: u16,
    mlw: u16,
    mtw: u16,
)
    requires
        old(buf).wf(),
        bound.wf(),
        bound.spec_right() <= old(buf).spec_width(),
        bound.spec_bottom() <= old(buf).spec_height(),
        line < bound.height,
        clw <= 1,
        opt_fraction(e@.value.progress) is None,
    ensures
        final(buf).wf(),
        final(buf).same_dims(old(buf)),
        progress_row_drawn(*old(buf), *final(buf), bound, line as int, e@, clw, mlw, mtw),
        forall|a: int, b: int|
            old(buf).in_bounds(a, b) && !(b == bound.y + line && bound.x <= a
                < bound.spec_right()) ==> final(buf).cell(a, b) == old(buf).cell(a, b),
{
    let lb = line_bound(bound, line);
    let ghost y = lb.y as int;
    let text = padded_text(e, bound.width);
    let pr = offset_x(lb, clw);
    let plain = TextStyle::plain();
    let mut vline: Vec<char> = Vec::new();
    vline.push('│');
    proof {
        assert(vline@.len() == 1);
        assert(vline@[0] == '│');
    }
    let ghost b0 = *buf;
    buf.draw_text(lb, &vline, 0, plain, plain);
    let ghost b2 = *buf;
    let n = buf.draw_text(pr, &text, 0, plain, plain);
    let ghost b3 = *buf;
    match &e.value.progress {
        Some(p) => {
            let srect = offset_x(lb, mlw);
            draw_spinner(buf, srect, p.step, line);
            proof {
                let sr = spec_spinner_rect(spec_offset_x(lb, mlw), p.step, line as int);
                assert forall|x: int| pr.x <= x < pr.x + n implies #[trigger] buf.cell(x, y).ch
                    == text@[x - pr.x] by {
                    assert(b3.cell(x, y) == crate::buffer::styled(
                        b2.cell(x, y),
                        text@[x - pr.x],
                        plain,
                    ));
                    if srect.width > 0 && sr.contains(x, y) {
                        assert(buf.cell(x, y) == bg_set(b3.cell(x, y), Color::White));
                    } else {
                        assert(buf.cell(x, y) == b3.cell(x, y));
                    }
                }
                assert forall|x: int| bound.x <= x < bound.spec_right() implies #[trigger] buf.cell(
                    x,
                    y,
                ).bg == (if sr.contains(x, y) {
                    Color::White
                } else {
                    b0.cell(x, y).bg
                }) by {
                    if x == lb.x && 1 <= lb.width {
                        assert(b2.cell(x, y) == crate::buffer::styled(b0.cell(x, y), '│', plain));
                    } else {
                        assert(b2.cell(x, y) == b0.cell(x, y));
                    }
                    if pr.x <= x < pr.x + n {
                        assert(b3.cell(x, y) == crate::buffer::styled(
                            b2.cell(x, y),
                            text@[x - pr.x],
                            plain,
                        ));
                    } else {
                        assert(b3.cell(x, y) == b2.cell(x, y));
                    }
                    if srect.width == 0 {
                        assert(!sr.contains(x, y));
                        assert(buf.cell(x, y) == b3.cell(x, y));
                    }
                }
                assert(progress_row_drawn(b0, *buf, bound, line as int, e@, clw, mlw, mtw));
            }
        },
        None => {
            let off = clw + (if bound.width > mtw {
                (bound.width - mtw) / 2
            } else {
                0
            });
            let crect0 = offset_x(lb, off);
            let cw = if mtw <= crect0.width {
                mtw
            } else {
                crect0.width
            };
            let crect = Rect { x: crect0.x, y: crect0.y, width: cw, height: crect0.height };
            let ct = centered_title(e);
            let cn = buf.draw_text(crect, &ct, 0, plain, plain);
            proof {
                let cx = crect.x as int;
                assert forall|x: int| cx <= x < cx + cn implies #[trigger] buf.cell(x, y).ch
                    == ct@[x - cx] by {
                    assert(buf.cell(x, y) == crate::buffer::styled(
                        b3.cell(x, y),
                        ct@[x - cx],
                        plain,
                    ));
                }
                assert forall|x: int| pr.x <= x < pr.x + n && !(cx <= x < cx + cn)
                    implies #[trigger] buf.cell(x, y).ch == text@[x - pr.x] by {
                    assert(b3.cell(x, y) == crate::buffer::styled(
                        b2.cell(x, y),
                        text@[x - pr.x],
                        plain,
                    ));
                    assert(buf.cell(x, y) == b3.cell(x, y));
                }
                assert forall|x: int| bound.x <= x < bound.spec_right() implies #[trigger] buf.cell(
                    x,
                    y,
                ).bg == b0.cell(x, y).bg by {
                    if x == lb.x && 1 <= lb.width {
                        assert(b2.cell(x, y) == crate::buffer::styled(b0.cell(x, y), '│', plain));
                    } else {
                        assert(b2.cell(x, y) == b0.cell(x, y));
                    }
                    if pr.x <= x < pr.x + n {
                        assert(b3.cell(x, y) == crate::buffer::styled(
                            b2.cell(x, y),
                            text@[x - pr.x],
                            plain,
                        ));
                    } else {
                        assert(b3.cell(x, y) == b2.cell(x, y));
                    }
                    if cx <= x < cx + cn {
                        assert(buf.cell(x, y) == crate::buffer::styled(
                            b3.cell(x, y),
                            ct@[x - cx],
                            plain,
                        ));
                    } else {
                        assert(buf.cell(x, y) == b3.cell(x, y));
                    }
                }
                assert(progress_row_drawn(b0, *buf, bound, line as int, e@, clw, mlw, mtw));
            }
        },
    }
}

/// A width capped at what a cell coordinate can hold.
pub open spec fn spec_cap16(v: int) -> u16 {
    if v <= 65535 {
        v as u16
    } else {
        65535
    }
}

/// See [`spec_max_label_w`], capped at the widest representable column.
fn max_label_width(entries: &Vec<TaskEntry>, rows: usize) -> (w: u16)
    requires
        rows <= entries@.len(),
    ensures
        w == spec_cap16(spec_max_label_w(crate::tree::entries_view(entries@), rows as int)),
{
    let ghost sv = crate::tree::entries_view(entries@);
    let mut m: usize = 0;
    let mut i: usize = 0;
    while i < rows
        invariant
            i <= rows,
            rows <= entries@.len(),
            sv == crate::tree::entries_view(entries@),
            m as int == spec_max_label_w(sv, i as int),
        decreases rows - i,
    {
        proof {
            assert(sv[i as int] == entries@[i as int]@);
        }
        match &entries[i].value.progress {
            Some(p) => {
                let t = progress_text(p);
                let g = crate::text::grapheme_count(&t);
                if g > m {
                    m = g;
                }
            },
            None => {},
        }
        i += 1;
    }
    if m > 65535 {
        65535
    } else {
        m as u16
    }
}

/// See [`spec_max_title_w`], capped at the widest representable column.
fn max_title_width(entries: &Vec<TaskEntry>, rows: usize) -> (w: u16)
    requires
        rows <= entries@.len(),
    ensures
        w == spec_cap16(spec_max_title_w(crate::tree::entries_view(entries@), rows as int)),
{
    let ghost sv = crate::tree::entries_view(entries@);
    let mut m: u128 = 0;
    let mut i: usize = 0;
    while i < rows
        invariant
            i <= rows,
            rows <= entries@.len(),
            sv == crate::tree::entries_view(entries@),
            m as int == spec_max_title_w(sv, i as int),
        decreases rows - i,
    {
        proof {
            assert(sv[i as int] == entries@[i as int]@);
        }
        match &entries[i].value.progress {
            Some(p) => {},
            None => {
                let title = crate::text::str_chars(entries[i].value.title.as_str());
                let g = crate::text::grapheme_count(&title);
                let level = entries[i].key.level();
                let n: u128 = (g as u128) + (level as u128) + (TITLE_SPACING as u128);
                if n > m {
                    m = n;
                }
            },
        }
        i += 1;
    }
    if m > 65535 {
        65535
    } else {
        m as u16
    }
}

/// Draw the progress column: one row per visible entry — bar, spinner or
/// centered title — with the column separator on the left when a tree
/// column stands beside it.
pub fn draw_progress(
    entries: &Vec<TaskEntry>,
    buf: &mut Buffer,
    bound: Rect,
    draw_column_line: bool,
)
    requires
        old(buf).wf(),
        bound.wf(),
        bound.spec_right() <= old(buf).spec_width(),
        bound.spec_bottom() <= old(buf).spec_height(),
    ensures
        final(buf).wf(),
        final(buf).same_dims(old(buf)),
        forall|r: int|
            0 <= r < spec_rows(entries@.len() as int, bound.height) ==> progress_row_drawn(
                *old(buf),
                *final(buf),
                bound,
                r,
                #[trigger] crate::tree::entries_view(entries@)[r],
                if draw_column_line {
                    1
                } else {
                    0
                },
                spec_cap16(
                    spec_max_label_w(
                        crate::tree::entries_view(entries@),
                        spec_rows(entries@.len() as int, bound.height),
                    ),
                ),
                spec_cap16(
                    spec_max_title_w(
                        crate::tree::entries_view(entries@),
                        spec_rows(entries@.len() as int, bound.height),
                    ),
                ),
            ),
        forall|a: int, b: int|
            old(buf).in_bounds(a, b) && !(bound.y <= b < bound.y + spec_rows(
                entries@.len() as int,
                bound.height,
            ) && bound.x <= a < bound.spec_right()) ==> final(buf).cell(a, b) == old(buf).cell(
                a,
                b,
            ),
{
    let ghost sv = crate::tree::entries_view(entries@);
    let ghost orig = *buf;
    let rows: usize = if entries.len() <= bound.height as usize {
        entries.len()
    } else {
        bound.height as usize
    };
    let clw: u16 = if draw_column_line {
        1
    } else {
        0
    };
    let mlw = max_label_width(entries, rows);
    let mtw = max_title_width(entries, rows);
    let mut i: usize = 0;
    while i < rows
        invariant
            i <= rows,
            rows == spec_rows(entries@.len() as int, bound.height),
            rows <= bound.height,
            rows <= entries@.len(),
            sv == crate::tree::entries_view(entries@),
            buf.wf(),
            buf.same_dims(&orig),
            orig == *old(buf),
            bound.wf(),
            bound.spec_right() <= buf.spec_width(),
            bound.spec_bottom() <= buf.spec_height(),
            clw <= 1,
            forall|r: int|
                0 <= r < i ==> progress_row_drawn(orig, *buf, bound, r, #[trigger] sv[r], clw, mlw, mtw),
            forall|a: int, b: int|
                orig.in_bounds(a, b) && !(bound.y <= b < bound.y + i && bound.x <= a
                    < bound.spec_right()) ==> buf.cell(a, b) == orig.cell(a, b),
        decreases rows - i,
    {
        let ghost prev = *buf;
        draw_progress_row(buf, bound, i as u16, &entries[i], clw, mlw, mtw);
        proof {
            assert(sv[i as int] == entries@[i as int]@);
            assert forall|r: int| 0 <= r < i + 1 implies progress_row_drawn(
                orig,
                *buf,
                bound,
                r,
                #[trigger] sv[r],
                clw,
                mlw,
                mtw,
            ) by {
                let yy = bound.y + r;
                if r < i {
                    assert(forall|x: int|
                        bound.x <= x < bound.spec_right() ==> #[trigger] buf.cell(x, yy)
                            == prev.cell(x, yy));
                    assert(forall|x: int|
                        bound.x <= x < bound.spec_right() ==> #[trigger] orig.cell(x, yy).bg
                            == orig.cell(x, yy).bg);
                    assert(progress_row_drawn(orig, prev, bound, r, sv[r], clw, mlw, mtw));
                    lemma_row_drawn_stable(
                        orig,
                        orig,
                        prev,
                        *buf,
                        bound,
                        r,
                        sv[r],
                        clw,
                        mlw,
                        mtw,
                    );
                } else {
                    assert(forall|x: int|
                        bound.x <= x < bound.spec_right() ==> #[trigger] prev.cell(x, yy).bg
                            == orig.cell(x, yy).bg);
                    assert(progress_row_drawn(prev, *buf, bound, r, sv[r], clw, mlw, mtw));
                    lemma_row_drawn_stable(
                        prev,
                        orig,
                        *buf,
                        *buf,
                        bound,
                        r,
                        sv[r],
                        clw,
                        mlw,
                        mtw,
                    );
                }
            }
        }
        i += 1;
    }
}

/// What the overflow summary row looks like after drawing: the label
/// naming the count of hidden entries stands at `label_offset`, and the
/// row's background shows `mean` thousandths as a high-visibility fill
/// over a warning background.
pub open spec fn overflow_row_drawn(
    post: Buffer,
    bound: Rect,
    count: nat,
    mean: int,
    label_offset: u16,
) -> bool {
    &&& (forall|k: int|
        0 <= k < spec_overflow_label(label_offset, count).len() && k < spec_offset_x(
            bound,
            label_offset,
        ).width ==> post.cell(spec_offset_x(bound, label_offset).x + k, bound.y as int).ch
            == #[trigger] spec_overflow_label(label_offset, count)[k])
    &&& (forall|x: int|
        bound.x <= x < bound.spec_right() ==> #[trigger] post.cell(x, bound.y as int).bg == (if x
            < bound.x + spec_bar_cells(bound.width, mean, 1000) {
            Color::Green
        } else {
            Color::Red
        }))
}

/// Draw the overflow summary row for the entries from `start` on, which
/// exceed the visible rows: the row takes a warning background, its
/// leading share shows the hidden entries' mean fraction as a
/// high-visibility fill, and it is labeled with the count of hidden
/// entries; `label_offset` shifts the label to the right of the tree
/// column when one was drawn, and is zero otherwise.
pub fn draw_overflow(
    buf: &mut Buffer,
    bound: Rect,
    entries: &Vec<TaskEntry>,
    start: usize,
    label_offset: u16,
)
    requires
        old(buf).wf(),
        bound.wf(),
        bound.height == 1,
        bound.spec_right() <= old(buf).spec_width(),
        bound.y < old(buf).spec_height(),
        start < entries@.len(),
    ensures
        final(buf).wf(),
        final(buf).same_dims(old(buf)),
        forall|a: int, b: int|
            old(buf).in_bounds(a, b) && !(b == bound.y && bound.x <= a < bound.spec_right())
                ==> final(buf).cell(a, b) == old(buf).cell(a, b),
        overflow_row_drawn(
            *final(buf),
            bound,
            (entries@.len() - start) as nat,
            spec_overflow_mean(crate::tree::entries_view(entries@), start as int),
            label_offset,
        ),
{
    let ghost sv = crate::tree::entries_view(entries@);
    let n = entries.len();
    let m = n - start;
    let mut sum: u128 = 0;
    let mut k = start;
    while k < n
        invariant
            start <= k <= n,
            n == entries@.len(),
            sv == crate::tree::entries_view(entries@),
            sum as int == sum_permille(sv.subrange(start as int, k as int)),
            sum <= 1000 * (k - start),
        decreases n - k,
    {
        let p = frac_permille(&entries[k].value.progress);
        proof {
            assert(sv.subrange(start as int, k + 1).drop_last() =~= sv.subrange(
                start as int,
                k as int,
            ));
            assert(sv.subrange(start as int, k + 1).last() == sv[k as int]);
            assert(sv[k as int].value.progress == (match entries@[k as int].value.progress {
                Some(pp) => Some(pp@),
                None => None,
            }));
        }
        sum = sum + (p as u128);
        k += 1;
    }
    proof {
        assert(sv.subrange(start as int, n as int) =~= sv.skip(start as int));
        lemma_sum_permille_bounds(sv.skip(start as int));
        vstd::arithmetic::div_mod::lemma_div_is_ordered(
            sum as int,
            1000 * (m as int),
            m as int,
        );
        vstd::arithmetic::div_mod::lemma_div_by_multiple(1000, m as int);
        vstd::arithmetic::div_mod::lemma_div_pos_is_pos(sum as int, m as int);
    }
    let mean: u64 = (sum / (m as u128)) as u64;
    proof {
        assert(mean as int == spec_overflow_mean(sv, start as int));
    }
    let label = overflow_label(label_offset, m as u64);
    let ghost b0 = *buf;
    let r = draw_progress_bar_fn(buf, bound, mean, 1000, Color::Green);
    let bar_w = r.0.width;
    let ghost b1 = *buf;
    let rest = offset_x(bound, bar_w);
    buf.fill_bg(rest, Color::Red);
    let ghost b2 = *buf;
    let lx = offset_x(bound, label_offset);
    let split = bound.x + bar_w;
    let right_style = TextStyle { fg: r.1.fg, bg: Some(Color::Red) };
    let n2 = buf.draw_text(lx, &label, split, r.1, right_style);
    proof {
        if bound.width > 0 {
            lemma_bar_cells_bounded(bound.width, mean as int, 1000);
            assert(bar_w == spec_bar_cells(bound.width, mean as int, 1000));
            assert forall|x: int|
                bound.x <= x < bound.spec_right() implies buf.cell(x, bound.y as int).bg == (if x
                < bound.x + spec_bar_cells(
                bound.width,
                spec_overflow_mean(sv, start as int),
                1000,
            ) {
                Color::Green
            } else {
                Color::Red
            }) by {
                let y = bound.y as int;
                assert(b0.in_bounds(x, y));
                if lx.x <= x < lx.x + n2 {
                    let j = x - lx.x;
                    assert(buf.cell(x, y) == crate::buffer::styled(
                        b2.cell(x, y),
                        label@[j],
                        if x < split {
                            r.1
                        } else {
                            right_style
                        },
                    ));
                } else {
                    assert(buf.cell(x, y) == b2.cell(x, y));
                    if rest.contains(x, y) {
                        assert(b2.cell(x, y) == bg_set(b1.cell(x, y), Color::Red));
                    } else {
                        assert(x < bound.x + bar_w);
                        assert(b2.cell(x, y) == b1.cell(x, y));
                        assert(r.0.contains(x, y));
                        assert(b1.cell(x, y) == bg_set(b0.cell(x, y), Color::Green));
                    }
                }
            }
        }
    }
}

/// Every row's drawn prefix is within the reported tree width.
proof fn lemma_tree_width_max(s: Seq<TaskEntryV>, rows: int, width: u16, r: int)
    requires
        0 <= r < rows,
    ensures
        ({
            let t = spec_tree_prefix(s[r]);
            let n: int = if t.len() <= width {
                t.len() as int
            } else {
                width as int
            };
            n <= spec_tree_width(s, rows, width)
        }),
        spec_tree_width(s, rows, width) >= 0,
    decreases rows,
{
    if r < rows - 1 {
        lemma_tree_width_max(s, rows - 1, width, r);
    }
}

/// The reported tree width is never negative.
proof fn lemma_tree_width_nonneg(s: Seq<TaskEntryV>, rows: int, width: u16)
    ensures
        0 <= spec_tree_width(s, rows, width) <= width,
    decreases rows,
{
    if rows > 0 {
        lemma_tree_width_nonneg(s, rows - 1, width);
    }
}

/// The height left for task rows once the overflow row is reserved:
/// entries that exceed the viewport give up one trailing row.
pub open spec fn spec_task_rows_height(len: int, height: u16) -> u16 {
    if len > height {
        if height > 0 {
            (height - 1) as u16
        } else {
            0
        }
    } else {
        height
    }
}

/// Draw the whole task pane into `bound`: the tree column on the left
/// when half the width reaches the minimum, the progress column beside
/// or instead of it, and — when the entries exceed the viewport — one
/// trailing overflow row summarizing the hidden entries. Returns the
/// width the tree column used, zero when it was suppressed.
#[verifier::rlimit(100)]
pub fn pane(entries: &Vec<TaskEntry>, bound: Rect, buf: &mut Buffer) -> (tree_width: u16)
    requires
        old(buf).wf(),
        bound.wf(),
        bound.spec_right() <= old(buf).spec_width(),
        bound.spec_bottom() <= old(buf).spec_height(),
    ensures
        final(buf).wf(),
        final(buf).same_dims(old(buf)),
        entries@.len() == 0 ==> *final(buf) == *old(buf) && tree_width == 0,
        entries@.len() > 0 ==> ({
            let sv = crate::tree::entries_view(entries@);
            let sh = spec_task_rows_height(entries@.len() as int, bound.height);
            let rows = spec_rows(entries@.len() as int, sh);
            let colw = (bound.width / 2) as u16;
            let ta = Rect { x: bound.x, y: bound.y, width: colw, height: sh };
            let pa = spec_offset_x(
                Rect { x: bound.x, y: bound.y, width: bound.width, height: sh },
                tree_width,
            );
            &&& tree_width as int == (if colw >= MIN_TREE_WIDTH {
                spec_tree_width(sv, rows, colw)
            } else {
                0
            })
            &&& (forall|r: int|
                0 <= r < rows && colw >= MIN_TREE_WIDTH ==> tree_row_drawn(
                    *final(buf),
                    ta,
                    r,
                    #[trigger] sv[r],
                ))
            &&& (forall|r: int|
                0 <= r < rows ==> progress_row_drawn(
                    *old(buf),
                    *final(buf),
                    pa,
                    r,
                    #[trigger] sv[r],
                    if tree_width != 0 {
                        1
                    } else {
                        0
                    },
                    spec_cap16(spec_max_label_w(sv, rows)),
                    spec_cap16(spec_max_title_w(sv, rows)),
                ))
            &&& (entries@.len() > bound.height && bound.height >= 1 ==> overflow_row_drawn(
                *final(buf),
                Rect { x: bound.x, y: (bound.y + sh) as u16, width: bound.width, height: 1 },
                (entries@.len() - sh) as nat,
                spec_overflow_mean(sv, sh as int),
                tree_width,
            ))
        }),
{
    let ghost sv = crate::tree::entries_view(entries@);
    let n = entries.len();
    if n == 0 {
        return 0;
    }
    let overflowing = n > bound.height as usize;
    let sh: u16 = if overflowing {
        if bound.height > 0 {
            bound.height - 1
        } else {
            0
        }
    } else {
        bound.height
    };
    let b = Rect { x: bound.x, y: bound.y, width: bound.width, height: sh };
    let rows: usize = if n <= sh as usize {
        n
    } else {
        sh as usize
    };
    let colw = bound.width / 2;
    let ghost orig = *buf;
    let tw: u16 = if colw >= MIN_TREE_WIDTH {
        let ta = Rect { x: b.x, y: b.y, width: colw, height: b.height };
        draw_tree(entries, buf, ta)
    } else {
        0
    };
    let ghost after_tree = *buf;
    let pa = offset_x(b, tw);
    draw_progress(entries, buf, pa, tw != 0);
    let ghost after_prog = *buf;
    let ghost ob = Rect { x: b.x, y: (b.y + sh) as u16, width: b.width, height: 1u16 };
    if overflowing && bound.height >= 1 {
        let orect = Rect { x: b.x, y: b.y + sh, width: b.width, height: 1 };
        proof {
            assert(orect == ob);
        }
        draw_overflow(buf, orect, entries, sh as usize, tw);
    }
    proof {
        let clw: u16 = if tw != 0 {
            1u16
        } else {
            0u16
        };
        let mlw = spec_cap16(spec_max_label_w(sv, rows as int));
        let mtw = spec_cap16(spec_max_title_w(sv, rows as int));
        let ta = Rect { x: b.x, y: b.y, width: colw as u16, height: b.height };
        if colw >= MIN_TREE_WIDTH {
            lemma_tree_width_nonneg(sv, rows as int, colw);
        }
        assert forall|r: int| 0 <= r < rows implies progress_row_drawn(
            orig,
            *buf,
            pa,
            r,
            #[trigger] sv[r],
            clw,
            mlw,
            mtw,
        ) by {
            if 0 <= r < rows {
                assert(progress_row_drawn(after_tree, after_prog, pa, r, sv[r], clw, mlw, mtw));
                let yy = pa.y + r;
                assert forall|x: int| pa.x <= x < pa.spec_right() implies #[trigger] buf.cell(
                    x,
                    yy,
                ) == after_prog.cell(x, yy) by {
                    assert(orig.in_bounds(x, yy));
                }
                assert forall|x: int|
                    pa.x <= x < pa.spec_right() implies #[trigger] after_tree.cell(x, yy).bg
                    == orig.cell(x, yy).bg by {
                    assert(orig.in_bounds(x, yy));
                }
                lemma_row_drawn_stable(
                    after_tree,
                    orig,
                    after_prog,
                    *buf,
                    pa,
                    r,
                    sv[r],
                    clw,
                    mlw,
                    mtw,
                );
            }
        }
        if colw >= MIN_TREE_WIDTH {
            assert forall|r: int| 0 <= r < rows implies tree_row_drawn(
                *buf,
                ta,
                r,
                #[trigger] sv[r],
            ) by {
                if 0 <= r < rows {
                    assert(tree_row_drawn(after_tree, ta, r, sv[r]));
                    lemma_tree_width_max(sv, rows as int, colw, r);
                    let yy = ta.y + r;
                    let t = spec_tree_prefix(sv[r]);
                    let nn: int = if t.len() <= ta.width {
                        t.len() as int
                    } else {
                        ta.width as int
                    };
                    assert(nn <= tw);
                    assert forall|x: int| ta.x <= x < ta.x + nn implies #[trigger] buf.cell(
                        x,
                        yy,
                    ).ch == t[x - ta.x] by {
                        assert(x < pa.x);
                        assert(after_prog.cell(x, yy) == after_tree.cell(x, yy));
                        assert(buf.cell(x, yy) == after_prog.cell(x, yy));
                    }
                }
            }
        }
    }
    tw
}

} // verus!

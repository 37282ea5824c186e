use prodash::buffer::{Buffer, Color, TextStyle};
use prodash::draw::{overflow_label, pane, progress_text};
use prodash::key::TreeKey;
use prodash::progress::Progress;
use prodash::rect::Rect;
use prodash::tree::Tree;

fn row_string(buf: &Buffer, y: u16) -> String {
    let mut s = String::new();
    for x in 0..buf.width() {
        s.push(buf.get(x, y).ch);
    }
    s
}

#[test]
fn buffer_starts_blank_and_put_is_local() {
    let mut buf = Buffer::new(4, 2);
    for y in 0..2 {
        for x in 0..4 {
            let c = buf.get(x, y);
            assert_eq!(c.ch, ' ');
            assert_eq!(c.bg, Color::Reset);
        }
    }
    buf.put(2, 1, prodash::buffer::Cell { ch: 'x', fg: Color::White, bg: Color::Red });
    assert_eq!(buf.get(2, 1).ch, 'x');
    assert_eq!(buf.get(1, 1).ch, ' ');
    assert_eq!(buf.get(2, 0).ch, ' ');
}

#[test]
fn fill_bg_paints_only_the_area() {
    let mut buf = Buffer::new(6, 3);
    buf.fill_bg(Rect { x: 1, y: 1, width: 2, height: 1 }, Color::Green);
    assert_eq!(buf.get(1, 1).bg, Color::Green);
    assert_eq!(buf.get(2, 1).bg, Color::Green);
    assert_eq!(buf.get(3, 1).bg, Color::Reset);
    assert_eq!(buf.get(1, 0).bg, Color::Reset);
    assert_eq!(buf.get(1, 2).bg, Color::Reset);
}

#[test]
fn draw_text_truncates_and_styles_split() {
    let mut buf = Buffer::new(5, 1);
    let text: Vec<char> = "abcdefgh".chars().collect();
    let left = TextStyle { fg: Some(Color::Black), bg: Some(Color::Green) };
    let n = buf.draw_text(
        Rect { x: 0, y: 0, width: 5, height: 1 },
        &text,
        2,
        left,
        TextStyle { fg: None, bg: None },
    );
    assert_eq!(n, 5);
    assert_eq!(row_string(&buf, 0), "abcde");
    assert_eq!(buf.get(0, 0).bg, Color::Green);
    assert_eq!(buf.get(1, 0).bg, Color::Green);
    assert_eq!(buf.get(2, 0).bg, Color::Reset);
}

#[test]
fn progress_text_formats_step_total_and_unit() {
    let p = Progress {
        step: 1234567890,
        done_at: Some(4294967295),
        unit: Some(String::from("xy")),
    };
    let t: String = progress_text(&p).into_iter().collect();
    assert_eq!(t, "1234567890 / 4294967295 xy");
    let q = Progress { step: 3, done_at: None, unit: Some(String::from("files")) };
    let t: String = progress_text(&q).into_iter().collect();
    assert_eq!(t, "3 files");
    let r = Progress { step: 0, done_at: Some(10), unit: None };
    let t: String = progress_text(&r).into_iter().collect();
    assert_eq!(t, "0 / 10");
}

#[test]
fn overflow_label_counts_hidden_entries() {
    let t: String = overflow_label(3, 3).into_iter().collect();
    assert_eq!(t, "│ …and 3 more");
    let t: String = overflow_label(0, 12).into_iter().collect();
    assert_eq!(t, " …and 12 more");
}

// Three tasks — a half-done one, an indeterminate one with a unit, and a
// bare group row — rendered into a 40 by 5 viewport.
#[test]
fn three_entries_render_bar_spinner_and_centered_title() {
    let mut tree = Tree::new(0);
    let root = TreeKey::root();
    let a = tree.add_child(&root, String::from("A"));
    let b = tree.add_child(&a, String::from("B"));
    let _c = tree.add_child(&b, String::from("C"));
    tree.init(&a, Some(10), None);
    tree.set(&a, 5);
    tree.init(&b, None, Some(String::from("files")));
    tree.set(&b, 3);
    let mut entries = Vec::new();
    tree.sorted_snapshot(&mut entries);

    let mut buf = Buffer::new(40, 5);
    let tw = pane(&entries, Rect { x: 0, y: 0, width: 40, height: 5 }, &mut buf);
    assert_eq!(tw, 5);

    // tree column: glyphs at increasing depth
    assert_eq!(buf.get(0, 0).ch, '‧');
    assert_eq!(buf.get(2, 0).ch, 'A');
    assert_eq!(buf.get(1, 1).ch, '└');
    assert_eq!(buf.get(3, 1).ch, 'B');
    assert_eq!(buf.get(2, 2).ch, '…');

    // row A: half-filled bar in the low color band under " 5 / 10"
    assert_eq!(buf.get(5, 0).ch, '│');
    assert_eq!(buf.get(7, 0).ch, '5');
    assert_eq!(buf.get(11, 0).ch, '1');
    assert_eq!(buf.get(12, 0).ch, '0');
    // ceil(34 * 5 / 10) == 17 cells from x == 6
    for x in 6..23 {
        assert_eq!(buf.get(x, 0).bg, Color::Yellow);
    }
    assert_eq!(buf.get(23, 0).bg, Color::Reset);

    // row B: "3 files", a spinner window, and no bar
    assert_eq!(buf.get(7, 1).ch, '3');
    assert_eq!(buf.get(9, 1).ch, 'f');
    // max label width is 7 ("3 files"); window starts at
    // 5 + 7 + (3 + 1) % 28 == 16 and spans five cells
    for x in 16..21 {
        assert_eq!(buf.get(x, 1).bg, Color::White);
    }
    assert_eq!(buf.get(6, 1).bg, Color::Reset);
    assert_eq!(buf.get(21, 1).bg, Color::Reset);

    // row C: title centered in the progress column over a rule, no
    // tree-column title
    assert_eq!(buf.get(3, 2).ch, ' ');
    assert_eq!(buf.get(10, 2).ch, '─');
    assert_eq!(buf.get(21, 2).ch, '‧');
    assert_eq!(buf.get(25, 2).ch, 'C');
    assert_eq!(buf.get(2, 2).bg, Color::Reset);
}

// Eight entries with five visible rows leave exactly one overflow row,
// counting the three hidden entries.
#[test]
fn eight_entries_five_visible_rows_overflow_by_three() {
    let mut tree = Tree::new(0);
    let root = TreeKey::root();
    for i in 0..8 {
        let _ = tree.add_child(&root, format!("T{}", i));
    }
    let mut entries = Vec::new();
    tree.sorted_snapshot(&mut entries);
    assert_eq!(entries.len(), 8);

    let mut buf = Buffer::new(40, 6);
    let tw = pane(&entries, Rect { x: 0, y: 0, width: 40, height: 6 }, &mut buf);
    assert_eq!(tw, 3);

    // five entry rows above the summary
    for y in 0..5 {
        assert_eq!(buf.get(0, y).ch, '‧');
        assert_eq!(buf.get(0, y).bg, Color::Reset);
    }
    // exactly one overflow row, labeled with the hidden count
    assert!(row_string(&buf, 5).starts_with("   │ …and 3 more"));
    // no fraction anywhere: the fill is empty, the warning background
    // covers the whole row
    assert_eq!(buf.get(0, 5).bg, Color::Red);
    assert_eq!(buf.get(39, 5).bg, Color::Red);
}

// Hidden entries that are all complete fill the overflow bar entirely.
#[test]
fn overflow_mean_of_finished_tasks_fills_the_row() {
    let mut tree = Tree::new(0);
    let root = TreeKey::root();
    let mut keys = Vec::new();
    for i in 0..8 {
        keys.push(tree.add_child(&root, format!("T{}", i)));
    }
    for k in &keys {
        tree.init(k, Some(10), None);
        tree.set(k, 10);
    }
    let mut entries = Vec::new();
    tree.sorted_snapshot(&mut entries);
    let mut buf = Buffer::new(40, 6);
    let _ = pane(&entries, Rect { x: 0, y: 0, width: 40, height: 6 }, &mut buf);
    assert_eq!(buf.get(0, 5).bg, Color::Green);
    assert_eq!(buf.get(39, 5).bg, Color::Green);
}

// The fraction at and above eight tenths switches the bar to the
// high-fraction color.
#[test]
fn bar_color_band_threshold() {
    let mut tree = Tree::new(0);
    let root = TreeKey::root();
    let a = tree.add_child(&root, String::from("near"));
    tree.init(&a, Some(10), None);
    tree.set(&a, 8);
    let mut entries = Vec::new();
    tree.sorted_snapshot(&mut entries);
    let mut buf = Buffer::new(30, 1);
    // width 30: the tree column is suppressed below the minimum width
    let tw = pane(&entries, Rect { x: 0, y: 0, width: 30, height: 1 }, &mut buf);
    assert_eq!(tw, 0);
    assert_eq!(buf.get(0, 0).bg, Color::Green);
}

// Display width is measured in grapheme clusters, not characters: a
// combining mark does not widen the centered title's claim.
#[test]
fn centered_title_width_counts_graphemes() {
    let mut tree = Tree::new(0);
    let root = TreeKey::root();
    let _a = tree.add_child(&root, String::from("A\u{0308}"));
    let mut entries = Vec::new();
    tree.sorted_snapshot(&mut entries);
    let mut buf = Buffer::new(40, 1);
    let tw = pane(&entries, Rect { x: 0, y: 0, width: 40, height: 1 }, &mut buf);
    assert_eq!(tw, 3);
    // title width 1 + level 1 + spacing 3 gives offset 1 + (37-5)/2 from
    // the progress column at x == 3: the title letter lands at x == 23
    assert_eq!(buf.get(23, 0).ch, 'A');
}

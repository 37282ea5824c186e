use prodash::event::{Event, Key, Line};
use prodash::key::{key_less, TreeKey};
use prodash::messages::{Message, MessageRing};
use prodash::progress::Progress;
use prodash::rect::Rect;
use prodash::state::{Outcome, State};
use prodash::tree::Tree;

#[test]
fn fraction_is_clamped_to_unit_interval() {
    let p = Progress { step: 15, done_at: Some(10), unit: None };
    let f = p.fraction().expect("fraction with a positive target");
    assert!(f.num <= f.den);
    assert!(f.den > 0);
    assert_eq!(f.num, 10);
    assert_eq!(f.den, 10);

    let q = Progress { step: 5, done_at: Some(10), unit: None };
    let g = q.fraction().unwrap();
    assert_eq!(g.num, 5);
    assert_eq!(g.den, 10);
}

#[test]
fn fraction_absent_without_target() {
    let p = Progress { step: 42, done_at: None, unit: Some(String::from("files")) };
    assert!(p.fraction().is_none());
    let z = Progress { step: 1, done_at: Some(0), unit: None };
    assert!(z.fraction().is_none());
}

#[test]
fn keys_order_preorder() {
    let root = TreeKey::root();
    let a = root.child(1);
    let a1 = a.child(1);
    let b = root.child(2);
    // a parent sorts before its child, the child before the next sibling
    assert!(key_less(&a, &a1));
    assert!(key_less(&a1, &b));
    assert!(key_less(&a, &b));
    assert!(!key_less(&b, &a));
    assert!(!key_less(&a, &a));
    assert_eq!(root.level(), 0);
    assert_eq!(a.level(), 1);
    assert_eq!(a1.level(), 2);
}

#[test]
fn add_child_assigns_fresh_ordered_keys() {
    let mut tree = Tree::new(4);
    let root = TreeKey::root();
    let a = tree.add_child(&root, String::from("A"));
    let b = tree.add_child(&root, String::from("B"));
    let a1 = tree.add_child(&a, String::from("A1"));
    let a2 = tree.add_child(&a, String::from("A2"));
    assert!(key_less(&a, &b));
    assert!(key_less(&a, &a1));
    assert!(key_less(&a1, &a2));
    assert!(key_less(&a2, &b));
    assert_eq!(tree.num_tasks(), 4);
    assert!(tree.contains_handle(&a1));
    assert!(tree.contains_handle(&root));
}

#[test]
fn sorted_snapshot_is_strictly_sorted() {
    let mut tree = Tree::new(0);
    let root = TreeKey::root();
    // interleave additions at several levels so insertion order is not
    // the key order
    let a = tree.add_child(&root, String::from("A"));
    let b = tree.add_child(&root, String::from("B"));
    let a1 = tree.add_child(&a, String::from("A1"));
    let b1 = tree.add_child(&b, String::from("B1"));
    let a2 = tree.add_child(&a, String::from("A2"));
    let _ = (a1, b1, a2);
    let mut out = Vec::new();
    tree.sorted_snapshot(&mut out);
    assert_eq!(out.len(), 5);
    for i in 0..out.len() - 1 {
        assert!(key_less(&out[i].key, &out[i + 1].key));
    }
    let titles: Vec<&str> = out.iter().map(|e| e.value.title.as_str()).collect();
    assert_eq!(titles, vec!["A", "A1", "A2", "B", "B1"]);
}

#[test]
fn init_keeps_step_and_set_keeps_shape() {
    let mut tree = Tree::new(0);
    let root = TreeKey::root();
    let a = tree.add_child(&root, String::from("A"));
    tree.set(&a, 7);
    tree.init(&a, Some(100), Some(String::from("Mb")));
    let mut out = Vec::new();
    tree.sorted_snapshot(&mut out);
    let p = out[0].value.progress.as_ref().unwrap();
    assert_eq!(p.step, 7);
    assert_eq!(p.done_at, Some(100));
    assert_eq!(p.unit.as_deref(), Some("Mb"));
    tree.set(&a, 9);
    tree.sorted_snapshot(&mut out);
    let p = out[0].value.progress.as_ref().unwrap();
    assert_eq!(p.step, 9);
    assert_eq!(p.done_at, Some(100));
    assert_eq!(p.unit.as_deref(), Some("Mb"));
}

#[test]
fn message_ring_evicts_oldest_and_keeps_order() {
    let mut ring = MessageRing::new(3);
    for (i, text) in ["one", "two", "three", "four"].iter().enumerate() {
        ring.push(Message { time: i as u64, text: String::from(*text) });
        assert!(ring.len() <= 3);
    }
    let mut out = Vec::new();
    ring.copy_messages(&mut out);
    let texts: Vec<&str> = out.iter().map(|m| m.text.as_str()).collect();
    assert_eq!(texts, vec!["two", "three", "four"]);
    assert_eq!(out[0].time, 1);
    assert_eq!(out[2].time, 3);
}

#[test]
fn message_ring_capacity_zero_stays_empty() {
    let mut ring = MessageRing::new(0);
    ring.push(Message { time: 0, text: String::from("dropped") });
    assert_eq!(ring.len(), 0);
    let mut out = vec![Message { time: 9, text: String::from("stale") }];
    ring.copy_messages(&mut out);
    assert!(out.is_empty());
}

#[test]
fn tree_owns_message_log() {
    let mut tree = Tree::new(2);
    assert_eq!(tree.messages_capacity(), 2);
    tree.push_message(1, String::from("first"));
    tree.push_message(2, String::from("second"));
    tree.push_message(3, String::from("third"));
    let mut out = Vec::new();
    tree.copy_messages(&mut out);
    let texts: Vec<&str> = out.iter().map(|m| m.text.as_str()).collect();
    assert_eq!(texts, vec!["second", "third"]);
}

#[test]
fn quit_keys_terminate_without_redraw() {
    for key in [Key::Esc, Key::Char('q'), Key::Ctrl('c'), Key::Ctrl('[')] {
        let mut s = State::new(String::from("t"));
        let before_offset = s.task_offset;
        let o = s.update(Event::Input(key));
        assert_eq!(o, Outcome::Quit);
        assert_eq!(s.task_offset, before_offset);
        assert!(!s.hide_messages);
    }
}

#[test]
fn unrecognized_key_suppresses_redraw() {
    let mut s = State::new(String::from("t"));
    assert_eq!(s.update(Event::Input(Key::Char('x'))), Outcome::Skip);
    assert_eq!(s.update(Event::Input(Key::Other)), Outcome::Skip);
    assert_eq!(s.update(Event::Tick), Outcome::Redraw);
}

#[test]
fn toggles_and_scrolls_follow_their_keys() {
    let mut s = State::new(String::from("t"));
    assert_eq!(s.update(Event::Input(Key::Char('`'))), Outcome::Redraw);
    assert!(s.hide_messages);
    s.update(Event::Input(Key::Char('`')));
    assert!(!s.hide_messages);
    s.update(Event::Input(Key::Char('~')));
    assert!(s.messages_fullscreen);
    s.update(Event::Input(Key::Char('[')));
    assert!(s.hide_info);
    s.update(Event::Input(Key::Char('{')));
    assert!(s.maximize_info);
    s.update(Event::Input(Key::Char('j')));
    assert_eq!(s.task_offset, 1);
    s.update(Event::Input(Key::Char('d')));
    assert_eq!(s.task_offset, 11);
    s.update(Event::Input(Key::Char('J')));
    s.update(Event::Input(Key::Char('D')));
    assert_eq!(s.message_offset, 11);
}

#[test]
fn scroll_offsets_saturate_at_zero() {
    let mut s = State::new(String::from("t"));
    // decrement many times from zero: never negative, stays at zero
    for _ in 0..5 {
        s.update(Event::Input(Key::Char('k')));
        s.update(Event::Input(Key::Char('U')));
    }
    assert_eq!(s.task_offset, 0);
    assert_eq!(s.message_offset, 0);
    // increment then decrement by the same total returns to the start
    s.update(Event::Input(Key::Char('d')));
    s.update(Event::Input(Key::Char('j')));
    s.update(Event::Input(Key::Char('u')));
    s.update(Event::Input(Key::Char('k')));
    assert_eq!(s.task_offset, 0);
    // a saturated decrement breaks the round trip
    s.update(Event::Input(Key::Char('k')));
    s.update(Event::Input(Key::Char('j')));
    assert_eq!(s.task_offset, 1);
}

#[test]
fn host_events_replace_state() {
    let mut s = State::new(String::from("before"));
    assert_eq!(s.update(Event::SetTitle(String::from("after"))), Outcome::Redraw);
    assert_eq!(s.title, "after");
    let r = Rect { x: 0, y: 0, width: 80, height: 24 };
    assert_eq!(s.update(Event::SetWindowSize(r)), Outcome::Redraw);
    assert_eq!(s.user_provided_window_size, Some(r));
    let lines = vec![Line::Title(String::from("Counts")), Line::Text(String::from("42"))];
    assert_eq!(s.update(Event::SetInformation(lines)), Outcome::Redraw);
    assert_eq!(s.information.len(), 2);
    match &s.information[0] {
        Line::Title(t) => assert_eq!(t, "Counts"),
        Line::Text(_) => panic!("expected a title line"),
    }
}

#[test]
fn str_chars_matches_input() {
    let v = prodash::text::str_chars("a─é");
    assert_eq!(v, vec!['a', '─', 'é']);
}

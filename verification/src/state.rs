//! The render state machine: a pure reducer from the current UI state and
//! one consumed event to the next state, together with the decision
//! whether to redraw or to stop.

use crate::event::{lines_view, Event, Key, Line, LineV};
use crate::rect::Rect;
use vstd::prelude::*;

verus! {

/// The UI state the render loop carries between events: the title and
/// sidebar supplied by the host, pane toggles, and scroll offsets.
pub struct State {
    /// The dashboard title.
    pub title: String,
    /// The information sidebar's lines.
    pub information: Vec<Line>,
    /// A window size the host imposed, overriding the detected one.
    pub user_provided_window_size: Option<Rect>,
    /// Whether the message pane is hidden.
    pub hide_messages: bool,
    /// Whether the message pane covers the whole window.
    pub messages_fullscreen: bool,
    /// Whether the information sidebar is hidden.
    pub hide_info: bool,
    /// Whether the information sidebar is maximized.
    pub maximize_info: bool,
    /// How many messages the message pane is scrolled by.
    pub message_offset: u16,
    /// How many rows the task panes are scrolled by.
    pub task_offset: u16,
}

/// The mathematical value of a [`State`].
pub ghost struct StateV {
    /// The characters of the dashboard title.
    pub title: Seq<char>,
    /// The sidebar lines.
    pub information: Seq<LineV>,
    /// A window size the host imposed.
    pub user_provided_window_size: Option<Rect>,
    /// Whether the message pane is hidden.
    pub hide_messages: bool,
    /// Whether the message pane covers the whole window.
    pub messages_fullscreen: bool,
    /// Whether the information sidebar is hidden.
    pub hide_info: bool,
    /// Whether the information sidebar is maximized.
    pub maximize_info: bool,
    /// How many messages the message pane is scrolled by.
    pub message_offset: u16,
    /// How many rows the task panes are scrolled by.
    pub task_offset: u16,
}

impl View for State {
    type V = StateV;

    open spec fn view(&self) -> StateV {
        StateV {
            title: self.title@,
            information: lines_view(self.information@),
            user_provided_window_size: self.user_provided_window_size,
            hide_messages: self.hide_messages,
            messages_fullscreen: self.messages_fullscreen,
            hide_info: self.hide_info,
            maximize_info: self.maximize_info,
            message_offset: self.message_offset,
            task_offset: self.task_offset,
        }
    }
}

/// What the reducer decided about one event.
#[derive(Clone, Copy, PartialEq, Eq, Structural, Debug)]
pub enum Outcome {
    /// Redraw the dashboard from a fresh snapshot.
    Redraw,
    /// Do nothing: the event was a key the dashboard does not react to.
    Skip,
    /// Leave the render loop; no further frame is drawn.
    Quit,
}

/// The keys that terminate the render loop.
pub open spec fn is_quit_key(k: Key) -> bool {
    k == Key::Esc || k == (Key::Char('q')) || k == (Key::Ctrl('c')) || k == (Key::Ctrl('['))
}

/// The keys that toggle a pane or move a scroll offset.
pub open spec fn is_handled_key(k: Key) -> bool {
    ||| k == (Key::Char('`'))
    ||| k == (Key::Char('~'))
    ||| k == (Key::Char('J'))
    ||| k == (Key::Char('D'))
    ||| k == (Key::Char('j'))
    ||| k == (Key::Char('d'))
    ||| k == (Key::Char('K'))
    ||| k == (Key::Char('U'))
    ||| k == (Key::Char('k'))
    ||| k == (Key::Char('u'))
    ||| k == (Key::Char('['))
    ||| k == (Key::Char('{'))
}

/// Addition that stops at the largest representable offset.
pub open spec fn sat_add(a: u16, d: u16) -> u16 {
    if a + d > u16::MAX {
        u16::MAX
    } else {
        (a + d) as u16
    }
}

/// Subtraction that stops at zero, so offsets never go negative.
pub open spec fn sat_sub(a: u16, d: u16) -> u16 {
    if a >= d {
        (a - d) as u16
    } else {
        0
    }
}

/// The state a handled, non-quitting key leaves behind: one flag
/// toggled, or one offset moved with saturation.
pub open spec fn key_state(s: StateV, k: Key) -> StateV {
    if k == (Key::Char('`')) {
        StateV { hide_messages: !s.hide_messages, ..s }
    } else if k == (Key::Char('~')) {
        StateV { messages_fullscreen: !s.messages_fullscreen, ..s }
    } else if k == (Key::Char('J')) {
        StateV { message_offset: sat_add(s.message_offset, 1), ..s }
    } else if k == (Key::Char('D')) {
        StateV { message_offset: sat_add(s.message_offset, 10), ..s }
    } else if k == (Key::Char('j')) {
        StateV { task_offset: sat_add(s.task_offset, 1), ..s }
    } else if k == (Key::Char('d')) {
        StateV { task_offset: sat_add(s.task_offset, 10), ..s }
    } else if k == (Key::Char('K')) {
        StateV { message_offset: sat_sub(s.message_offset, 1), ..s }
    } else if k == (Key::Char('U')) {
        StateV { message_offset: sat_sub(s.message_offset, 10), ..s }
    } else if k == (Key::Char('k')) {
        StateV { task_offset: sat_sub(s.task_offset, 1), ..s }
    } else if k == (Key::Char('u')) {
        StateV { task_offset: sat_sub(s.task_offset, 10), ..s }
    } else if k == (Key::Char('[')) {
        StateV { hide_info: !s.hide_info, ..s }
    } else if k == (Key::Char('{')) {
        StateV { maximize_info: !s.maximize_info, ..s }
    } else {
        s
    }
}

/// The state after consuming one event.
pub open spec fn next_state(s: StateV, e: Event) -> StateV {
    match e {
        Event::Tick => s,
        Event::Input(k) => if is_quit_key(k) {
            s
        } else {
            key_state(s, k)
        },
        Event::SetWindowSize(r) => StateV { user_provided_window_size: Some(r), ..s },
        Event::SetTitle(t) => StateV { title: t@, ..s },
        Event::SetInformation(info) => StateV { information: lines_view(info@), ..s },
    }
}

/// What the reducer decides for one event: ticks and host events always
/// redraw; quit keys stop the loop with no further redraw; unrecognized
/// keys explicitly suppress the redraw.
pub open spec fn spec_outcome(e: Event) -> Outcome {
    match e {
        Event::Input(k) => if is_quit_key(k) {
            Outcome::Quit
        } else if is_handled_key(k) {
            Outcome::Redraw
        } else {
            Outcome::Skip
        },
        _ => Outcome::Redraw,
    }
}

impl State {
    /// The initial state: the given title, an empty sidebar, every pane
    /// shown, and both scroll offsets at zero.
    pub fn new(title: String) -> (s: State)
        ensures
            s@ == (StateV {
                title: title@,
                information: Seq::<LineV>::empty(),
                user_provided_window_size: None::<Rect>,
                hide_messages: false,
                messages_fullscreen: false,
                hide_info: false,
                maximize_info: false,
                message_offset: 0,
                task_offset: 0,
            }),
    {
        let s = State {
            title,
            information: Vec::new(),
            user_provided_window_size: None,
            hide_messages: false,
            messages_fullscreen: false,
            hide_info: false,
            maximize_info: false,
            message_offset: 0,
            task_offset: 0,
        };
        proof {
            assert(lines_view(s.information@) =~= Seq::<LineV>::empty());
        }
        s
    }

    /// Consume one event: step to the next state and report whether to
    /// redraw, to skip this event, or to leave the loop.
    pub fn update(&mut self, event: Event) -> (o: Outcome)
        ensures
            final(self)@ == next_state(old(self)@, event),
            o == spec_outcome(event),
    {
        match event {
            Event::Tick => Outcome::Redraw,
            Event::Input(key) => match key {
                Key::Esc => Outcome::Quit,
                Key::Ctrl(c) => if c == 'c' || c == '[' {
                    Outcome::Quit
                } else {
                    Outcome::Skip
                },
                Key::Char(c) => {
                    if c == 'q' {
                        Outcome::Quit
                    } else if c == '`' {
                        self.hide_messages = !self.hide_messages;
                        Outcome::Redraw
                    } else if c == '~' {
                        self.messages_fullscreen = !self.messages_fullscreen;
                        Outcome::Redraw
                    } else if c == 'J' {
                        self.message_offset = self.message_offset.saturating_add(1);
                        Outcome::Redraw
                    } else if c == 'D' {
                        self.message_offset = self.message_offset.saturating_add(10);
                        Outcome::Redraw
                    } else if c == 'j' {
                        self.task_offset = self.task_offset.saturating_add(1);
                        Outcome::Redraw
                    } else if c == 'd' {
                        self.task_offset = self.task_offset.saturating_add(10);
                        Outcome::Redraw
                    } else if c == 'K' {
                        self.message_offset = self.message_offset.saturating_sub(1);
                        Outcome::Redraw
                    } else if c == 'U' {
                        self.message_offset = self.message_offset.saturating_sub(10);
                        Outcome::Redraw
                    } else if c == 'k' {
                        self.task_offset = self.task_offset.saturating_sub(1);
                        Outcome::Redraw
                    } else if c == 'u' {
                        self.task_offset = self.task_offset.saturating_sub(10);
                        Outcome::Redraw
                    } else if c == '[' {
                        self.hide_info = !self.hide_info;
                        Outcome::Redraw
                    } else if c == '{' {
                        self.maximize_info = !self.maximize_info;
                        Outcome::Redraw
                    } else {
                        Outcome::Skip
                    }
                },
                Key::Other => Outcome::Skip,
            },
            Event::SetWindowSize(r) => {
                self.user_provided_window_size = Some(r);
                Outcome::Redraw
            },
            Event::SetTitle(t) => {
                self.title = t;
                Outcome::Redraw
            },
            Event::SetInformation(info) => {
                self.information = info;
                Outcome::Redraw
            },
        }
    }
}

/// Scroll offsets saturate rather than wrap: a decrement stops at zero,
/// an increment at the largest offset; incrementing then decrementing by
/// the same amount returns to the original offset exactly when the
/// increment did not saturate, and otherwise lands below it.
pub proof fn lemma_scroll_round_trip(off: u16, d: u16)
    ensures
        sat_sub(off, d) <= off,
        off + d <= u16::MAX ==> sat_sub(sat_add(off, d), d) == off,
        off + d > u16::MAX && d > 0 ==> sat_sub(sat_add(off, d), d) < off,
{
}

/// A quit key ends the loop: the reducer reports `Quit`, after which the
/// loop must issue no further redraw, and the state is left unchanged.
pub proof fn lemma_quit_terminates(s: StateV, k: Key)
    requires
        is_quit_key(k),
    ensures
        spec_outcome(Event::Input(k)) == Outcome::Quit,
        next_state(s, Event::Input(k)) == s,
{
}

} // verus!

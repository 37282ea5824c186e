//! The closed set of events the render loop consumes: frame ticks,
//! decoded keyboard input, and semantic events pushed by the hosting
//! application.

use crate::rect::Rect;
use vstd::prelude::*;

verus! {

/// A keyboard key, as the embedding application decodes it from the
/// terminal; keys the dashboard does not react to arrive as `Other`.
#[derive(Clone, Copy, PartialEq, Eq, Structural, Debug)]
pub enum Key {
    /// The escape key.
    Esc,
    /// A printable character.
    Char(char),
    /// A character pressed together with control.
    Ctrl(char),
    /// Any other key.
    Other,
}

/// A line of the information sidebar, as supplied by the host.
pub enum Line {
    /// A section header.
    Title(String),
    /// A line of content.
    Text(String),
}

/// The mathematical value of a [`Line`].
pub ghost struct LineV {
    /// Whether the line is a section header rather than content.
    pub heading: bool,
    /// The characters of the line.
    pub text: Seq<char>,
}

impl View for Line {
    type V = LineV;

    open spec fn view(&self) -> LineV {
        match self {
            Line::Title(t) => LineV { heading: true, text: t@ },
            Line::Text(t) => LineV { heading: false, text: t@ },
        }
    }
}

/// The values of a sequence of sidebar lines, in the same order.
pub open spec fn lines_view(s: Seq<Line>) -> Seq<LineV> {
    s.map_values(|l: Line| l@)
}

/// One item of the merged stream the render loop consumes.
pub enum Event {
    /// Draw a frame.
    Tick,
    /// A key the user pressed.
    Input(Key),
    /// Use the given rectangle as the window size from now on.
    SetWindowSize(Rect),
    /// Replace the dashboard title.
    SetTitle(String),
    /// Replace the information sidebar's lines.
    SetInformation(Vec<Line>),
}

} // verus!

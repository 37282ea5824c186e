//! A terminal dashboard core for visualizing many concurrently running,
//! nested units of work: a tree of task titles paired with progress
//! indicators, plus a bounded message log, rendered into an addressable
//! two-dimensional cell buffer.
//!
//! The crate holds the logic of that dashboard: the progress tree and its
//! sorted snapshots, the message ring, the render-state reducer that turns
//! keyboard and host events into state changes, and the draw pipeline that
//! turns a snapshot into cell-buffer writes. Terminal setup, raw-mode
//! switching and the event loop around it are left to the embedding
//! application, which feeds plain events in and presents the cell buffer.

pub mod buffer;
pub mod draw;
pub mod event;
pub mod key;
pub mod messages;
pub mod progress;
pub mod rect;
pub mod state;
pub mod text;
pub mod tree;

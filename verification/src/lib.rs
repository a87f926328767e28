//! The text engine of a code editor.
//!
//! A document keeps its text in a store, either the rope of this crate or
//! the rope of the `ropey` crate, together with an index of where each line
//! starts and ends. A registry owns the documents and mints their ids. A
//! frame shows a document through a fixed number of slots, one for each line
//! in view, and reuses what stays in view when it scrolls.

pub mod engine;
pub mod geometry;
pub mod renderer;
pub mod ui;

//! Text layout engine for a fixed-size terminal input widget, together with
//! the small data types of a todo-list application built around it.
//!
//! The engine takes an ASCII text buffer and a `width x height` rectangle and
//! produces at most `height` physical lines of at most `width` characters
//! each, wrapping at word boundaries, hard-splitting tokens wider than a line,
//! and truncating visibly on the final line instead of overflowing.  A second
//! entry point maps an absolute character offset in the buffer to the grid
//! cell the text cursor should occupy after wrapping.

#![verifier::loop_isolation(false)]

pub mod cursor;
pub mod items;
pub mod lines;
pub mod tokens;
pub mod widget;
pub mod wrap;

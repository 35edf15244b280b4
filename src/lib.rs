//! A small TODO-list library: an ordered store of tasks keyed by an
//! increasing integer id, a line-oriented text format that persists it, and
//! the decisions of the interactive prompt that drives them.
pub mod codec;
pub mod session;
pub mod terminal;
pub mod todo;
pub mod todos;

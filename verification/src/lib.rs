//! Core logic of a terminal to-do list whose items form a shallow tree:
//! ordering, nesting, completion propagation, selection, key bindings and
//! text layout. Persistence and the terminal front end live outside this crate.

pub mod todo;
pub mod outline;
pub mod reorder;
pub mod listing;
pub mod plans;
pub mod nesting;
pub mod error;
pub mod text;
pub mod projects;
pub mod undo;
pub mod keys;
pub mod popup;
pub mod wrap;
pub mod dates;
pub mod clipboard;
pub mod display;

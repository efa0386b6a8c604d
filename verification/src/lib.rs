//! Folders of nested to-do tasks, with the editing rules of a keyboard-driven
//! task manager.

pub mod model;
pub mod tree;
pub mod text;
pub mod state;
pub mod keys;

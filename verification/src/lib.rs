//! A small task-list manager core: tasks with a title, a body and an urgency
//! level, an ordered task list, a canonical line encoding for persistence,
//! and the command logic that adds, removes and lists tasks.
//!
//! All file and terminal handling lives outside this crate; the library works
//! on plain values and states what it does in its contracts.

pub mod codec;
pub mod command;
pub mod render;
pub mod task;

//! A verified to-do list library: an in-memory task list, the delimited
//! text format it is persisted in, and the operations a session dispatches
//! on it (add, list, complete, remove).

pub mod codec;
pub mod numerals;
pub mod session;
pub mod task;

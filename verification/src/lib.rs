//! A small task tracker: tasks with a name, a status and timestamps, kept in
//! a collection with a monotonically increasing id counter, persisted as a
//! canonical JSON document.

pub mod time;
pub mod task;
pub mod ops;
pub mod codec;
pub mod laws;

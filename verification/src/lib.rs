//! An in-memory task list: tasks with identifiers, creation times and an
//! edit history, kept in a store that supports create, get, update with
//! history capture, remove and list.
//!
//! An update edits the slot in place: it keeps the task's identifier and
//! creation time, replaces only the text, and appends the replaced version
//! to the history. Identifiers are never reused, even after a remove. The
//! store grows without bound: nothing here evicts tasks or trims
//! histories, which fits a single interactive session and no more.

pub mod task;
pub mod store;
pub mod laws;

//! Use-case operations: pure domain functions over the stores and the ID
//! pool. They contain no locking and no I/O; the coordinator applies them
//! atomically.

pub mod add;
pub mod add_id;
pub mod add_tag;
pub mod clean;
pub mod complete_id;
pub mod get;
pub mod plan;
pub mod remove;
pub mod remove_id;
pub mod remove_tag;
pub mod select;
pub mod set_priority;
pub mod transfer;

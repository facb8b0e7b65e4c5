//! A verified task-tracker core: a digit trie over live numeric IDs with
//! prefix completion, keyed item stores with filtered selection, and a
//! lock-protected coordinator that applies use-case operations atomically.

pub mod item;
pub mod law;
pub mod priority;
pub mod repository;
pub mod store;
pub mod tag;
pub mod trie;
pub mod usecase;

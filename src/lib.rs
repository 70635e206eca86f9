//! A reactive rendering runtime: signals, a batched update scheduler, dynamic
//! child groups, change tracking containers and hydration of existing markup.
//!
//! The live document is modelled by plain values, so every decision the runtime
//! takes is stated and proved here. Performing the resulting mutations on a real
//! document is left to the embedding program.
mod capacity;
mod stats;
pub mod hydration;
pub mod tree;
pub mod containers;
pub mod child_groups;
pub mod signal;
pub mod dom;
pub mod mount;
pub mod scheduler;

pub use stats::{Diff, HydrationStats};

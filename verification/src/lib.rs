//! Sequence differencing after Paul Heckel's "A technique for isolating
//! differences between files" (1978).
//!
//! [`diff`] compares two slices and returns the patches that lead from the
//! first to the second: deletions, creations, moves and updates. What it
//! returns is stated by [`model::difference`], a function on mathematical
//! sequences, and the module [`laws`] proves what follows from that
//! statement.

pub mod patch;
pub mod model;
pub mod counting;
pub mod emit;
pub mod extend;
pub mod table;
pub mod laws;
pub mod diff;

pub use crate::diff::diff;
pub use crate::emit::pass6;
pub use crate::extend::{pass4, pass5};
pub use crate::patch::Difference;
pub use crate::patch::Patch;
pub use crate::patch::Patch::{Create, Delete, Move, Update};
pub use crate::table::{pass1, pass2, pass3, TableEntry};

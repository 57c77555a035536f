//! The patches that a comparison yields.

use vstd::prelude::*;

verus! {

/// One step from the old sequence to the new one. Every index is a position
/// in one of the two sequences as they were handed in.
#[derive(Debug, PartialEq, Eq, Structural, Clone, Copy)]
pub enum Patch {
    /// The element at this position of the new sequence has no counterpart
    /// in the old one.
    Create(usize),
    /// The element at this position of the new sequence is paired with an
    /// old element of different content.
    Update(usize),
    /// The element at the first position of the old sequence stands at the
    /// second position of the new one, which is not where the deletions and
    /// creations before it would have put it.
    Move(usize, usize),
    /// The element at this position of the old sequence has no counterpart
    /// in the new one.
    Delete(usize),
}

/// The patches between two sequences, in the order in which they are meant
/// to be read: deletions first, then the rest by position in the new
/// sequence.
pub type Difference = Vec<Patch>;

} // verus!

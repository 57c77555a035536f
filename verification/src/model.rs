//! The mathematical model: what the comparison of two sequences is, stated
//! on `Seq` without any executable code.

use vstd::prelude::*;
use crate::patch::Patch;

verus! {

/// The two correspondence arrays. `old_to_new[j]` is the position in the new
/// sequence that old position `j` is paired with, `new_to_old[i]` the
/// position in the old sequence that new position `i` is paired with.
pub struct Matching {
    pub old_to_new: Seq<Option<usize>>,
    pub new_to_old: Seq<Option<usize>>,
}

impl Matching {
    /// The matching with the given correspondence arrays.
    pub open spec fn of(old_to_new: Seq<Option<usize>>, new_to_old: Seq<Option<usize>>) -> Matching {
        Matching { old_to_new, new_to_old }
    }

    /// The correspondence arrays have the lengths of the two sequences, and
    /// every position of either can be written as a `usize`.
    pub open spec fn fits<T>(self, old: Seq<T>, new: Seq<T>) -> bool {
        &&& self.old_to_new.len() == old.len() <= usize::MAX
        &&& self.new_to_old.len() == new.len() <= usize::MAX
    }

    /// Every slot of `new_to_old` that is set names a position of the old
    /// sequence.
    pub open spec fn in_range(self) -> bool {
        forall|i: int|
            0 <= i < self.new_to_old.len() ==> (#[trigger] self.new_to_old[i] matches Some(j) ==> j
                < self.old_to_new.len())
    }

    /// Every pair stored under a new position is stored under its old
    /// position too, and the other way round; no slot points outside the
    /// other array.
    pub open spec fn symmetric(self) -> bool {
        &&& forall|i: int|
            0 <= i < self.new_to_old.len() ==> (#[trigger] self.new_to_old[i] matches Some(j)
                ==> j < self.old_to_new.len() && self.old_to_new[j as int] == Some(i as usize))
        &&& forall|j: int|
            0 <= j < self.old_to_new.len() ==> (#[trigger] self.old_to_new[j] matches Some(i)
                ==> i < self.new_to_old.len() && self.new_to_old[i as int] == Some(j as usize))
    }

    /// New position `i` and old position `j` become a pair.
    pub open spec fn pair(self, j: int, i: int) -> Matching {
        Matching {
            old_to_new: self.old_to_new.update(j, Some(i as usize)),
            new_to_old: self.new_to_old.update(i, Some(j as usize)),
        }
    }
}

/// How often `x` occurs in `s`.
pub open spec fn occurrences<T>(s: Seq<T>, x: T) -> nat
    decreases s.len(),
{
    if s.len() == 0 {
        0
    } else {
        occurrences(s.drop_last(), x) + if s.last() == x { 1nat } else { 0nat }
    }
}

/// The last position at which `x` occurs in `s`; 0 where it does not occur.
pub open spec fn last_position<T>(s: Seq<T>, x: T) -> nat
    decreases s.len(),
{
    if s.len() == 0 {
        0
    } else if s.last() == x {
        (s.len() - 1) as nat
    } else {
        last_position(s.drop_last(), x)
    }
}

/// Whether `x` occurs exactly once in each of the two sequences.
pub open spec fn occurs_once_in_each<T>(old: Seq<T>, new: Seq<T>, x: T) -> bool {
    occurrences(new, x) == 1 && occurrences(old, x) == 1
}

/// The matching of no pairs at all.
pub open spec fn unpaired<T>(old: Seq<T>, new: Seq<T>) -> Matching {
    Matching {
        old_to_new: Seq::new(old.len(), |j: int| None),
        new_to_old: Seq::new(new.len(), |i: int| None),
    }
}

/// The matching that pairs the two positions of every element that occurs
/// exactly once in each sequence, and nothing else.
pub open spec fn anchors<T>(old: Seq<T>, new: Seq<T>) -> Matching {
    Matching {
        old_to_new: Seq::new(
            old.len(),
            |j: int|
                if occurs_once_in_each(old, new, old[j]) {
                    Some(last_position(new, old[j]) as usize)
                } else {
                    None
                },
        ),
        new_to_old: Seq::new(
            new.len(),
            |i: int|
                if occurs_once_in_each(old, new, new[i]) {
                    Some(last_position(old, new[i]) as usize)
                } else {
                    None
                },
        ),
    }
}

/// The forward step at new position `i`: where `i` is paired with `j`, both
/// successors exist and are unpaired, and their elements are equal, the
/// successors become a pair.
pub open spec fn forward_step<T>(old: Seq<T>, new: Seq<T>, m: Matching, i: int) -> Matching {
    match m.new_to_old[i] {
        Some(j) => if j + 1 < old.len() && m.new_to_old[i + 1] is None && m.old_to_new[j + 1] is None
            && new[i + 1] == old[j + 1] {
            m.pair(j + 1, i + 1)
        } else {
            m
        },
        None => m,
    }
}

/// The matching after the forward steps at the new positions `0` up to
/// `k - 1`, taken in ascending order, so that a pair made at one position is
/// seen at the next.
pub open spec fn extended_forward<T>(old: Seq<T>, new: Seq<T>, m: Matching, k: int) -> Matching
    decreases k,
{
    if k <= 0 {
        m
    } else {
        forward_step(old, new, extended_forward(old, new, m, k - 1), k - 1)
    }
}

/// The backward step at new position `i`: where `i` is paired with `j`, both
/// predecessors exist and are unpaired, and their elements are equal, the
/// predecessors become a pair.
pub open spec fn backward_step<T>(old: Seq<T>, new: Seq<T>, m: Matching, i: int) -> Matching {
    match m.new_to_old[i] {
        Some(j) => if j > 0 && m.new_to_old[i - 1] is None && m.old_to_new[j - 1] is None
            && new[i - 1] == old[j - 1] {
            m.pair(j - 1, i - 1)
        } else {
            m
        },
        None => m,
    }
}

/// The matching after the backward steps at the new positions from the last
/// one down to `k`, taken in descending order.
pub open spec fn extended_backward<T>(old: Seq<T>, new: Seq<T>, m: Matching, k: int) -> Matching
    decreases new.len() - k,
{
    if k >= new.len() {
        m
    } else {
        backward_step(old, new, extended_backward(old, new, m, k + 1), k)
    }
}

/// The finished matching of two sequences: the anchors, extended forward
/// from every new position but the last, then extended backward from every
/// new position but the first.
pub open spec fn matching<T>(old: Seq<T>, new: Seq<T>) -> Matching {
    extended_backward(old, new, extended_forward(old, new, anchors(old, new), new.len() - 1), 1)
}

/// How many of the first `k` slots of a correspondence array are unpaired.
pub open spec fn unpaired_before(slots: Seq<Option<usize>>, k: int) -> nat
    decreases k,
{
    if k <= 0 {
        0
    } else {
        unpaired_before(slots, k - 1) + if slots[k - 1] is None { 1nat } else { 0nat }
    }
}

/// One `Delete` for each unpaired slot among the first `k` old positions, in
/// ascending order.
pub open spec fn deletions(old_to_new: Seq<Option<usize>>, k: int) -> Seq<Patch>
    decreases k,
{
    if k <= 0 {
        Seq::empty()
    } else if old_to_new[k - 1] is None {
        deletions(old_to_new, k - 1).push(Patch::Delete((k - 1) as usize))
    } else {
        deletions(old_to_new, k - 1)
    }
}

/// Where the old element at `j` would stand in the new sequence if nothing
/// had happened but the deletions before `j` and the creations before new
/// position `i`.
pub open spec fn expected_position(m: Matching, j: int, i: int) -> int {
    j + unpaired_before(m.new_to_old, i) - unpaired_before(m.old_to_new, j)
}

/// The patches for new position `i`: a `Create` where it is unpaired;
/// otherwise an `Update` if the paired elements differ, followed by a `Move`
/// if the old element is not at its expected position.
pub open spec fn changes_at<T>(old: Seq<T>, new: Seq<T>, m: Matching, i: int) -> Seq<Patch> {
    match m.new_to_old[i] {
        None => seq![Patch::Create(i as usize)],
        Some(j) => {
            let update = if old[j as int] != new[i] {
                seq![Patch::Update(i as usize)]
            } else {
                Seq::empty()
            };
            let relocation = if expected_position(m, j as int, i) != i {
                seq![Patch::Move(j, i as usize)]
            } else {
                Seq::empty()
            };
            update + relocation
        },
    }
}

/// The patches for the first `k` new positions, in ascending order.
pub open spec fn changes<T>(old: Seq<T>, new: Seq<T>, m: Matching, k: int) -> Seq<Patch>
    decreases k,
{
    if k <= 0 {
        Seq::empty()
    } else {
        changes(old, new, m, k - 1) + changes_at(old, new, m, k - 1)
    }
}

/// The patches that a finished matching stands for: every deletion, then the
/// changes of every new position.
pub open spec fn emitted<T>(old: Seq<T>, new: Seq<T>, m: Matching) -> Seq<Patch> {
    deletions(m.old_to_new, old.len() as int) + changes(old, new, m, new.len() as int)
}

/// The patches from `old` to `new`.
pub open spec fn difference<T>(old: Seq<T>, new: Seq<T>) -> Seq<Patch> {
    emitted(old, new, matching(old, new))
}

} // verus!

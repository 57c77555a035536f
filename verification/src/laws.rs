//! What holds of every comparison.

use vstd::prelude::*;
use crate::counting::{lemma_last_position, lemma_occurrences_bounds, lemma_only_position};
use crate::extend::{lemma_backward_step_keeps, lemma_forward_step_keeps};
use crate::model::{
    anchors, changes, deletions, difference, emitted, extended_backward, extended_forward,
    matching, occurrences, occurs_once_in_each, unpaired_before, Matching,
};
use crate::patch::Patch;

verus! {

/// The anchors of two sequences are a symmetric matching: the element that
/// pairs a new position with an old one pairs the old one with the new one.
pub proof fn lemma_anchors_symmetric<T>(old: Seq<T>, new: Seq<T>)
    requires
        old.len() <= usize::MAX,
        new.len() <= usize::MAX,
    ensures
        anchors(old, new).fits(old, new),
        anchors(old, new).symmetric(),
{
    let m = anchors(old, new);
    assert forall|i: int| 0 <= i < m.new_to_old.len() implies (#[trigger] m.new_to_old[i] matches Some(j)
        ==> j < m.old_to_new.len() && m.old_to_new[j as int] == Some(i as usize)) by {
        let x = new[i];
        if occurs_once_in_each(old, new, x) {
            lemma_occurrences_bounds(old, x);
            lemma_last_position(old, x);
            lemma_only_position(new, x, i);
        }
    }
    assert forall|j: int| 0 <= j < m.old_to_new.len() implies (#[trigger] m.old_to_new[j] matches Some(i)
        ==> i < m.new_to_old.len() && m.new_to_old[i as int] == Some(j as usize)) by {
        let x = old[j];
        if occurs_once_in_each(old, new, x) {
            lemma_occurrences_bounds(new, x);
            lemma_last_position(new, x);
            lemma_only_position(old, x, j);
        }
    }
}

/// Extending a symmetric matching forward, however far, leaves it symmetric.
pub proof fn lemma_extended_forward_symmetric<T>(old: Seq<T>, new: Seq<T>, m: Matching, k: int)
    requires
        m.fits(old, new),
        m.symmetric(),
        k <= new.len() - 1,
    ensures
        extended_forward(old, new, m, k).fits(old, new),
        extended_forward(old, new, m, k).symmetric(),
    decreases k,
{
    if k > 0 {
        lemma_extended_forward_symmetric(old, new, m, k - 1);
        lemma_forward_step_keeps(old, new, extended_forward(old, new, m, k - 1), k - 1);
    }
}

/// Extending a symmetric matching backward, however far, leaves it
/// symmetric.
pub proof fn lemma_extended_backward_symmetric<T>(old: Seq<T>, new: Seq<T>, m: Matching, k: int)
    requires
        m.fits(old, new),
        m.symmetric(),
        1 <= k,
    ensures
        extended_backward(old, new, m, k).fits(old, new),
        extended_backward(old, new, m, k).symmetric(),
    decreases new.len() - k,
{
    if k < new.len() {
        lemma_extended_backward_symmetric(old, new, m, k + 1);
        lemma_backward_step_keeps(old, new, extended_backward(old, new, m, k + 1), k);
    }
}

/// The finished matching of two sequences is symmetric: where new position
/// `i` is paired with old position `j`, `j` is paired with `i`.
pub proof fn lemma_matching_symmetric<T>(old: Seq<T>, new: Seq<T>)
    requires
        old.len() <= usize::MAX,
        new.len() <= usize::MAX,
    ensures
        matching(old, new).fits(old, new),
        matching(old, new).symmetric(),
{
    lemma_anchors_symmetric(old, new);
    lemma_extended_forward_symmetric(old, new, anchors(old, new), new.len() - 1);
    lemma_extended_backward_symmetric(
        old,
        new,
        extended_forward(old, new, anchors(old, new), new.len() - 1),
        1,
    );
}

/// The deletions hold nothing but `Delete` patches.
proof fn lemma_deletions_only_delete(old_to_new: Seq<Option<usize>>, k: int)
    ensures
        forall|a: int| 0 <= a < deletions(old_to_new, k).len() ==> #[trigger] deletions(old_to_new, k)[a] is Delete,
    decreases k,
{
    if k > 0 {
        lemma_deletions_only_delete(old_to_new, k - 1);
    }
}

/// The changes hold no `Delete` patch.
proof fn lemma_changes_never_delete<T>(old: Seq<T>, new: Seq<T>, m: Matching, k: int)
    ensures
        forall|a: int| 0 <= a < changes(old, new, m, k).len() ==> !(#[trigger] changes(old, new, m, k)[a] is Delete),
    decreases k,
{
    if k > 0 {
        lemma_changes_never_delete(old, new, m, k - 1);
    }
}

/// Whatever the matching, every `Delete` patch stands before every patch of
/// another kind.
pub proof fn lemma_emitted_deletions_first<T>(old: Seq<T>, new: Seq<T>, m: Matching)
    ensures
        forall|a: int, b: int|
            0 <= a < b < emitted(old, new, m).len() && #[trigger] emitted(old, new, m)[b] is Delete
                ==> #[trigger] emitted(old, new, m)[a] is Delete,
{
    lemma_deletions_only_delete(m.old_to_new, old.len() as int);
    lemma_changes_never_delete(old, new, m, new.len() as int);
}

/// In the difference of two sequences every `Delete` patch stands before
/// every `Create`, `Update` and `Move` patch.
pub proof fn lemma_deletions_first<T>(old: Seq<T>, new: Seq<T>)
    ensures
        forall|a: int, b: int|
            0 <= a < b < difference(old, new).len() && #[trigger] difference(old, new)[b] is Delete
                ==> #[trigger] difference(old, new)[a] is Delete,
{
    lemma_emitted_deletions_first(old, new, matching(old, new));
}

/// A matching without a pair among the new positions stays as it is when it
/// is extended forward.
proof fn lemma_extended_forward_without_pairs<T>(old: Seq<T>, new: Seq<T>, m: Matching, k: int)
    requires
        forall|i: int| 0 <= i < k ==> #[trigger] m.new_to_old[i] is None,
    ensures
        extended_forward(old, new, m, k) == m,
    decreases k,
{
    if k > 0 {
        lemma_extended_forward_without_pairs(old, new, m, k - 1);
    }
}

/// A matching without a pair among the new positions stays as it is when it
/// is extended backward.
proof fn lemma_extended_backward_without_pairs<T>(old: Seq<T>, new: Seq<T>, m: Matching, k: int)
    requires
        forall|i: int| k <= i < new.len() ==> #[trigger] m.new_to_old[i] is None,
    ensures
        extended_backward(old, new, m, k) == m,
    decreases new.len() - k,
{
    if k < new.len() {
        lemma_extended_backward_without_pairs(old, new, m, k + 1);
    }
}

/// Where none of the first `k` old positions is paired, each of them is
/// deleted.
proof fn lemma_deletions_without_pairs(old_to_new: Seq<Option<usize>>, k: int)
    requires
        0 <= k,
        forall|j: int| 0 <= j < k ==> #[trigger] old_to_new[j] is None,
    ensures
        deletions(old_to_new, k) == Seq::new(k as nat, |j: int| Patch::Delete(j as usize)),
    decreases k,
{
    if k > 0 {
        lemma_deletions_without_pairs(old_to_new, k - 1);
    }
}

/// Where none of the first `k` new positions is paired, each of them is
/// created.
proof fn lemma_changes_without_pairs<T>(old: Seq<T>, new: Seq<T>, m: Matching, k: int)
    requires
        0 <= k,
        forall|i: int| 0 <= i < k ==> #[trigger] m.new_to_old[i] is None,
    ensures
        changes(old, new, m, k) == Seq::new(k as nat, |i: int| Patch::Create(i as usize)),
    decreases k,
{
    if k > 0 {
        lemma_changes_without_pairs(old, new, m, k - 1);
    }
}

/// Where no element of the new sequence occurs exactly once in each
/// sequence, the difference deletes every old position and creates every new
/// one.
pub proof fn lemma_difference_without_anchors<T>(old: Seq<T>, new: Seq<T>)
    requires
        forall|i: int| 0 <= i < new.len() ==> !occurs_once_in_each(old, new, #[trigger] new[i]),
    ensures
        difference(old, new) == Seq::new(old.len(), |j: int| Patch::Delete(j as usize)) + Seq::new(
            new.len(),
            |i: int| Patch::Create(i as usize),
        ),
{
    let m = anchors(old, new);
    assert forall|j: int| 0 <= j < old.len() implies #[trigger] m.old_to_new[j] is None by {
        let x = old[j];
        if occurs_once_in_each(old, new, x) {
            lemma_occurrences_bounds(new, x);
            let i = choose|i: int| 0 <= i < new.len() && new[i] == x;
            assert(!occurs_once_in_each(old, new, new[i]));
        }
    }
    assert forall|i: int| 0 <= i < new.len() implies #[trigger] m.new_to_old[i] is None by {
        assert(!occurs_once_in_each(old, new, new[i]));
    }
    lemma_extended_forward_without_pairs(old, new, m, new.len() - 1);
    lemma_extended_backward_without_pairs(old, new, m, 1);
    lemma_deletions_without_pairs(m.old_to_new, old.len() as int);
    lemma_changes_without_pairs(old, new, m, new.len() as int);
}

/// From nothing to `new`, the difference creates every position of `new`,
/// in ascending order, and does nothing else.
pub proof fn lemma_pure_creation<T>(new: Seq<T>)
    ensures
        difference(Seq::<T>::empty(), new) == Seq::new(new.len(), |i: int| Patch::Create(i as usize)),
{
    let old = Seq::<T>::empty();
    assert forall|i: int| 0 <= i < new.len() implies !occurs_once_in_each(old, new, #[trigger] new[i]) by {
        assert(occurrences(old, new[i]) == 0);
    }
    lemma_difference_without_anchors(old, new);
}

/// From `old` to nothing, the difference deletes every position of `old`,
/// in ascending order, and does nothing else.
pub proof fn lemma_pure_deletion<T>(old: Seq<T>)
    ensures
        difference(old, Seq::<T>::empty()) == Seq::new(old.len(), |j: int| Patch::Delete(j as usize)),
{
    let new = Seq::<T>::empty();
    lemma_difference_without_anchors(old, new);
}

/// Both arrays of the matching are the same, and whatever is paired is
/// paired with itself.
spec fn diagonal(m: Matching) -> bool {
    &&& m.old_to_new == m.new_to_old
    &&& forall|i: int|
        0 <= i < m.new_to_old.len() ==> (#[trigger] m.new_to_old[i] matches Some(j) ==> j == i)
}

/// Between a sequence and itself, extending forward keeps a diagonal
/// matching diagonal and pairs every position from a paired one up to `k`.
proof fn lemma_identity_forward<T>(s: Seq<T>, m: Matching, a: int, k: int)
    requires
        m.fits(s, s),
        diagonal(m),
        0 <= a < s.len(),
        m.new_to_old[a] is Some,
        0 <= k <= s.len() - 1,
    ensures
        extended_forward(s, s, m, k).fits(s, s),
        diagonal(extended_forward(s, s, m, k)),
        extended_forward(s, s, m, k).new_to_old[a] is Some,
        forall|i: int| a <= i <= k ==> #[trigger] extended_forward(s, s, m, k).new_to_old[i] is Some,
    decreases k,
{
    if k > 0 {
        lemma_identity_forward(s, m, a, k - 1);
    }
}

/// Between a sequence and itself, extending backward keeps a diagonal
/// matching diagonal and pairs every position from `k - 1` on, if every
/// position from `a` on is paired.
proof fn lemma_identity_backward<T>(s: Seq<T>, m: Matching, a: int, k: int)
    requires
        m.fits(s, s),
        diagonal(m),
        0 <= a < s.len(),
        forall|i: int| a <= i < s.len() ==> #[trigger] m.new_to_old[i] is Some,
        1 <= k <= s.len(),
    ensures
        extended_backward(s, s, m, k).fits(s, s),
        diagonal(extended_backward(s, s, m, k)),
        forall|i: int|
            a <= i < s.len() || k - 1 <= i < s.len() ==> #[trigger] extended_backward(
                s,
                s,
                m,
                k,
            ).new_to_old[i] is Some,
    decreases s.len() - k,
{
    if k < s.len() {
        lemma_identity_backward(s, m, a, k + 1);
    }
}

/// A diagonal matching that pairs every position stands for no patch.
proof fn lemma_emitted_diagonal<T>(s: Seq<T>, m: Matching)
    requires
        m.fits(s, s),
        diagonal(m),
        forall|i: int| 0 <= i < s.len() ==> #[trigger] m.new_to_old[i] is Some,
    ensures
        emitted(s, s, m) == Seq::<Patch>::empty(),
{
    lemma_quiet_prefix(s, m, s.len() as int);
}

/// A diagonal matching that pairs each of the first `k` positions leaves
/// them without a deletion, an unpaired slot or a change.
proof fn lemma_quiet_prefix<T>(s: Seq<T>, m: Matching, k: int)
    requires
        m.fits(s, s),
        diagonal(m),
        0 <= k <= s.len(),
        forall|i: int| 0 <= i < k ==> #[trigger] m.new_to_old[i] is Some,
    ensures
        unpaired_before(m.new_to_old, k) == 0,
        unpaired_before(m.old_to_new, k) == 0,
        deletions(m.old_to_new, k) == Seq::<Patch>::empty(),
        changes(s, s, m, k) == Seq::<Patch>::empty(),
    decreases k,
{
    if k > 0 {
        lemma_quiet_prefix(s, m, k - 1);
    }
}

/// The difference between a sequence and itself is empty, if the sequence
/// is empty or holds an element that occurs in it exactly once.
pub proof fn lemma_identity<T>(s: Seq<T>)
    requires
        s.len() <= usize::MAX,
        s.len() == 0 || exists|a: int| 0 <= a < s.len() && occurrences(s, #[trigger] s[a]) == 1,
    ensures
        difference(s, s) == Seq::<Patch>::empty(),
{
    if s.len() == 0 {
        lemma_pure_creation(s);
    } else {
        let a = choose|a: int| 0 <= a < s.len() && occurrences(s, #[trigger] s[a]) == 1;
        let m = anchors(s, s);
        assert forall|i: int| 0 <= i < s.len() implies (#[trigger] m.new_to_old[i] matches Some(j) ==> j
            == i) by {
            if occurs_once_in_each(s, s, s[i]) {
                lemma_only_position(s, s[i], i);
            }
        }
        lemma_identity_forward(s, m, a, s.len() - 1);
        let f = extended_forward(s, s, m, s.len() - 1);
        lemma_identity_backward(s, f, a, 1);
        lemma_emitted_diagonal(s, matching(s, s));
    }
}

/// The difference between a sequence and itself is not empty where the
/// sequence holds elements and each of them more than once: every position
/// is deleted and created again.
pub proof fn lemma_identity_without_anchor<T>(s: Seq<T>)
    requires
        forall|a: int| 0 <= a < s.len() ==> occurrences(s, #[trigger] s[a]) != 1,
    ensures
        difference(s, s) == Seq::new(s.len(), |j: int| Patch::Delete(j as usize)) + Seq::new(
            s.len(),
            |i: int| Patch::Create(i as usize),
        ),
{
    lemma_difference_without_anchors(s, s);
}

/// Whatever the matching pairs is a pair of equal elements.
pub open spec fn joins_equals<T>(m: Matching, old: Seq<T>, new: Seq<T>) -> bool {
    forall|i: int|
        0 <= i < m.new_to_old.len() ==> (#[trigger] m.new_to_old[i] matches Some(j) ==> old[j as int]
            == new[i])
}

/// Extending forward pairs equal elements only.
proof fn lemma_extended_forward_joins_equals<T>(old: Seq<T>, new: Seq<T>, m: Matching, k: int)
    requires
        m.fits(old, new),
        m.in_range(),
        joins_equals(m, old, new),
        k <= new.len() - 1,
    ensures
        extended_forward(old, new, m, k).fits(old, new),
        extended_forward(old, new, m, k).in_range(),
        joins_equals(extended_forward(old, new, m, k), old, new),
    decreases k,
{
    if k > 0 {
        lemma_extended_forward_joins_equals(old, new, m, k - 1);
        lemma_forward_step_keeps(old, new, extended_forward(old, new, m, k - 1), k - 1);
    }
}

/// Extending backward pairs equal elements only.
proof fn lemma_extended_backward_joins_equals<T>(old: Seq<T>, new: Seq<T>, m: Matching, k: int)
    requires
        m.fits(old, new),
        m.in_range(),
        joins_equals(m, old, new),
        1 <= k,
    ensures
        extended_backward(old, new, m, k).fits(old, new),
        extended_backward(old, new, m, k).in_range(),
        joins_equals(extended_backward(old, new, m, k), old, new),
    decreases new.len() - k,
{
    if k < new.len() {
        lemma_extended_backward_joins_equals(old, new, m, k + 1);
        lemma_backward_step_keeps(old, new, extended_backward(old, new, m, k + 1), k);
    }
}

/// The finished matching of two sequences pairs equal elements only.
pub proof fn lemma_matching_joins_equals<T>(old: Seq<T>, new: Seq<T>)
    requires
        old.len() <= usize::MAX,
        new.len() <= usize::MAX,
    ensures
        joins_equals(matching(old, new), old, new),
{
    let a = anchors(old, new);
    lemma_anchors_symmetric(old, new);
    assert forall|i: int| 0 <= i < a.new_to_old.len() implies (#[trigger] a.new_to_old[i] matches Some(j)
        ==> old[j as int] == new[i]) by {
        if occurs_once_in_each(old, new, new[i]) {
            lemma_occurrences_bounds(old, new[i]);
            lemma_last_position(old, new[i]);
        }
    }
    lemma_extended_forward_joins_equals(old, new, a, new.len() - 1);
    lemma_extended_backward_joins_equals(old, new, extended_forward(old, new, a, new.len() - 1), 1);
}

/// A matching that pairs equal elements only stands for no `Update` among
/// the changes of the first `k` new positions.
proof fn lemma_changes_never_update<T>(old: Seq<T>, new: Seq<T>, m: Matching, k: int)
    requires
        joins_equals(m, old, new),
        k <= m.new_to_old.len(),
    ensures
        forall|a: int| 0 <= a < changes(old, new, m, k).len() ==> !(#[trigger] changes(old, new, m, k)[a] is Update),
    decreases k,
{
    if k > 0 {
        lemma_changes_never_update(old, new, m, k - 1);
    }
}

/// The difference of two sequences holds no `Update`: what is paired is
/// equal, so no pair has changed its content.
pub proof fn lemma_difference_never_updates<T>(old: Seq<T>, new: Seq<T>)
    requires
        old.len() <= usize::MAX,
        new.len() <= usize::MAX,
    ensures
        forall|a: int| 0 <= a < difference(old, new).len() ==> !(#[trigger] difference(old, new)[a] is Update),
{
    let m = matching(old, new);
    lemma_matching_symmetric(old, new);
    lemma_matching_joins_equals(old, new);
    lemma_deletions_only_delete(m.old_to_new, old.len() as int);
    lemma_changes_never_update(old, new, m, new.len() as int);
}

} // verus!

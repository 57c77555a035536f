//! The two passes that grow the matching along runs of equal neighbours.

use vstd::prelude::*;
use vstd::laws_eq::obeys_concrete_eq;
use crate::model::{backward_step, extended_backward, extended_forward, forward_step, Matching};

verus! {

/// A forward step keeps the arrays' lengths, keeps every slot in range, and
/// keeps a symmetric matching symmetric.
pub proof fn lemma_forward_step_keeps<T>(old: Seq<T>, new: Seq<T>, m: Matching, i: int)
    requires
        m.fits(old, new),
        m.in_range(),
        0 <= i < new.len() - 1,
    ensures
        forward_step(old, new, m, i).fits(old, new),
        forward_step(old, new, m, i).in_range(),
        m.symmetric() ==> forward_step(old, new, m, i).symmetric(),
{
}

/// A backward step keeps the arrays' lengths, keeps every slot in range, and
/// keeps a symmetric matching symmetric.
pub proof fn lemma_backward_step_keeps<T>(old: Seq<T>, new: Seq<T>, m: Matching, i: int)
    requires
        m.fits(old, new),
        m.in_range(),
        1 <= i < new.len(),
    ensures
        backward_step(old, new, m, i).fits(old, new),
        backward_step(old, new, m, i).in_range(),
        m.symmetric() ==> backward_step(old, new, m, i).symmetric(),
{
}

/// Extends every pair forward: in ascending order of the new position, a
/// pair whose successors are unpaired and equal makes them a pair, so that
/// one pair can carry a whole run of equal neighbours in a single sweep.
pub fn pass4<T: Eq>(
    old_seq: &[T],
    new_seq: &[T],
    oa: &mut Vec<Option<usize>>,
    na: &mut Vec<Option<usize>>,
)
    requires
        obeys_concrete_eq::<T>(),
        Matching::of(old(oa)@, old(na)@).fits(old_seq@, new_seq@),
        Matching::of(old(oa)@, old(na)@).in_range(),
    ensures
        Matching::of(final(oa)@, final(na)@) == extended_forward(
            old_seq@,
            new_seq@,
            Matching::of(old(oa)@, old(na)@),
            new_seq.len() - 1,
        ),
        Matching::of(final(oa)@, final(na)@).fits(old_seq@, new_seq@),
        Matching::of(final(oa)@, final(na)@).in_range(),
        Matching::of(old(oa)@, old(na)@).symmetric() ==> Matching::of(
            final(oa)@,
            final(na)@,
        ).symmetric(),
{
    if na.is_empty() {
        return;
    }
    let ghost start = Matching::of(oa@, na@);
    let last: usize = na.len() - 1;

    for i in 0..last
        invariant
            obeys_concrete_eq::<T>(),
            last == new_seq.len() - 1,
            Matching::of(oa@, na@) == extended_forward(old_seq@, new_seq@, start, i as int),
            Matching::of(oa@, na@).fits(old_seq@, new_seq@),
            Matching::of(oa@, na@).in_range(),
            start.symmetric() ==> Matching::of(oa@, na@).symmetric(),
    {
        proof {
            reveal(obeys_concrete_eq);
            lemma_forward_step_keeps(old_seq@, new_seq@, Matching::of(oa@, na@), i as int);
        }
        if let Some(j) = na[i] {
            if j + 1 < oa.len() && na[i + 1].is_none() && oa[j + 1].is_none() && new_seq[i + 1] == old_seq[j + 1] {
                na[i + 1] = Some(j + 1);
                oa[j + 1] = Some(i + 1);
            }
        }
    }
}

/// Extends every pair backward: in descending order of the new position, a
/// pair whose predecessors are unpaired and equal makes them a pair, so that
/// one pair can carry a whole run of equal neighbours in a single sweep.
pub fn pass5<T: Eq>(
    old_seq: &[T],
    new_seq: &[T],
    oa: &mut Vec<Option<usize>>,
    na: &mut Vec<Option<usize>>,
)
    requires
        obeys_concrete_eq::<T>(),
        Matching::of(old(oa)@, old(na)@).fits(old_seq@, new_seq@),
        Matching::of(old(oa)@, old(na)@).in_range(),
    ensures
        Matching::of(final(oa)@, final(na)@) == extended_backward(
            old_seq@,
            new_seq@,
            Matching::of(old(oa)@, old(na)@),
            1,
        ),
        Matching::of(final(oa)@, final(na)@).fits(old_seq@, new_seq@),
        Matching::of(final(oa)@, final(na)@).in_range(),
        Matching::of(old(oa)@, old(na)@).symmetric() ==> Matching::of(
            final(oa)@,
            final(na)@,
        ).symmetric(),
{
    let ghost start = Matching::of(oa@, na@);
    let mut i: usize = na.len();

    while i > 1
        invariant
            obeys_concrete_eq::<T>(),
            i <= na.len(),
            i == na.len() || 1 <= i,
            Matching::of(oa@, na@) == extended_backward(old_seq@, new_seq@, start, i as int),
            Matching::of(oa@, na@).fits(old_seq@, new_seq@),
            Matching::of(oa@, na@).in_range(),
            start.symmetric() ==> Matching::of(oa@, na@).symmetric(),
        decreases i,
    {
        i -= 1;
        proof {
            reveal(obeys_concrete_eq);
            lemma_backward_step_keeps(old_seq@, new_seq@, Matching::of(oa@, na@), i as int);
        }
        if let Some(j) = na[i] {
            if j > 0 && na[i - 1].is_none() && oa[j - 1].is_none() && new_seq[i - 1] == old_seq[j - 1] {
                na[i - 1] = Some(j - 1);
                oa[j - 1] = Some(i - 1);
            }
        }
    }
}

} // verus!

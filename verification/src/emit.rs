//! The last pass: from a finished matching to the patches.

use vstd::prelude::*;
use vstd::laws_eq::obeys_concrete_eq;
use crate::model::{changes, deletions, emitted, unpaired_before, Matching};
use crate::patch::{Difference, Patch};

verus! {

/// No more slots can be unpaired than there are slots.
pub proof fn lemma_unpaired_before_bound(slots: Seq<Option<usize>>, k: int)
    requires
        0 <= k,
    ensures
        unpaired_before(slots, k) <= k,
    decreases k,
{
    if k > 0 {
        lemma_unpaired_before_bound(slots, k - 1);
    }
}

/// Walks both correspondence arrays and writes the patches down: a `Delete`
/// for every unpaired old position, then, for every new position in turn, a
/// `Create` where it is unpaired, and where it is paired an `Update` if the
/// two elements differ and a `Move` if the pair is out of place.
///
/// A pair is in place where its old position, moved up by the creations
/// before its new position and down by the deletions before the old one, is
/// its new position.
pub fn pass6<T: Eq>(
    old_seq: &[T],
    new_seq: &[T],
    oa: Vec<Option<usize>>,
    na: Vec<Option<usize>>,
) -> (result: Difference)
    requires
        obeys_concrete_eq::<T>(),
        Matching::of(oa@, na@).fits(old_seq@, new_seq@),
        Matching::of(oa@, na@).in_range(),
    ensures
        result@ == emitted(old_seq@, new_seq@, Matching::of(oa@, na@)),
{
    let ghost m = Matching::of(oa@, na@);
    let mut result = Difference::new();
    let mut delete_offsets: Vec<usize> = Vec::with_capacity(oa.len());
    let mut offset: usize = 0;

    for i in 0..oa.len()
        invariant
            delete_offsets.len() == i,
            offset == unpaired_before(oa@, i as int),
            forall|j: int| 0 <= j < i ==> #[trigger] delete_offsets[j] == unpaired_before(oa@, j),
            result@ == deletions(oa@, i as int),
    {
        proof {
            lemma_unpaired_before_bound(oa@, i as int);
        }
        delete_offsets.push(offset);
        if oa[i].is_none() {
            result.push(Patch::Delete(i));
            offset += 1;
        }
    }

    offset = 0;

    for i in 0..na.len()
        invariant
            obeys_concrete_eq::<T>(),
            oa.len() == old_seq.len(),
            na.len() == new_seq.len(),
            m == Matching::of(oa@, na@),
            m.in_range(),
            delete_offsets.len() == oa.len(),
            forall|j: int| 0 <= j < oa.len() ==> #[trigger] delete_offsets[j] == unpaired_before(oa@, j),
            offset == unpaired_before(na@, i as int),
            result@ == deletions(oa@, oa.len() as int) + changes(old_seq@, new_seq@, m, i as int),
    {
        proof {
            reveal(obeys_concrete_eq);
            lemma_unpaired_before_bound(na@, i as int);
        }
        match na[i] {
            Some(j) => {
                proof {
                    lemma_unpaired_before_bound(oa@, j as int);
                }
                if old_seq[j] != new_seq[i] {
                    result.push(Patch::Update(i));
                }
                // j + offset - delete_offsets[j] != i, without a sum that could overflow
                if j - delete_offsets[j] != i - offset {
                    result.push(Patch::Move(j, i));
                }
            },
            None => {
                result.push(Patch::Create(i));
                offset += 1;
            },
        }
    }

    result
}

} // verus!

//! The comparison itself.

use vstd::prelude::*;
use vstd::laws_eq::obeys_concrete_eq;
use vstd::std_specs::hash::obeys_key_model;
use std::collections::HashMap;
use std::hash::Hash;
use crate::emit::pass6;
use crate::extend::{pass4, pass5};
use crate::laws::lemma_anchors_symmetric;
use crate::model::{difference, occurrences, unpaired};
use crate::counting::{lemma_last_position, lemma_occurrences_bounds};
use crate::patch::Difference;
use crate::table::{
    is_anchor, lemma_anchored_tallied, lemma_tallied_entry, pass1, pass2, pass3, tallied, TableEntry,
};

verus! {

/// Finds the difference between two slices with Paul Heckel's algorithm.
///
/// Elements that occur exactly once in each slice are paired first; pairs
/// then spread to equal neighbours, forward and backward. What stays
/// unpaired in `old` is deleted, what stays unpaired in `new` is created,
/// and a pair is a move where it is not at the place that the deletions and
/// creations before it account for.
///
/// The elements are looked up, by reference, in a hash table. So a
/// reference to an element has to be a key as `vstd` asks of the keys of a
/// `HashMap`, and `==` on the elements has to be the equality of their
/// values.
pub fn diff<T: Eq + Hash>(old: &[T], new: &[T]) -> (result: Difference)
    requires
        obeys_key_model::<&T>(),
        obeys_concrete_eq::<T>(),
    ensures
        result@ == difference(old@, new@),
{
    let mut table: HashMap<&T, TableEntry> = HashMap::new();
    let mut na: Vec<Option<usize>> = vec![None; new.len()];
    let mut oa: Vec<Option<usize>> = vec![None; old.len()];

    pass1(new, &mut table);
    proof {
        assert forall|x: &T| #[trigger] table@.contains_key(x) implies table@[x].oc + occurrences(old@, *x) <= usize::MAX by {
            lemma_occurrences_bounds(old@, *x);
        }
    }
    pass2(old, &mut table);
    proof {
        assert(table@ == tallied(old@, new@));
        assert forall|i: int| 0 <= i < new.len() implies table@.contains_key(&#[trigger] new[i])
            && (is_anchor(table@[&new[i]]) ==> table@[&new[i]].olno < oa.len()) by {
            lemma_tallied_entry(old@, new@, &new[i]);
            lemma_occurrences_bounds(old@, new[i]);
            if old@.contains(new[i]) {
                lemma_last_position(old@, new[i]);
            }
        }
        assert(oa@ =~= unpaired(old@, new@).old_to_new);
        assert(na@ =~= unpaired(old@, new@).new_to_old);
        lemma_anchored_tallied(old@, new@);
        lemma_anchors_symmetric(old@, new@);
    }
    pass3(new, table, &mut oa, &mut na);
    pass4(old, new, &mut oa, &mut na);
    pass5(old, new, &mut oa, &mut na);
    pass6(old, new, oa, na)
}

} // verus!

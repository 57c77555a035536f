//! The occurrence table and the three passes that fill and read it.

use vstd::prelude::*;
use vstd::std_specs::hash::obeys_key_model;
use std::collections::HashMap;
use std::hash::Hash;
use crate::counting::{
    lemma_absent_position, lemma_last_position, lemma_occurrences_bounds, lemma_only_position,
    lemma_take_next,
};
use crate::model::{anchors, last_position, occurrences, occurs_once_in_each, unpaired, Matching};

verus! {

/// What the table knows of one element.
#[derive(Clone, Copy, Debug, PartialEq, Eq, Structural)]
pub struct TableEntry {
    /// How often the element occurs in the new sequence.
    pub nc: usize,
    /// How often the element occurs in the old sequence.
    pub oc: usize,
    /// The last position of the element in the old sequence.
    pub olno: usize,
}

/// The entry of `x`, or the entry of an element never seen.
pub open spec fn entry_of<'a, T>(table: Map<&'a T, TableEntry>, x: &'a T) -> TableEntry {
    if table.contains_key(x) {
        table[x]
    } else {
        TableEntry { nc: 0, oc: 0, olno: 0 }
    }
}

/// The table after the elements of `new` have been counted into it: every
/// element of `new` has an entry, and its `nc` has grown by the number of its
/// occurrences.
pub open spec fn counted_new<'a, T>(table: Map<&'a T, TableEntry>, new: Seq<T>) -> Map<
    &'a T,
    TableEntry,
> {
    Map::new(
        |x: &'a T| table.contains_key(x) || new.contains(*x),
        |x: &'a T|
            {
                let e = entry_of(table, x);
                TableEntry { nc: (e.nc + occurrences(new, *x)) as usize, oc: e.oc, olno: e.olno }
            },
    )
}

/// The table after the elements of `old` have been counted into it: every
/// element of `old` has an entry, its `oc` has grown by the number of its
/// occurrences, and its `olno` is its last position in `old`.
pub open spec fn counted_old<'a, T>(table: Map<&'a T, TableEntry>, old: Seq<T>) -> Map<
    &'a T,
    TableEntry,
> {
    Map::new(
        |x: &'a T| table.contains_key(x) || old.contains(*x),
        |x: &'a T|
            {
                let e = entry_of(table, x);
                TableEntry {
                    nc: e.nc,
                    oc: (e.oc + occurrences(old, *x)) as usize,
                    olno: if old.contains(*x) {
                        last_position(old, *x) as usize
                    } else {
                        e.olno
                    },
                }
            },
    )
}

/// Counting the element at position `i` of `s` on top of the elements before
/// it is one insertion into the table.
proof fn lemma_counted_new_next<'a, T>(table: Map<&'a T, TableEntry>, s: Seq<T>, i: int, x: &'a T)
    requires
        0 <= i < s.len() <= usize::MAX,
        *x == s[i],
        table.contains_key(x) ==> table[x].nc + occurrences(s, *x) <= usize::MAX,
    ensures
        ({
            let before = counted_new(table, s.take(i));
            let e = entry_of(before, x);
            &&& e.nc < usize::MAX
            &&& counted_new(table, s.take(i + 1)) == before.insert(
                x,
                TableEntry { nc: (e.nc + 1) as usize, oc: e.oc, olno: e.olno },
            )
        }),
{
    let before = counted_new(table, s.take(i));
    let after = counted_new(table, s.take(i + 1));
    let e = entry_of(before, x);
    let stored = before.insert(x, TableEntry { nc: (e.nc + 1) as usize, oc: e.oc, olno: e.olno });
    lemma_take_next(s, i, *x);
    lemma_occurrences_bounds(s, *x);
    lemma_occurrences_bounds(s.take(i), *x);
    assert forall|y: &T| stored.contains_key(y) <==> after.contains_key(y) by {
        lemma_take_next(s, i, *y);
    }
    assert forall|y: &T| stored.contains_key(y) implies stored[y] == after[y] by {
        lemma_take_next(s, i, *y);
    }
}

/// Counting the element at position `i` of `s` on top of the elements before
/// it is one insertion into the table.
proof fn lemma_counted_old_next<'a, T>(table: Map<&'a T, TableEntry>, s: Seq<T>, i: int, x: &'a T)
    requires
        0 <= i < s.len() <= usize::MAX,
        *x == s[i],
        table.contains_key(x) ==> table[x].oc + occurrences(s, *x) <= usize::MAX,
    ensures
        ({
            let before = counted_old(table, s.take(i));
            let e = entry_of(before, x);
            &&& e.oc < usize::MAX
            &&& counted_old(table, s.take(i + 1)) == before.insert(
                x,
                TableEntry { nc: e.nc, oc: (e.oc + 1) as usize, olno: i as usize },
            )
        }),
{
    let before = counted_old(table, s.take(i));
    let after = counted_old(table, s.take(i + 1));
    let e = entry_of(before, x);
    let stored = before.insert(x, TableEntry { nc: e.nc, oc: (e.oc + 1) as usize, olno: i as usize });
    lemma_take_next(s, i, *x);
    lemma_occurrences_bounds(s, *x);
    lemma_occurrences_bounds(s.take(i), *x);
    assert forall|y: &T| stored.contains_key(y) <==> after.contains_key(y) by {
        lemma_take_next(s, i, *y);
    }
    assert forall|y: &T| stored.contains_key(y) implies stored[y] == after[y] by {
        lemma_take_next(s, i, *y);
    }
}

/// Counts the elements of the new sequence into the table: an element seen
/// for the first time gets an entry of its own, an element seen before has
/// its `nc` raised by one.
pub fn pass1<'a, T: Eq + Hash>(new_seq: &'a [T], table: &mut HashMap<&'a T, TableEntry>)
    requires
        obeys_key_model::<&T>(),
        forall|x: &T| #[trigger]
            old(table)@.contains_key(x) ==> old(table)@[x].nc + occurrences(new_seq@, *x)
                <= usize::MAX,
    ensures
        final(table)@ == counted_new(old(table)@, new_seq@),
{
    let ghost start = table@;
    for i in 0..new_seq.len()
        invariant
            obeys_key_model::<&T>(),
            forall|x: &T| #[trigger]
                start.contains_key(x) ==> start[x].nc + occurrences(new_seq@, *x) <= usize::MAX,
            table@ == counted_new(start, new_seq@.take(i as int)),
    {
        let x = &new_seq[i];
        proof {
            lemma_counted_new_next(start, new_seq@, i as int, x);
        }
        let entry = match table.get(&x) {
            Some(tx) => TableEntry { nc: tx.nc + 1, oc: tx.oc, olno: tx.olno },
            None => TableEntry { nc: 1, oc: 0, olno: 0 },
        };
        table.insert(x, entry);
    }
    assert(new_seq@.take(new_seq.len() as int) =~= new_seq@);
}

/// Counts the elements of the old sequence into the table: an element seen
/// for the first time gets an entry of its own, an element seen before has
/// its `oc` raised by one, and either way `olno` becomes the position at
/// which it was seen, so that the last position stays.
pub fn pass2<'a, T: Eq + Hash>(old_seq: &'a [T], table: &mut HashMap<&'a T, TableEntry>)
    requires
        obeys_key_model::<&T>(),
        forall|x: &T| #[trigger]
            old(table)@.contains_key(x) ==> old(table)@[x].oc + occurrences(old_seq@, *x)
                <= usize::MAX,
    ensures
        final(table)@ == counted_old(old(table)@, old_seq@),
{
    let ghost start = table@;
    for i in 0..old_seq.len()
        invariant
            obeys_key_model::<&T>(),
            forall|x: &T| #[trigger]
                start.contains_key(x) ==> start[x].oc + occurrences(old_seq@, *x) <= usize::MAX,
            table@ == counted_old(start, old_seq@.take(i as int)),
    {
        let x = &old_seq[i];
        proof {
            lemma_counted_old_next(start, old_seq@, i as int, x);
        }
        let entry = match table.get(&x) {
            Some(tx) => TableEntry { nc: tx.nc, oc: tx.oc + 1, olno: i },
            None => TableEntry { nc: 0, oc: 1, olno: i },
        };
        table.insert(x, entry);
    }
    assert(old_seq@.take(old_seq.len() as int) =~= old_seq@);
}

/// Whether an entry belongs to an element that occurs exactly once in each
/// of the two sequences.
pub open spec fn is_anchor(e: TableEntry) -> bool {
    e.nc == 1 && e.nc == e.oc
}

/// The matching after the first `k` new positions have been looked up: each
/// of them whose entry is an anchor has become a pair with the old position
/// that the entry names.
pub open spec fn anchored<'a, T>(
    table: Map<&'a T, TableEntry>,
    new: Seq<T>,
    m: Matching,
    k: int,
) -> Matching
    decreases k,
{
    if k <= 0 {
        m
    } else {
        let before = anchored(table, new, m, k - 1);
        let e = table[&new[k - 1]];
        if is_anchor(e) {
            before.pair(e.olno as int, k - 1)
        } else {
            before
        }
    }
}

/// Looks every new position up in the table and pairs it, where the entry
/// says that its element occurs once in each sequence, with the old position
/// that the entry names. Every other slot stays as it was.
pub fn pass3<T: Eq + Hash>(
    new_seq: &[T],
    table: HashMap<&T, TableEntry>,
    oa: &mut Vec<Option<usize>>,
    na: &mut Vec<Option<usize>>,
)
    requires
        obeys_key_model::<&T>(),
        old(na).len() == new_seq.len(),
        forall|i: int| 0 <= i < new_seq.len() ==> table@.contains_key(&#[trigger] new_seq[i]),
        forall|i: int|
            0 <= i < new_seq.len() && is_anchor(table@[&#[trigger] new_seq[i]]) ==> table@[&new_seq[i]].olno
                < old(oa).len(),
    ensures
        Matching::of(final(oa)@, final(na)@) == anchored(
            table@,
            new_seq@,
            Matching::of(old(oa)@, old(na)@),
            new_seq.len() as int,
        ),
{
    let ghost start = Matching::of(oa@, na@);
    let n: usize = na.len();
    for i in 0..n
        invariant
            obeys_key_model::<&T>(),
            n == new_seq.len(),
            na.len() == n,
            oa.len() == start.old_to_new.len(),
            forall|i: int| 0 <= i < new_seq.len() ==> table@.contains_key(&#[trigger] new_seq[i]),
            forall|i: int|
                0 <= i < new_seq.len() && is_anchor(table@[&#[trigger] new_seq[i]]) ==> table@[&new_seq[i]].olno
                    < oa.len(),
            Matching::of(oa@, na@) == anchored(table@, new_seq@, start, i as int),
    {
        let tx = table.get(&&new_seq[i]).unwrap();
        if tx.nc == 1 && tx.nc == tx.oc {
            na[i] = Some(tx.olno);
            oa[tx.olno] = Some(i);
        }
    }
}

/// The table of two sequences: the new one counted into an empty table, then
/// the old one.
pub open spec fn tallied<'a, T>(old: Seq<T>, new: Seq<T>) -> Map<&'a T, TableEntry> {
    counted_old(counted_new(Map::empty(), new), old)
}

/// The entry that the table of two sequences holds for an element of either.
pub proof fn lemma_tallied_entry<'a, T>(old: Seq<T>, new: Seq<T>, x: &'a T)
    requires
        old.len() <= usize::MAX,
        new.len() <= usize::MAX,
        old.contains(*x) || new.contains(*x),
    ensures
        tallied(old, new).contains_key(x),
        tallied(old, new)[x].nc == occurrences(new, *x),
        tallied(old, new)[x].oc == occurrences(old, *x),
        tallied(old, new)[x].olno == last_position(old, *x),
        is_anchor(tallied(old, new)[x]) <==> occurs_once_in_each(old, new, *x),
{
    lemma_occurrences_bounds(old, *x);
    lemma_occurrences_bounds(new, *x);
    if old.contains(*x) {
        lemma_last_position(old, *x);
    } else {
        lemma_absent_position(old, *x);
    }
}

/// The anchors of two sequences as far as the first `k` new positions make
/// them.
spec fn anchors_before<T>(old: Seq<T>, new: Seq<T>, k: int) -> Matching {
    Matching {
        old_to_new: Seq::new(
            old.len(),
            |j: int|
                if occurs_once_in_each(old, new, old[j]) && last_position(new, old[j]) < k {
                    Some(last_position(new, old[j]) as usize)
                } else {
                    None
                },
        ),
        new_to_old: Seq::new(
            new.len(),
            |i: int|
                if i < k && occurs_once_in_each(old, new, new[i]) {
                    Some(last_position(old, new[i]) as usize)
                } else {
                    None
                },
        ),
    }
}

/// Looking the first `k` new positions up in the table of the two sequences
/// pairs the elements among them that occur once in each sequence.
proof fn lemma_anchored_before<T>(old: Seq<T>, new: Seq<T>, k: int)
    requires
        old.len() <= usize::MAX,
        new.len() <= usize::MAX,
        0 <= k <= new.len(),
    ensures
        anchored(tallied(old, new), new, unpaired(old, new), k) == anchors_before(old, new, k),
    decreases k,
{
    let table = tallied(old, new);
    if k == 0 {
        assert(anchors_before(old, new, 0).old_to_new =~= unpaired(old, new).old_to_new);
        assert(anchors_before(old, new, 0).new_to_old =~= unpaired(old, new).new_to_old);
    } else {
        lemma_anchored_before(old, new, k - 1);
        let x = new[k - 1];
        let before = anchors_before(old, new, k - 1);
        let after = anchors_before(old, new, k);
        let step = anchored(table, new, unpaired(old, new), k);
        lemma_tallied_entry(old, new, &x);
        if occurs_once_in_each(old, new, x) {
            lemma_occurrences_bounds(old, x);
            lemma_last_position(old, x);
            lemma_only_position(new, x, k - 1);
        }
        assert forall|j: int| 0 <= j < old.len() implies step.old_to_new[j] == after.old_to_new[j] by {
            let y = old[j];
            if occurs_once_in_each(old, new, y) {
                lemma_occurrences_bounds(new, y);
                lemma_last_position(new, y);
                lemma_only_position(old, y, j);
            }
        }
        assert(step.old_to_new =~= after.old_to_new);
        assert(step.new_to_old =~= after.new_to_old);
    }
}

/// Looking every new position up in the table of the two sequences yields
/// their anchors.
pub proof fn lemma_anchored_tallied<T>(old: Seq<T>, new: Seq<T>)
    requires
        old.len() <= usize::MAX,
        new.len() <= usize::MAX,
    ensures
        anchored(tallied(old, new), new, unpaired(old, new), new.len() as int) == anchors(old, new),
{
    lemma_anchored_before(old, new, new.len() as int);
    assert forall|j: int| 0 <= j < old.len() && occurs_once_in_each(old, new, old[j]) implies last_position(
        new,
        old[j],
    ) < new.len() by {
        lemma_occurrences_bounds(new, old[j]);
        lemma_last_position(new, old[j]);
    }
    assert(anchors_before(old, new, new.len() as int).old_to_new =~= anchors(old, new).old_to_new);
    assert(anchors_before(old, new, new.len() as int).new_to_old =~= anchors(old, new).new_to_old);
}

} // verus!

//! How often and where an element occurs in a sequence: the facts that the
//! proofs about the occurrence table rest on.

use vstd::prelude::*;
use crate::model::{last_position, occurrences};

verus! {

/// What one more element adds to the count, the membership and the last
/// position of every `x`.
pub proof fn lemma_take_next<T>(s: Seq<T>, i: int, x: T)
    requires
        0 <= i < s.len(),
    ensures
        occurrences(s.take(i + 1), x) == occurrences(s.take(i), x) + if s[i] == x { 1nat } else { 0nat },
        s.take(i + 1).contains(x) <==> s.take(i).contains(x) || s[i] == x,
        last_position(s.take(i + 1), x) == if s[i] == x { i as nat } else { last_position(s.take(i), x) },
        occurrences(s.take(i + 1), x) <= occurrences(s, x),
{
    let t = s.take(i + 1);
    assert(t.drop_last() =~= s.take(i));
    if t.contains(x) {
        let k = choose|k: int| 0 <= k < t.len() && t[k] == x;
        assert(k < i ==> s.take(i)[k] == x);
    }
    if s.take(i).contains(x) {
        let k = choose|k: int| 0 <= k < s.take(i).len() && s.take(i)[k] == x;
        assert(t[k] == x);
    }
    assert(t[i] == s[i]);
    lemma_occurrences_prefix(s, i + 1, x);
}

/// A prefix holds no more occurrences than the whole.
pub proof fn lemma_occurrences_prefix<T>(s: Seq<T>, k: int, x: T)
    requires
        0 <= k <= s.len(),
    ensures
        occurrences(s.take(k), x) <= occurrences(s, x),
    decreases s.len(),
{
    if k == s.len() {
        assert(s.take(k) =~= s);
    } else {
        assert(s.drop_last().take(k) =~= s.take(k));
        lemma_occurrences_prefix(s.drop_last(), k, x);
    }
}

/// An element occurs at most as often as the sequence is long, and at least
/// once exactly if the sequence contains it.
pub proof fn lemma_occurrences_bounds<T>(s: Seq<T>, x: T)
    ensures
        occurrences(s, x) <= s.len(),
        occurrences(s, x) > 0 <==> s.contains(x),
    decreases s.len(),
{
    if s.len() > 0 {
        let r = s.drop_last();
        lemma_occurrences_bounds(r, x);
        if r.contains(x) {
            let k = choose|k: int| 0 <= k < r.len() && r[k] == x;
            assert(s[k] == x);
        }
        if s.contains(x) && s.last() != x {
            let k = choose|k: int| 0 <= k < s.len() && s[k] == x;
            assert(r[k] == x);
        }
        assert(s[s.len() - 1] == s.last());
    }
}

/// The last position of an element that a sequence does not contain is 0.
pub proof fn lemma_absent_position<T>(s: Seq<T>, x: T)
    requires
        !s.contains(x),
    ensures
        last_position(s, x) == 0,
    decreases s.len(),
{
    if s.len() > 0 {
        assert(s[s.len() - 1] != x);
        assert forall|k: int| 0 <= k < s.drop_last().len() implies s.drop_last()[k] != x by {
            assert(s[k] != x);
        }
        lemma_absent_position(s.drop_last(), x);
    }
}

/// An element that a sequence contains stands at its last position.
pub proof fn lemma_last_position<T>(s: Seq<T>, x: T)
    requires
        s.contains(x),
    ensures
        last_position(s, x) < s.len(),
        s[last_position(s, x) as int] == x,
    decreases s.len(),
{
    if s.last() != x {
        let k = choose|k: int| 0 <= k < s.len() && s[k] == x;
        assert(s.drop_last()[k] == x);
        lemma_last_position(s.drop_last(), x);
    }
}

/// An element that occurs once occurs at its last position only.
pub proof fn lemma_only_position<T>(s: Seq<T>, x: T, i: int)
    requires
        occurrences(s, x) == 1,
        0 <= i < s.len(),
        s[i] == x,
    ensures
        last_position(s, x) == i,
    decreases s.len(),
{
    let r = s.drop_last();
    if s.last() == x {
        lemma_occurrences_bounds(r, x);
        if i < s.len() - 1 {
            assert(r[i] == x);
        }
    } else {
        lemma_only_position(r, x, i);
    }
}

} // verus!

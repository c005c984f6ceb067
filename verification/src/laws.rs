//! Laws that relate the sorting strategies to each other: a sorted
//! rearrangement of a sequence is unique, so every strategy computes the
//! same function, sorting twice is the same as sorting once, and a bounded
//! rotation is undone by the inverse rotation.

use crate::perm::sorted;
use crate::util::rotated3;
use vstd::prelude::*;
use vstd::relations::{sorted_by, total_ordering};
use vstd::seq_lib::lemma_sorted_unique;

verus! {

/// There is exactly one sorted rearrangement of a sequence: any two sorted
/// sequences with the same multiset of elements are equal. Every strategy
/// of this crate ensures exactly a sorted rearrangement of its input, so on
/// any one input every strategy returns the same output; in particular the
/// insertion-sort fallback agrees with every partitioning strategy on the
/// small ranges both can sort.
pub proof fn lemma_sorted_rearrangement_unique(t1: Seq<u32>, t2: Seq<u32>)
    requires
        sorted(t1),
        sorted(t2),
        t1.to_multiset() == t2.to_multiset(),
    ensures
        t1 == t2,
{
    let leq = |a: u32, b: u32| a <= b;
    assert(total_ordering(leq));
    assert(sorted_by(t1, leq)) by {
        assert forall|i: int, j: int| 0 <= i < j < t1.len() implies #[trigger] leq(
            t1[i],
            t1[j],
        ) by {
            assert(t1[i] <= t1[j]);
        }
    }
    assert(sorted_by(t2, leq)) by {
        assert forall|i: int, j: int| 0 <= i < j < t2.len() implies #[trigger] leq(
            t2[i],
            t2[j],
        ) by {
            assert(t2[i] <= t2[j]);
        }
    }
    lemma_sorted_unique(t1, t2, leq);
}

/// Sorting is idempotent: a call on an already sorted sequence returns that
/// sequence unchanged, so running any strategy twice gives the same result
/// as running it once.
pub proof fn lemma_sort_idempotent(s: Seq<u32>, t: Seq<u32>)
    requires
        sorted(s),
        sorted(t),
        t.to_multiset() == s.to_multiset(),
    ensures
        t == s,
{
    lemma_sorted_rearrangement_unique(t, s);
}

/// A cyclic rotation of three distinct positions is undone by rotating the
/// same positions with the last two exchanged: the composition restores
/// every element.
pub proof fn lemma_rotate3_inverse(s: Seq<u32>, a: int, b: int, c: int)
    requires
        0 <= a < s.len(),
        0 <= b < s.len(),
        0 <= c < s.len(),
        a != b,
        a != c,
        b != c,
    ensures
        rotated3(rotated3(s, a, b, c), a, c, b) == s,
{
    assert(rotated3(rotated3(s, a, b, c), a, c, b) =~= s);
}

} // verus!

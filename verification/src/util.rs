//! Shared primitives: element exchange, the bounded cyclic rotation used by
//! the multi-pivot partitioners, a sortedness check, and random input
//! generation.

use crate::perm::{lemma_swap_multiset, sorted, sorted_between};
use rand::Rng;
use vstd::prelude::*;

verus! {

/// Exchanges the elements at positions `i` and `j`.
pub fn swap(arr: &mut Vec<u32>, i: usize, j: usize)
    requires
        i < old(arr).len(),
        j < old(arr).len(),
    ensures
        final(arr)@ == old(arr)@.update(i as int, old(arr)@[j as int]).update(
            j as int,
            old(arr)@[i as int],
        ),
        final(arr)@.to_multiset() == old(arr)@.to_multiset(),
        final(arr)@.len() == old(arr)@.len(),
{
    let vi = arr[i];
    let vj = arr[j];
    arr[i] = vj;
    arr[j] = vi;
    proof {
        lemma_swap_multiset(old(arr)@, i as int, j as int);
    }
}

/// The sequence `s` after one cyclic move of three positions: the value at
/// `i1` shifts to `i0`, the value at `i2` shifts to `i1`, and the value read
/// at `i0` lands at `i2`.
pub open spec fn rotated3(s: Seq<u32>, i0: int, i1: int, i2: int) -> Seq<u32> {
    s.update(i0, s[i1]).update(i1, s[i2]).update(i2, s[i0])
}

/// The same cyclic move over four positions.
pub open spec fn rotated4(s: Seq<u32>, i0: int, i1: int, i2: int, i3: int) -> Seq<u32> {
    s.update(i0, s[i1]).update(i1, s[i2]).update(i2, s[i3]).update(i3, s[i0])
}

/// The same cyclic move over five positions.
pub open spec fn rotated5(s: Seq<u32>, i0: int, i1: int, i2: int, i3: int, i4: int) -> Seq<u32> {
    s.update(i0, s[i1]).update(i1, s[i2]).update(i2, s[i3]).update(i3, s[i4]).update(i4, s[i0])
}

/// The same cyclic move over six positions.
pub open spec fn rotated6(
    s: Seq<u32>,
    i0: int,
    i1: int,
    i2: int,
    i3: int,
    i4: int,
    i5: int,
) -> Seq<u32> {
    s.update(i0, s[i1]).update(i1, s[i2]).update(i2, s[i3]).update(i3, s[i4]).update(
        i4,
        s[i5],
    ).update(i5, s[i0])
}

/// Cyclically moves three elements in one atomic step. The indices must be
/// pairwise distinct: with an index repeated, one cell would be both source
/// and destination of the same move.
pub fn rotate3(arr: &mut Vec<u32>, idx: [usize; 3])
    requires
        idx[0] < old(arr).len(),
        idx[1] < old(arr).len(),
        idx[2] < old(arr).len(),
        idx[0] != idx[1],
        idx[0] != idx[2],
        idx[1] != idx[2],
    ensures
        final(arr)@ == rotated3(old(arr)@, idx[0] as int, idx[1] as int, idx[2] as int),
        final(arr)@.to_multiset() == old(arr)@.to_multiset(),
        final(arr)@.len() == old(arr)@.len(),
{
    let i0 = idx[0];
    let i1 = idx[1];
    let i2 = idx[2];
    let tmp = arr[i0];
    let v1 = arr[i1];
    let v2 = arr[i2];
    arr[i0] = v1;
    arr[i1] = v2;
    arr[i2] = tmp;
    proof {
        let s = old(arr)@;
        let j0 = i0 as int;
        let j1 = i1 as int;
        let j2 = i2 as int;
        lemma_swap_multiset(s, j0, j1);
        let t1 = s.update(j0, s[j1]).update(j1, s[j0]);
        lemma_swap_multiset(t1, j1, j2);
        let t2 = t1.update(j1, t1[j2]).update(j2, t1[j1]);
        assert(t2 =~= rotated3(s, j0, j1, j2));
    }
}

/// Cyclically moves four elements in one atomic step; indices must be
/// pairwise distinct.
pub fn rotate4(arr: &mut Vec<u32>, idx: [usize; 4])
    requires
        idx[0] < old(arr).len(),
        idx[1] < old(arr).len(),
        idx[2] < old(arr).len(),
        idx[3] < old(arr).len(),
        idx[0] != idx[1],
        idx[0] != idx[2],
        idx[0] != idx[3],
        idx[1] != idx[2],
        idx[1] != idx[3],
        idx[2] != idx[3],
    ensures
        final(arr)@ == rotated4(
            old(arr)@,
            idx[0] as int,
            idx[1] as int,
            idx[2] as int,
            idx[3] as int,
        ),
        final(arr)@.to_multiset() == old(arr)@.to_multiset(),
        final(arr)@.len() == old(arr)@.len(),
{
    let i0 = idx[0];
    let i1 = idx[1];
    let i2 = idx[2];
    let i3 = idx[3];
    let tmp = arr[i0];
    let v1 = arr[i1];
    let v2 = arr[i2];
    let v3 = arr[i3];
    arr[i0] = v1;
    arr[i1] = v2;
    arr[i2] = v3;
    arr[i3] = tmp;
    proof {
        let s = old(arr)@;
        let j0 = i0 as int;
        let j1 = i1 as int;
        let j2 = i2 as int;
        let j3 = i3 as int;
        lemma_swap_multiset(s, j0, j1);
        let t1 = s.update(j0, s[j1]).update(j1, s[j0]);
        lemma_swap_multiset(t1, j1, j2);
        let t2 = t1.update(j1, t1[j2]).update(j2, t1[j1]);
        lemma_swap_multiset(t2, j2, j3);
        let t3 = t2.update(j2, t2[j3]).update(j3, t2[j2]);
        assert(t3 =~= rotated4(s, j0, j1, j2, j3));
    }
}

/// Cyclically moves five elements in one atomic step; indices must be
/// pairwise distinct.
pub fn rotate5(arr: &mut Vec<u32>, idx: [usize; 5])
    requires
        idx[0] < old(arr).len(),
        idx[1] < old(arr).len(),
        idx[2] < old(arr).len(),
        idx[3] < old(arr).len(),
        idx[4] < old(arr).len(),
        idx[0] != idx[1],
        idx[0] != idx[2],
        idx[0] != idx[3],
        idx[0] != idx[4],
        idx[1] != idx[2],
        idx[1] != idx[3],
        idx[1] != idx[4],
        idx[2] != idx[3],
        idx[2] != idx[4],
        idx[3] != idx[4],
    ensures
        final(arr)@ == rotated5(
            old(arr)@,
            idx[0] as int,
            idx[1] as int,
            idx[2] as int,
            idx[3] as int,
            idx[4] as int,
        ),
        final(arr)@.to_multiset() == old(arr)@.to_multiset(),
        final(arr)@.len() == old(arr)@.len(),
{
    let i0 = idx[0];
    let i1 = idx[1];
    let i2 = idx[2];
    let i3 = idx[3];
    let i4 = idx[4];
    let tmp = arr[i0];
    let v1 = arr[i1];
    let v2 = arr[i2];
    let v3 = arr[i3];
    let v4 = arr[i4];
    arr[i0] = v1;
    arr[i1] = v2;
    arr[i2] = v3;
    arr[i3] = v4;
    arr[i4] = tmp;
    proof {
        let s = old(arr)@;
        let j0 = i0 as int;
        let j1 = i1 as int;
        let j2 = i2 as int;
        let j3 = i3 as int;
        let j4 = i4 as int;
        lemma_swap_multiset(s, j0, j1);
        let t1 = s.update(j0, s[j1]).update(j1, s[j0]);
        lemma_swap_multiset(t1, j1, j2);
        let t2 = t1.update(j1, t1[j2]).update(j2, t1[j1]);
        lemma_swap_multiset(t2, j2, j3);
        let t3 = t2.update(j2, t2[j3]).update(j3, t2[j2]);
        lemma_swap_multiset(t3, j3, j4);
        let t4 = t3.update(j3, t3[j4]).update(j4, t3[j3]);
        assert(t4 =~= rotated5(s, j0, j1, j2, j3, j4));
    }
}

/// Cyclically moves six elements in one atomic step; indices must be
/// pairwise distinct.
pub fn rotate6(arr: &mut Vec<u32>, idx: [usize; 6])
    requires
        idx[0] < old(arr).len(),
        idx[1] < old(arr).len(),
        idx[2] < old(arr).len(),
        idx[3] < old(arr).len(),
        idx[4] < old(arr).len(),
        idx[5] < old(arr).len(),
        idx[0] != idx[1],
        idx[0] != idx[2],
        idx[0] != idx[3],
        idx[0] != idx[4],
        idx[0] != idx[5],
        idx[1] != idx[2],
        idx[1] != idx[3],
        idx[1] != idx[4],
        idx[1] != idx[5],
        idx[2] != idx[3],
        idx[2] != idx[4],
        idx[2] != idx[5],
        idx[3] != idx[4],
        idx[3] != idx[5],
        idx[4] != idx[5],
    ensures
        final(arr)@ == rotated6(
            old(arr)@,
            idx[0] as int,
            idx[1] as int,
            idx[2] as int,
            idx[3] as int,
            idx[4] as int,
            idx[5] as int,
        ),
        final(arr)@.to_multiset() == old(arr)@.to_multiset(),
        final(arr)@.len() == old(arr)@.len(),
{
    let i0 = idx[0];
    let i1 = idx[1];
    let i2 = idx[2];
    let i3 = idx[3];
    let i4 = idx[4];
    let i5 = idx[5];
    let tmp = arr[i0];
    let v1 = arr[i1];
    let v2 = arr[i2];
    let v3 = arr[i3];
    let v4 = arr[i4];
    let v5 = arr[i5];
    arr[i0] = v1;
    arr[i1] = v2;
    arr[i2] = v3;
    arr[i3] = v4;
    arr[i4] = v5;
    arr[i5] = tmp;
    proof {
        let s = old(arr)@;
        let j0 = i0 as int;
        let j1 = i1 as int;
        let j2 = i2 as int;
        let j3 = i3 as int;
        let j4 = i4 as int;
        let j5 = i5 as int;
        lemma_swap_multiset(s, j0, j1);
        let t1 = s.update(j0, s[j1]).update(j1, s[j0]);
        lemma_swap_multiset(t1, j1, j2);
        let t2 = t1.update(j1, t1[j2]).update(j2, t1[j1]);
        lemma_swap_multiset(t2, j2, j3);
        let t3 = t2.update(j2, t2[j3]).update(j3, t2[j2]);
        lemma_swap_multiset(t3, j3, j4);
        let t4 = t3.update(j3, t3[j4]).update(j4, t3[j3]);
        lemma_swap_multiset(t4, j4, j5);
        let t5 = t4.update(j4, t4[j5]).update(j5, t4[j4]);
        assert(t5 =~= rotated6(s, j0, j1, j2, j3, j4, j5));
    }
}

/// Reports whether the whole vector is in nondecreasing order.
pub fn is_sorted(v: &Vec<u32>) -> (r: bool)
    ensures
        r == sorted(v@),
{
    let n = v.len();
    let mut i: usize = 1;
    while i < n
        invariant
            1 <= i,
            n == v.len(),
            sorted_between(v@, 0, i as int),
        decreases n - i,
    {
        if v[i - 1] > v[i] {
            assert(!sorted(v@));
            return false;
        }
        assert(sorted_between(v@, 0, i + 1)) by {
            assert forall|k1: int, k2: int| 0 <= k1 <= k2 < i + 1 implies v@[k1] <= v@[k2] by {
                if k2 == i && k1 < i {
                    assert(v@[k1] <= v@[i - 1]);
                }
            }
        }
        i += 1;
    }
    true
}

/// Relies on `rand::thread_rng` and `rand::Rng::sample_iter` to draw `n`
/// values from the thread-local generator; only the length of the result is
/// assumed, nothing about the values.
#[verifier::external_body]
pub fn default_vec(n: usize) -> (r: Vec<u32>)
    ensures
        r@.len() == n,
{
    rand::thread_rng().sample_iter(rand::distributions::Standard).take(n).collect()
}

} // verus!

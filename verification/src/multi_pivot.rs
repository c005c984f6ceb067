//! Multi-pivot quicksort strategies: double-pivot partitioning in the
//! classic converging form and in two cache-blocked forms, and the
//! three- and four-pivot single-pass partitioners that move elements across
//! several zone boundaries with cyclic rotations.

use crate::perm::{
    lemma_double_pivot_stitch, lemma_quad_pivot_stitch, lemma_range_frame_preserves,
    lemma_triple_pivot_stitch, range_frame, sorted, sorted_between,
};
use crate::qsort::{insertion_sort, staged_at, sweep_block, BLOCK};
use crate::util::{rotate3, rotate4, rotate5, swap};
use crate::INSERTION_SORT_THRESHOLD;
use vstd::prelude::*;

verus! {

/// Classic double-pivot partitioning of `arr[lo..hi)`: the first and last
/// elements become the two pivots (exchanged if out of order), a scanning
/// cursor grows a below-`p1` zone and a converging cursor shrinks an
/// above-`p2` zone. Returns the two final pivot positions.
fn double_pivot_partition(arr: &mut Vec<u32>, lo: usize, hi: usize) -> (r: (usize, usize))
    requires
        lo + 2 <= hi,
        hi <= old(arr).len(),
    ensures
        lo <= r.0 < r.1 < hi,
        final(arr)@.len() == old(arr)@.len(),
        range_frame(old(arr)@, final(arr)@, lo as int, hi as int),
        final(arr)@[r.0 as int] <= final(arr)@[r.1 as int],
        forall|k: int| lo <= k < r.0 ==> #[trigger] final(arr)@[k] <= final(arr)@[r.0 as int],
        forall|k: int|
            r.0 < k < r.1 ==> final(arr)@[r.0 as int] <= #[trigger] final(arr)@[k]
                && final(arr)@[k] <= final(arr)@[r.1 as int],
        forall|k: int| r.1 < k < hi ==> #[trigger] final(arr)@[k] >= final(arr)@[r.1 as int],
{
    if arr[lo] > arr[hi - 1] {
        swap(arr, lo, hi - 1);
    }
    let p1 = arr[lo];
    let p2 = arr[hi - 1];
    let mut less: usize = lo + 1;
    let mut greater: usize = hi - 2;
    let mut k: usize = less;
    while k <= greater
        invariant
            lo + 1 <= less <= k <= greater + 2,
            less <= greater + 1,
            greater <= hi - 2,
            lo + 2 <= hi <= arr.len(),
            arr.len() == old(arr).len(),
            p1 == arr@[lo as int],
            p2 == arr@[hi - 1],
            p1 <= p2,
            range_frame(old(arr)@, arr@, lo as int, hi as int),
            forall|m: int| lo < m < less ==> arr@[m] < p1,
            forall|m: int| less <= m < k && m <= greater ==> p1 <= arr@[m] && arr@[m] <= p2,
            forall|m: int| greater < m <= hi - 2 ==> arr@[m] > p2,
        decreases greater + 2 - k,
    {
        if arr[k] < p1 {
            swap(arr, k, less);
            less += 1;
        } else if arr[k] > p2 {
            let ghost snap = arr@;
            let ghost g0 = greater;
            while k < greater && arr[greater] > p2
                invariant
                    k <= greater <= g0,
                    greater <= hi - 2,
                    lo + 2 <= hi <= arr.len(),
                    arr@ == snap,
                    forall|m: int| greater < m <= hi - 2 ==> arr@[m] > p2,
                decreases greater,
            {
                greater -= 1;
            }
            swap(arr, k, greater);
            greater -= 1;
            if arr[k] < p1 {
                swap(arr, k, less);
                less += 1;
            }
        }
        k += 1;
    }
    swap(arr, less - 1, lo);
    swap(arr, greater + 1, hi - 1);
    (less - 1, greater + 1)
}

/// In-place quicksort of the whole vector with classic double-pivot
/// partitioning. A middle zone whose two pivots are equal holds only copies
/// of that value and is not recursed into.
pub fn double_pivot_quicksort(arr: &mut Vec<u32>)
    ensures
        final(arr)@.len() == old(arr)@.len(),
        final(arr)@.to_multiset() == old(arr)@.to_multiset(),
        sorted(final(arr)@),
{
    let n = arr.len();
    double_pivot_sort_range(arr, 0, n);
}

/// The recursive driver behind [`double_pivot_quicksort`].
fn double_pivot_sort_range(arr: &mut Vec<u32>, lo: usize, hi: usize)
    requires
        lo <= hi <= old(arr).len(),
    ensures
        final(arr)@.len() == old(arr)@.len(),
        range_frame(old(arr)@, final(arr)@, lo as int, hi as int),
        sorted_between(final(arr)@, lo as int, hi as int),
    decreases hi - lo,
{
    if hi - lo < 2 {
        return ;
    }
    if hi - lo < INSERTION_SORT_THRESHOLD {
        insertion_sort(arr, lo, hi - 1);
        return ;
    }
    let (s1, s2) = double_pivot_partition(arr, lo, hi);
    let ghost pre = arr@;
    double_pivot_sort_range(arr, lo, s1);
    let ghost m1 = arr@;
    let p1 = arr[s1];
    let p2 = arr[s2];
    if p1 < p2 {
        double_pivot_sort_range(arr, s1 + 1, s2);
    } else {
        proof {
            assert forall|i: int, j: int|
                s1 + 1 <= i <= j < s2 implies arr@[i] <= arr@[j] by {
                assert(arr@[i] == pre[i]);
                assert(arr@[j] == pre[j]);
            }
        }
    }
    let ghost m2 = arr@;
    double_pivot_sort_range(arr, s2 + 1, hi);
    proof {
        lemma_double_pivot_stitch(pre, m1, m2, arr@, lo as int, s1 as int, s2 as int, hi as int);
    }
}

/// Cache-blocked double-pivot partitioning of `arr[lo..hi)`: every block is
/// first swept against the upper pivot, and the elements below it are then
/// swept against the lower pivot, both through the offset staging buffer.
fn double_pivot_block_partition(arr: &mut Vec<u32>, lo: usize, hi: usize) -> (r: (usize, usize))
    requires
        lo + 2 <= hi,
        hi <= old(arr).len(),
    ensures
        lo <= r.0 < r.1 < hi,
        final(arr)@.len() == old(arr)@.len(),
        range_frame(old(arr)@, final(arr)@, lo as int, hi as int),
        final(arr)@[r.0 as int] <= final(arr)@[r.1 as int],
        forall|k: int| lo <= k < r.0 ==> #[trigger] final(arr)@[k] <= final(arr)@[r.0 as int],
        forall|k: int|
            r.0 < k < r.1 ==> final(arr)@[r.0 as int] <= #[trigger] final(arr)@[k]
                && final(arr)@[k] <= final(arr)@[r.1 as int],
        forall|k: int| r.1 < k < hi ==> #[trigger] final(arr)@[k] >= final(arr)@[r.1 as int],
{
    if arr[lo] > arr[hi - 1] {
        swap(arr, lo, hi - 1);
    }
    let p1 = arr[lo];
    let p2 = arr[hi - 1];
    let mut i: usize = lo + 1;
    let mut j: usize = lo + 1;
    let mut k: usize = lo + 1;
    while k < hi - 1
        invariant
            lo + 1 <= i <= j <= k <= hi - 1,
            lo + 2 <= hi <= arr.len(),
            arr.len() == old(arr).len(),
            p1 == arr@[lo as int],
            p2 == arr@[hi - 1],
            p1 <= p2,
            range_frame(old(arr)@, arr@, lo as int, hi as int),
            forall|m: int| lo < m < i ==> arr@[m] < p1,
            forall|m: int| i <= m < j ==> p1 <= arr@[m] && arr@[m] < p2,
            forall|m: int| j <= m < k ==> arr@[m] >= p2,
        decreases hi - 1 - k,
    {
        let bt = if BLOCK < hi - 1 - k {
            BLOCK
        } else {
            hi - 1 - k
        };
        let ghost before1 = arr@;
        let num2 = sweep_block(arr, j, k, bt, p2);
        proof {
            assert forall|m: int| i <= m < j implies arr@[m] >= p1 by {
                assert(arr@[m] == before1[m]);
            }
        }
        let ghost before2 = arr@;
        let num1 = sweep_block(arr, i, j, num2, p1);
        proof {
            let ltp2 = |x: u32| x < p2;
            assert forall|m: int| i <= m < j + num2 implies #[trigger] ltp2(before2[m]) by {
                if m < j {
                    assert(before2[m] == before1[m]);
                }
            }
            lemma_range_frame_preserves(before2, arr@, i as int, j + num2, ltp2);
            assert forall|m: int| i + num1 <= m < j + num2 implies arr@[m] < p2 by {
                assert(ltp2(arr@[m]));
            }
            assert forall|m: int| lo < m < i implies arr@[m] < p1 by {
                assert(arr@[m] == before2[m]);
                assert(before2[m] == before1[m]);
            }
            assert forall|m: int| j + num2 <= m < k + bt implies arr@[m] >= p2 by {
                assert(arr@[m] == before2[m]);
            }
        }
        k += bt;
        i += num1;
        j += num2;
    }
    swap(arr, i - 1, lo);
    swap(arr, j, hi - 1);
    (i - 1, j)
}

/// In-place quicksort of the whole vector with the two-stage cache-blocked
/// double-pivot partitioning.
pub fn double_pivot_quicksort_lomuto_partition_block(arr: &mut Vec<u32>)
    ensures
        final(arr)@.len() == old(arr)@.len(),
        final(arr)@.to_multiset() == old(arr)@.to_multiset(),
        sorted(final(arr)@),
{
    let n = arr.len();
    double_pivot_block_sort_range(arr, 0, n);
}

/// The recursive driver behind
/// [`double_pivot_quicksort_lomuto_partition_block`].
fn double_pivot_block_sort_range(arr: &mut Vec<u32>, lo: usize, hi: usize)
    requires
        lo <= hi <= old(arr).len(),
    ensures
        final(arr)@.len() == old(arr)@.len(),
        range_frame(old(arr)@, final(arr)@, lo as int, hi as int),
        sorted_between(final(arr)@, lo as int, hi as int),
    decreases hi - lo,
{
    if hi - lo < 2 {
        return ;
    }
    if hi - lo < INSERTION_SORT_THRESHOLD {
        insertion_sort(arr, lo, hi - 1);
        return ;
    }
    let (s1, s2) = double_pivot_block_partition(arr, lo, hi);
    let ghost pre = arr@;
    double_pivot_block_sort_range(arr, lo, s1);
    let ghost m1 = arr@;
    double_pivot_block_sort_range(arr, s1 + 1, s2);
    let ghost m2 = arr@;
    double_pivot_block_sort_range(arr, s2 + 1, hi);
    proof {
        lemma_double_pivot_stitch(pre, m1, m2, arr@, lo as int, s1 as int, s2 as int, hi as int);
    }
}

/// Three-pivot single-pass partitioning of `arr[lo..hi)`: three sampled
/// pivots are ordered by a fixed network, two cursor pairs converge from
/// both ends, and elements crossing more than one zone boundary travel by
/// cyclic rotation. Returns the three final pivot positions.
#[verifier::rlimit(100)]
fn triple_pivot_partition(arr: &mut Vec<u32>, lo: usize, hi: usize) -> (r: (usize, usize, usize))
    requires
        lo + 4 <= hi,
        hi <= old(arr).len(),
    ensures
        lo <= r.0 < r.1 < r.2 < hi,
        final(arr)@.len() == old(arr)@.len(),
        range_frame(old(arr)@, final(arr)@, lo as int, hi as int),
        final(arr)@[r.0 as int] <= final(arr)@[r.1 as int],
        final(arr)@[r.1 as int] <= final(arr)@[r.2 as int],
        forall|k: int| lo <= k < r.0 ==> #[trigger] final(arr)@[k] <= final(arr)@[r.0 as int],
        forall|k: int|
            r.0 < k < r.1 ==> final(arr)@[r.0 as int] <= #[trigger] final(arr)@[k]
                && final(arr)@[k] <= final(arr)@[r.1 as int],
        forall|k: int|
            r.1 < k < r.2 ==> final(arr)@[r.1 as int] <= #[trigger] final(arr)@[k]
                && final(arr)@[k] <= final(arr)@[r.2 as int],
        forall|k: int| r.2 < k < hi ==> #[trigger] final(arr)@[k] >= final(arr)@[r.2 as int],
{
    if arr[lo] > arr[lo + 1] {
        swap(arr, lo, lo + 1);
    }
    if arr[lo + 1] > arr[hi - 1] {
        swap(arr, lo + 1, hi - 1);
    }
    if arr[lo] > arr[lo + 1] {
        swap(arr, lo, lo + 1);
    }
    let p1 = arr[lo];
    let p2 = arr[lo + 1];
    let p3 = arr[hi - 1];
    let mut i: usize = lo + 2;
    let mut j: usize = lo + 2;
    let mut k: usize = hi - 2;
    let mut l: usize = hi - 2;
    while j <= k
        invariant
            lo + 2 <= i <= j,
            j <= k + 2,
            lo + 1 <= k <= l,
            l <= hi - 2,
            j <= hi - 1,
            j == k + 2 ==> l >= k + 1,
            lo + 4 <= hi <= arr.len(),
            arr.len() == old(arr).len(),
            p1 == arr@[lo as int],
            p2 == arr@[lo + 1],
            p3 == arr@[hi - 1],
            p1 <= p2 <= p3,
            range_frame(old(arr)@, arr@, lo as int, hi as int),
            forall|m: int| lo + 2 <= m < i ==> arr@[m] < p1,
            forall|m: int| i <= m < j && m <= k ==> p1 <= arr@[m] && arr@[m] <= p2,
            forall|m: int| k < m < j ==> arr@[m] == p2,
            forall|m: int| k < m <= l ==> p2 <= arr@[m] && arr@[m] <= p3,
            forall|m: int| l < m <= hi - 2 ==> arr@[m] > p3,
        decreases k + 2 - j,
    {
        let ghost j0 = j;
        let ghost k0 = k;
        while arr[j] < p2
            invariant
                j0 <= j,
                lo + 2 <= i <= j,
                j <= k + 1,
                lo + 1 <= k <= l <= hi - 2,
                lo + 4 <= hi <= arr.len(),
                arr.len() == old(arr).len(),
                p1 == arr@[lo as int],
                p2 == arr@[lo + 1],
                p3 == arr@[hi - 1],
                p1 <= p2 <= p3,
                range_frame(old(arr)@, arr@, lo as int, hi as int),
                forall|m: int| lo + 2 <= m < i ==> arr@[m] < p1,
                forall|m: int| i <= m < j && m <= k ==> p1 <= arr@[m] && arr@[m] <= p2,
                forall|m: int| k < m <= l ==> p2 <= arr@[m] && arr@[m] <= p3,
                forall|m: int| l < m <= hi - 2 ==> arr@[m] > p3,
            decreases k + 1 - j,
        {
            assert(j <= k);
            if arr[j] < p1 {
                swap(arr, i, j);
                i += 1;
            }
            j += 1;
        }
        while arr[k] > p2
            invariant
                k <= k0,
                lo + 2 <= i <= j,
                j - 1 <= k,
                arr@[j as int] >= p2,
                lo + 1 <= k <= l <= hi - 2,
                lo + 4 <= hi <= arr.len(),
                arr.len() == old(arr).len(),
                p1 == arr@[lo as int],
                p2 == arr@[lo + 1],
                p3 == arr@[hi - 1],
                p1 <= p2 <= p3,
                range_frame(old(arr)@, arr@, lo as int, hi as int),
                forall|m: int| lo + 2 <= m < i ==> arr@[m] < p1,
                forall|m: int| i <= m < j && m <= k ==> p1 <= arr@[m] && arr@[m] <= p2,
                forall|m: int| k < m <= l ==> p2 <= arr@[m] && arr@[m] <= p3,
                forall|m: int| l < m <= hi - 2 ==> arr@[m] > p3,
            decreases k,
        {
            assert(k >= j);
            if arr[k] > p3 {
                swap(arr, k, l);
                l -= 1;
            }
            k -= 1;
        }
        if j <= k {
            if arr[j] > p3 {
                if arr[k] < p1 {
                    assert(j < k);
                    if i == j {
                        swap(arr, j, k);
                    } else {
                        rotate3(arr, [j, i, k]);
                    }
                    i += 1;
                } else {
                    swap(arr, j, k);
                }
                swap(arr, k, l);
                l -= 1;
            } else {
                if arr[k] < p1 {
                    assert(j < k);
                    if i == j {
                        swap(arr, j, k);
                    } else {
                        rotate3(arr, [j, i, k]);
                    }
                    i += 1;
                } else {
                    swap(arr, j, k);
                    proof {
                        if j == k {
                            assert(arr@[j as int] == p2);
                        }
                    }
                }
            }
            j += 1;
            k -= 1;
        }
    }
    i -= 1;
    j -= 1;
    l += 1;
    if lo + 1 < i && i < j {
        rotate3(arr, [lo + 1, i, j]);
    } else if lo + 1 == i && i < j {
        swap(arr, lo + 1, j);
    } else if lo + 1 < i && i == j {
        swap(arr, lo + 1, i);
    }
    i -= 1;
    swap(arr, lo, i);
    swap(arr, hi - 1, l);
    (i, j, l)
}

/// In-place quicksort of the whole vector with three-pivot partitioning.
pub fn triple_pivot_quicksort(arr: &mut Vec<u32>)
    ensures
        final(arr)@.len() == old(arr)@.len(),
        final(arr)@.to_multiset() == old(arr)@.to_multiset(),
        sorted(final(arr)@),
{
    let n = arr.len();
    triple_pivot_sort_range(arr, 0, n);
}

/// The recursive driver behind [`triple_pivot_quicksort`].
fn triple_pivot_sort_range(arr: &mut Vec<u32>, lo: usize, hi: usize)
    requires
        lo <= hi <= old(arr).len(),
    ensures
        final(arr)@.len() == old(arr)@.len(),
        range_frame(old(arr)@, final(arr)@, lo as int, hi as int),
        sorted_between(final(arr)@, lo as int, hi as int),
    decreases hi - lo,
{
    if hi - lo < 2 {
        return ;
    }
    if hi - lo < INSERTION_SORT_THRESHOLD {
        insertion_sort(arr, lo, hi - 1);
        return ;
    }
    let (s1, s2, s3) = triple_pivot_partition(arr, lo, hi);
    let ghost pre = arr@;
    triple_pivot_sort_range(arr, lo, s1);
    let ghost m1 = arr@;
    triple_pivot_sort_range(arr, s1 + 1, s2);
    let ghost m2 = arr@;
    triple_pivot_sort_range(arr, s2 + 1, s3);
    let ghost m3 = arr@;
    triple_pivot_sort_range(arr, s3 + 1, hi);
    proof {
        lemma_triple_pivot_stitch(
            pre,
            m1,
            m2,
            m3,
            arr@,
            lo as int,
            s1 as int,
            s2 as int,
            s3 as int,
            hi as int,
        );
    }
}

/// Four-pivot single-pass partitioning of `arr[lo..hi)`: four sampled
/// pivots are ordered by a fixed network, three zone cursors grow from the
/// left and two from the right, and elements crossing several zone
/// boundaries travel by cyclic rotations of up to five positions. Returns
/// the four final pivot positions.
#[verifier::rlimit(100)]
fn quad_pivot_partition(arr: &mut Vec<u32>, lo: usize, hi: usize) -> (r: (usize, usize, usize,
    usize))
    requires
        lo + 6 <= hi,
        hi <= old(arr).len(),
    ensures
        lo <= r.0 < r.1 < r.2 < r.3 < hi,
        final(arr)@.len() == old(arr)@.len(),
        range_frame(old(arr)@, final(arr)@, lo as int, hi as int),
        final(arr)@[r.0 as int] <= final(arr)@[r.1 as int],
        final(arr)@[r.1 as int] <= final(arr)@[r.2 as int],
        final(arr)@[r.2 as int] <= final(arr)@[r.3 as int],
        forall|k: int| lo <= k < r.0 ==> #[trigger] final(arr)@[k] <= final(arr)@[r.0 as int],
        forall|k: int|
            r.0 < k < r.1 ==> final(arr)@[r.0 as int] <= #[trigger] final(arr)@[k]
                && final(arr)@[k] <= final(arr)@[r.1 as int],
        forall|k: int|
            r.1 < k < r.2 ==> final(arr)@[r.1 as int] <= #[trigger] final(arr)@[k]
                && final(arr)@[k] <= final(arr)@[r.2 as int],
        forall|k: int|
            r.2 < k < r.3 ==> final(arr)@[r.2 as int] <= #[trigger] final(arr)@[k]
                && final(arr)@[k] <= final(arr)@[r.3 as int],
        forall|k: int| r.3 < k < hi ==> #[trigger] final(arr)@[k] >= final(arr)@[r.3 as int],
{
    if arr[lo] > arr[lo + 1] {
        swap(arr, lo, lo + 1);
    }
    if arr[lo + 1] > arr[hi - 2] {
        swap(arr, lo + 1, hi - 2);
    }
    if arr[hi - 2] > arr[hi - 1] {
        swap(arr, hi - 2, hi - 1);
    }
    if arr[lo] > arr[lo + 1] {
        swap(arr, lo, lo + 1);
    }
    if arr[lo + 1] > arr[hi - 2] {
        swap(arr, lo + 1, hi - 2);
    }
    if arr[lo] > arr[lo + 1] {
        swap(arr, lo, lo + 1);
    }
    let p1 = arr[lo];
    let p2 = arr[lo + 1];
    let p3 = arr[hi - 2];
    let p4 = arr[hi - 1];
    let mut i: usize = lo + 2;
    let mut j: usize = lo + 2;
    let mut k: usize = lo + 2;
    let mut l: usize = hi - 3;
    let mut m: usize = hi - 3;
    while k <= l
        invariant
            lo + 2 <= i <= j <= k,
            k <= l + 2,
            j <= l + 1,
            lo + 1 <= l <= m,
            m <= hi - 3,
            lo + 6 <= hi <= arr.len(),
            arr.len() == old(arr).len(),
            p1 == arr@[lo as int],
            p2 == arr@[lo + 1],
            p3 == arr@[hi - 2],
            p4 == arr@[hi - 1],
            p1 <= p2 <= p3 <= p4,
            range_frame(old(arr)@, arr@, lo as int, hi as int),
            forall|q: int| lo + 2 <= q < i ==> arr@[q] <= p1,
            forall|q: int| i <= q < j ==> p1 <= arr@[q] && arr@[q] <= p2,
            forall|q: int| j <= q < k && q <= l ==> p2 <= arr@[q] && arr@[q] <= p3,
            forall|q: int| l < q < k ==> p3 <= arr@[q] && arr@[q] <= p4,
            forall|q: int| l < q <= m ==> p3 <= arr@[q] && arr@[q] <= p4,
            forall|q: int| m < q <= hi - 3 ==> arr@[q] >= p4,
        decreases l + 2 - k,
    {
        let ghost k0 = k;
        let ghost l0 = l;
        while arr[k] < p3
            invariant
                k0 <= k,
                lo + 2 <= i <= j <= k,
                k <= l + 1,
                j <= l + 1,
                lo + 1 <= l <= m <= hi - 3,
                lo + 6 <= hi <= arr.len(),
                arr.len() == old(arr).len(),
                p1 == arr@[lo as int],
                p2 == arr@[lo + 1],
                p3 == arr@[hi - 2],
                p4 == arr@[hi - 1],
                p1 <= p2 <= p3 <= p4,
                range_frame(old(arr)@, arr@, lo as int, hi as int),
                forall|q: int| lo + 2 <= q < i ==> arr@[q] <= p1,
                forall|q: int| i <= q < j ==> p1 <= arr@[q] && arr@[q] <= p2,
                forall|q: int| j <= q < k && q <= l ==> p2 <= arr@[q] && arr@[q] <= p3,
                forall|q: int| l < q <= m ==> p3 <= arr@[q] && arr@[q] <= p4,
                forall|q: int| m < q <= hi - 3 ==> arr@[q] >= p4,
            decreases l + 1 - k,
        {
            assert(k <= l);
            if arr[k] < p1 {
                if i == j && j == k {
                } else if i == j {
                    swap(arr, j, k);
                } else if j == k {
                    swap(arr, i, k);
                } else {
                    rotate3(arr, [k, j, i]);
                }
                i += 1;
                j += 1;
            } else if arr[k] < p2 {
                swap(arr, k, j);
                j += 1;
            }
            k += 1;
        }
        while arr[l] > p3
            invariant
                l <= l0,
                lo + 2 <= i <= j <= k,
                k - 1 <= l,
                j <= l + 1,
                lo + 1 <= l <= m <= hi - 3,
                lo + 6 <= hi <= arr.len(),
                arr.len() == old(arr).len(),
                p3 <= arr@[k as int],
                p1 == arr@[lo as int],
                p2 == arr@[lo + 1],
                p3 == arr@[hi - 2],
                p4 == arr@[hi - 1],
                p1 <= p2 <= p3 <= p4,
                range_frame(old(arr)@, arr@, lo as int, hi as int),
                forall|q: int| lo + 2 <= q < i ==> arr@[q] <= p1,
                forall|q: int| i <= q < j ==> p1 <= arr@[q] && arr@[q] <= p2,
                forall|q: int| j <= q < k && q <= l ==> p2 <= arr@[q] && arr@[q] <= p3,
                forall|q: int| l < q < k ==> p3 <= arr@[q] && arr@[q] <= p4,
                forall|q: int| l < q <= m ==> p3 <= arr@[q] && arr@[q] <= p4,
                forall|q: int| m < q <= hi - 3 ==> arr@[q] >= p4,
            decreases l,
        {
            assert(l >= k);
            if arr[l] > p4 {
                swap(arr, l, m);
                m -= 1;
            }
            l -= 1;
        }
        if k <= l {
            if arr[k] < p4 {
                if arr[l] < p1 {
                    assert(k < l);
                    if i == j && j == k {
                        swap(arr, k, l);
                    } else if i == j {
                        rotate3(arr, [k, j, l]);
                    } else if j == k {
                        rotate3(arr, [k, i, l]);
                    } else {
                        rotate4(arr, [k, j, i, l]);
                    }
                    i += 1;
                    j += 1;
                } else if arr[l] < p2 {
                    assert(k < l);
                    if j == k {
                        swap(arr, k, l);
                    } else {
                        rotate3(arr, [k, j, l]);
                    }
                    j += 1;
                } else {
                    swap(arr, k, l);
                }
            } else {
                if arr[l] > p2 {
                    if k == l && l == m {
                    } else if k == l {
                        swap(arr, k, m);
                    } else if l == m {
                        swap(arr, k, l);
                    } else {
                        rotate3(arr, [k, l, m]);
                    }
                    m -= 1;
                } else if arr[l] > p1 {
                    if k == l {
                    } else {
                        if j == k && l == m {
                            swap(arr, k, l);
                        } else if j == k {
                            rotate3(arr, [k, l, m]);
                        } else if l == m {
                            rotate3(arr, [k, j, l]);
                        } else {
                            rotate4(arr, [k, j, l, m]);
                        }
                        j += 1;
                        m -= 1;
                    }
                } else {
                    if k == l {
                    } else {
                        if i == j && j == k && l == m {
                            swap(arr, k, l);
                        } else if i == j && j == k {
                            rotate3(arr, [k, l, m]);
                        } else if i == j && l == m {
                            rotate3(arr, [k, j, l]);
                        } else if j == k && l == m {
                            rotate3(arr, [k, i, l]);
                        } else if i == j {
                            rotate4(arr, [k, j, l, m]);
                        } else if j == k {
                            rotate4(arr, [k, i, l, m]);
                        } else if l == m {
                            rotate4(arr, [k, j, i, l]);
                        } else {
                            rotate5(arr, [k, j, i, l, m]);
                        }
                        i += 1;
                        j += 1;
                        m -= 1;
                    }
                }
            }
            k += 1;
            l -= 1;
        }
    }
    quad_place_pivots(arr, lo, hi, i, j, k, l, m)
}

/// Final pivot placement for [`quad_pivot_partition`]: with the scan
/// converged (`k` just past `l`), moves the four pivots from the sampling
/// cells to the zone boundaries by bounded rotations and returns their
/// positions.
#[verifier::rlimit(100)]
fn quad_place_pivots(
    arr: &mut Vec<u32>,
    lo: usize,
    hi: usize,
    i0: usize,
    j0: usize,
    k: usize,
    l0: usize,
    m0: usize,
) -> (r: (usize, usize, usize, usize))
    requires
        lo + 6 <= hi <= old(arr).len(),
        lo + 2 <= i0 <= j0 <= k,
        l0 < k <= l0 + 2,
        j0 <= l0 + 1,
        lo + 1 <= l0 <= m0,
        m0 <= hi - 3,
        old(arr)@[lo as int] <= old(arr)@[lo + 1],
        old(arr)@[lo + 1] <= old(arr)@[hi - 2],
        old(arr)@[hi - 2] <= old(arr)@[hi - 1],
        forall|q: int| lo + 2 <= q < i0 ==> #[trigger] old(arr)@[q] <= old(arr)@[lo as int],
        forall|q: int|
            i0 <= q < j0 ==> old(arr)@[lo as int] <= #[trigger] old(arr)@[q] && old(arr)@[q]
                <= old(arr)@[lo + 1],
        forall|q: int|
            j0 <= q < k && q <= l0 ==> old(arr)@[lo + 1] <= #[trigger] old(arr)@[q]
                && old(arr)@[q] <= old(arr)@[hi - 2],
        forall|q: int|
            l0 < q < k ==> old(arr)@[hi - 2] <= #[trigger] old(arr)@[q] && old(arr)@[q]
                <= old(arr)@[hi - 1],
        forall|q: int|
            l0 < q <= m0 ==> old(arr)@[hi - 2] <= #[trigger] old(arr)@[q] && old(arr)@[q]
                <= old(arr)@[hi - 1],
        forall|q: int| m0 < q <= hi - 3 ==> #[trigger] old(arr)@[q] >= old(arr)@[hi - 1],
    ensures
        lo <= r.0 < r.1 < r.2 < r.3 < hi,
        final(arr)@.len() == old(arr)@.len(),
        range_frame(old(arr)@, final(arr)@, lo as int, hi as int),
        final(arr)@[r.0 as int] <= final(arr)@[r.1 as int],
        final(arr)@[r.1 as int] <= final(arr)@[r.2 as int],
        final(arr)@[r.2 as int] <= final(arr)@[r.3 as int],
        forall|q: int| lo <= q < r.0 ==> #[trigger] final(arr)@[q] <= final(arr)@[r.0 as int],
        forall|q: int|
            r.0 < q < r.1 ==> final(arr)@[r.0 as int] <= #[trigger] final(arr)@[q]
                && final(arr)@[q] <= final(arr)@[r.1 as int],
        forall|q: int|
            r.1 < q < r.2 ==> final(arr)@[r.1 as int] <= #[trigger] final(arr)@[q]
                && final(arr)@[q] <= final(arr)@[r.2 as int],
        forall|q: int|
            r.2 < q < r.3 ==> final(arr)@[r.2 as int] <= #[trigger] final(arr)@[q]
                && final(arr)@[q] <= final(arr)@[r.3 as int],
        forall|q: int| r.3 < q < hi ==> #[trigger] final(arr)@[q] >= final(arr)@[r.3 as int],
{
    let mut i = i0;
    let mut j = j0;
    let mut l = l0;
    let mut m = m0;
    i -= 1;
    j -= 1;
    l += 1;
    m += 1;
    if lo + 1 < i && i < j {
        rotate3(arr, [lo + 1, i, j]);
    } else if lo + 1 == i && i < j {
        swap(arr, lo + 1, j);
    } else if lo + 1 < i && i == j {
        swap(arr, lo + 1, i);
    }
    i -= 1;
    swap(arr, lo, i);
    if l < m && m < hi - 2 {
        rotate3(arr, [hi - 2, m, l]);
    } else if l < m && m == hi - 2 {
        swap(arr, hi - 2, l);
    } else if l == m && m < hi - 2 {
        swap(arr, hi - 2, m);
    }
    m += 1;
    swap(arr, hi - 1, m);
    (i, j, l, m)
}

/// In-place quicksort of the whole vector with four-pivot partitioning.
pub fn quad_pivot_quicksort(arr: &mut Vec<u32>)
    ensures
        final(arr)@.len() == old(arr)@.len(),
        final(arr)@.to_multiset() == old(arr)@.to_multiset(),
        sorted(final(arr)@),
{
    let n = arr.len();
    quad_pivot_sort_range(arr, 0, n);
}

/// The recursive driver behind [`quad_pivot_quicksort`].
fn quad_pivot_sort_range(arr: &mut Vec<u32>, lo: usize, hi: usize)
    requires
        lo <= hi <= old(arr).len(),
    ensures
        final(arr)@.len() == old(arr)@.len(),
        range_frame(old(arr)@, final(arr)@, lo as int, hi as int),
        sorted_between(final(arr)@, lo as int, hi as int),
    decreases hi - lo,
{
    if hi - lo < 2 {
        return ;
    }
    if hi - lo < INSERTION_SORT_THRESHOLD {
        insertion_sort(arr, lo, hi - 1);
        return ;
    }
    let (s1, s2, s3, s4) = quad_pivot_partition(arr, lo, hi);
    let ghost pre = arr@;
    quad_pivot_sort_range(arr, lo, s1);
    let ghost m1 = arr@;
    quad_pivot_sort_range(arr, s1 + 1, s2);
    let ghost m2 = arr@;
    quad_pivot_sort_range(arr, s2 + 1, s3);
    let ghost m3 = arr@;
    quad_pivot_sort_range(arr, s3 + 1, s4);
    let ghost m4 = arr@;
    quad_pivot_sort_range(arr, s4 + 1, hi);
    proof {
        lemma_quad_pivot_stitch(
            pre,
            m1,
            m2,
            m3,
            m4,
            arr@,
            lo as int,
            s1 as int,
            s2 as int,
            s3 as int,
            s4 as int,
            hi as int,
        );
    }
}

/// Cache-blocked double-pivot partitioning of `arr[lo..hi)` with two-ended
/// offset staging: each block is scanned once, the offsets of elements below
/// `p1` and of elements between the pivots are staged separately, and the
/// staged elements are then drained in ascending offset order, travelling
/// across both zone boundaries by cyclic rotation where needed.
#[verifier::rlimit(100)]
fn double_pivot_new_block_partition(arr: &mut Vec<u32>, lo: usize, hi: usize) -> (r: (usize,
    usize))
    requires
        lo + 2 <= hi,
        hi <= old(arr).len(),
    ensures
        lo <= r.0 < r.1 < hi,
        final(arr)@.len() == old(arr)@.len(),
        range_frame(old(arr)@, final(arr)@, lo as int, hi as int),
        final(arr)@[r.0 as int] <= final(arr)@[r.1 as int],
        forall|k: int| lo <= k < r.0 ==> #[trigger] final(arr)@[k] <= final(arr)@[r.0 as int],
        forall|k: int|
            r.0 < k < r.1 ==> final(arr)@[r.0 as int] <= #[trigger] final(arr)@[k]
                && final(arr)@[k] <= final(arr)@[r.1 as int],
        forall|k: int| r.1 < k < hi ==> #[trigger] final(arr)@[k] >= final(arr)@[r.1 as int],
{
    if arr[lo] > arr[hi - 1] {
        swap(arr, lo, hi - 1);
    }
    let p1 = arr[lo];
    let p2 = arr[hi - 1];
    let mut i: usize = lo + 1;
    let mut j: usize = lo + 1;
    let mut k: usize = lo + 1;
    while k < hi - 1
        invariant
            lo + 1 <= i <= j <= k <= hi - 1,
            lo + 2 <= hi <= arr.len(),
            arr.len() == old(arr).len(),
            p1 == arr@[lo as int],
            p2 == arr@[hi - 1],
            p1 <= p2,
            range_frame(old(arr)@, arr@, lo as int, hi as int),
            forall|m: int| lo < m < i ==> arr@[m] < p1,
            forall|m: int| i <= m < j ==> p1 <= arr@[m] && arr@[m] < p2,
            forall|m: int| j <= m < k ==> arr@[m] >= p2,
        decreases hi - 1 - k,
    {
        let bt = if BLOCK < hi - 1 - k {
            BLOCK
        } else {
            hi - 1 - k
        };
        let mut offs1: Vec<usize> = Vec::new();
        let mut offs2: Vec<usize> = Vec::new();
        let mut m: usize = 0;
        while m < bt
            invariant
                m <= bt,
                bt <= hi - 1 - k,
                lo + 1 <= k <= hi - 1,
                hi <= arr.len(),
                offs1@.len() + offs2@.len() <= m,
                forall|u: int| 0 <= u < offs1@.len() ==> #[trigger] offs1@[u] < m,
                forall|u: int| 0 <= u < offs2@.len() ==> #[trigger] offs2@[u] < m,
                forall|u1: int, u2: int|
                    0 <= u1 < u2 < offs1@.len() ==> offs1@[u1] < offs1@[u2],
                forall|u1: int, u2: int|
                    0 <= u1 < u2 < offs2@.len() ==> offs2@[u1] < offs2@[u2],
                forall|u: int|
                    0 <= u < offs1@.len() ==> arr@[k + #[trigger] offs1@[u]] < p1,
                forall|u: int|
                    0 <= u < offs2@.len() ==> p1 <= arr@[k + #[trigger] offs2@[u]]
                        && arr@[k + offs2@[u]] < p2,
                forall|q: int|
                    k <= q < k + m && !staged_at(offs1@, 0, k as int, q) && !staged_at(
                        offs2@,
                        0,
                        k as int,
                        q,
                    ) ==> arr@[q] >= p2,
            decreases bt - m,
        {
            let ghost o1 = offs1@;
            let ghost o2 = offs2@;
            let v = arr[k + m];
            if v < p1 {
                offs1.push(m);
            } else if v < p2 {
                offs2.push(m);
            }
            proof {
                assert forall|q: int|
                    k <= q < k + m + 1 && !staged_at(offs1@, 0, k as int, q) && !staged_at(
                        offs2@,
                        0,
                        k as int,
                        q,
                    ) implies arr@[q] >= p2 by {
                    if q < k + m {
                        assert(!staged_at(o1, 0, k as int, q)) by {
                            if staged_at(o1, 0, k as int, q) {
                                let u = choose|u: int| 0 <= u < o1.len() && k + o1[u] == q;
                                assert(offs1@[u] == o1[u]);
                                assert(staged_at(offs1@, 0, k as int, q));
                            }
                        }
                        assert(!staged_at(o2, 0, k as int, q)) by {
                            if staged_at(o2, 0, k as int, q) {
                                let u = choose|u: int| 0 <= u < o2.len() && k + o2[u] == q;
                                assert(offs2@[u] == o2[u]);
                                assert(staged_at(offs2@, 0, k as int, q));
                            }
                        }
                    } else {
                        if v < p1 {
                            assert(offs1@[offs1@.len() - 1] == m);
                            assert(staged_at(offs1@, 0, k as int, q));
                        } else if v < p2 {
                            assert(offs2@[offs2@.len() - 1] == m);
                            assert(staged_at(offs2@, 0, k as int, q));
                        }
                    }
                }
            }
            m += 1;
        }
        let n1 = offs1.len();
        let n2 = offs2.len();
        let mut t1: usize = 0;
        let mut t2: usize = 0;
        let mut lp: usize = 0;
        while t1 < n1 || t2 < n2
            invariant
                t1 <= n1,
                t2 <= n2,
                n1 == offs1@.len(),
                n2 == offs2@.len(),
                lp == t1 + t2,
                n1 + n2 <= bt,
                bt <= hi - 1 - k,
                lo + 1 <= i <= j,
                j <= k + lp,
                lo + 1 <= k <= hi - 1,
                lo + 2 <= hi <= arr.len(),
                arr.len() == old(arr).len(),
                p1 == arr@[lo as int],
                p2 == arr@[hi - 1],
                p1 <= p2,
                range_frame(old(arr)@, arr@, lo as int, hi as int),
                forall|m2: int| lo < m2 < i ==> arr@[m2] < p1,
                forall|m2: int| i <= m2 < j ==> p1 <= arr@[m2] && arr@[m2] < p2,
                forall|m2: int| j <= m2 < k + lp ==> arr@[m2] >= p2,
                forall|u: int|
                    t1 <= u < n1 ==> lp <= #[trigger] offs1@[u] < bt,
                forall|u: int|
                    t2 <= u < n2 ==> lp <= #[trigger] offs2@[u] < bt,
                forall|u1: int, u2: int|
                    t1 <= u1 < u2 < n1 ==> offs1@[u1] < offs1@[u2],
                forall|u1: int, u2: int|
                    t2 <= u1 < u2 < n2 ==> offs2@[u1] < offs2@[u2],
                forall|u: int|
                    t1 <= u < n1 ==> arr@[k + #[trigger] offs1@[u]] < p1,
                forall|u: int|
                    t2 <= u < n2 ==> p1 <= arr@[k + #[trigger] offs2@[u]]
                        && arr@[k + offs2@[u]] < p2,
                forall|q: int|
                    k + lp <= q < k + bt && !staged_at(offs1@, t1 as int, k as int, q)
                        && !staged_at(offs2@, t2 as int, k as int, q) ==> arr@[q] >= p2,
            decreases n1 + n2 - t1 - t2,
        {
            let ghost prev = arr@;
            let from_first = if t2 == n2 {
                true
            } else if t1 == n1 {
                false
            } else {
                offs1[t1] < offs2[t2]
            };
            if from_first {
                let off = offs1[t1];
                let a = k + off;
                let b = k + lp;
                assert(arr@[a as int] < p1);
                assert(b <= a);
                if i == a {
                } else if (i == j && j == b) || (j == b && b == a) || (i == j && b == a) {
                    swap(arr, a, i);
                } else if b == a || j == b {
                    rotate3(arr, [a, j, i]);
                } else if i == j {
                    rotate3(arr, [a, b, j]);
                } else {
                    rotate4(arr, [a, b, j, i]);
                }
                proof {
                    assert(arr@[i as int] < p1);
                    assert forall|u: int|
                        t1 + 1 <= u < n1 implies arr@[k + #[trigger] offs1@[u]] < p1 by {
                        assert(offs1@[t1 as int] < offs1@[u]);
                        assert(arr@[k + offs1@[u]] == prev[k + offs1@[u]]);
                    }
                    assert forall|u: int|
                        t2 <= u < n2 implies p1 <= arr@[k + #[trigger] offs2@[u]] && arr@[k
                            + offs2@[u]] < p2 by {
                        assert(k + offs2@[u] != a) by {
                            assert(prev[k + offs2@[u]] >= p1);
                        }
                        assert(k + offs2@[u] != b) by {
                            if k + offs2@[u] == b {
                                assert(offs2@[u] == lp);
                                assert(offs1@[t1 as int] >= lp);
                                assert(off == lp ==> a == b);
                                assert(prev[b as int] >= p1 || b == a);
                            }
                        }
                        assert(arr@[k + offs2@[u]] == prev[k + offs2@[u]]);
                    }
                    assert forall|q: int|
                        k + lp + 1 <= q < k + bt && !staged_at(offs1@, t1 + 1, k as int, q)
                            && !staged_at(offs2@, t2 as int, k as int, q) implies arr@[q]
                        >= p2 by {
                        if q == a {
                            assert(prev[b as int] >= p2 || b == a) by {
                                if b != a {
                                    assert(!staged_at(offs1@, t1 as int, k as int, b as int))
                                        by {
                                        if staged_at(offs1@, t1 as int, k as int, b as int) {
                                            let u = choose|u: int|
                                                t1 <= u < n1 && k + offs1@[u] == b;
                                            assert(offs1@[u] >= lp);
                                            assert(offs1@[u] == lp);
                                            assert(u == t1);
                                            assert(a == b);
                                        }
                                    }
                                    assert(!staged_at(offs2@, t2 as int, k as int, b as int))
                                        by {
                                        if staged_at(offs2@, t2 as int, k as int, b as int) {
                                            let u = choose|u: int|
                                                t2 <= u < n2 && k + offs2@[u] == b;
                                            assert(prev[b as int] < p2 && prev[b as int]
                                                >= p1);
                                            assert(prev[b as int] < p1 || b == a);
                                        }
                                    }
                                }
                            }
                        } else {
                            assert(arr@[q] == prev[q]);
                            if staged_at(offs1@, t1 as int, k as int, q) {
                                let u = choose|u: int|
                                    t1 <= u < n1 && k + offs1@[u] == q;
                                assert(u == t1);
                                assert(false);
                            }
                        }
                    }
                    assert forall|m2: int|
                        j + 1 <= m2 < k + lp + 1 implies arr@[m2] >= p2 by {
                        if m2 == k + lp {
                            assert(j < k + lp);
                            assert(arr@[m2] == prev[j as int] || arr@[m2] == prev[m2]);
                        } else {
                            assert(arr@[m2] == prev[m2]);
                        }
                    }
                }
                i += 1;
                j += 1;
                t1 += 1;
            } else {
                let off = offs2[t2];
                let a = k + off;
                assert(p1 <= arr@[a as int] && arr@[a as int] < p2);
                assert(j <= a);
                swap(arr, a, j);
                proof {
                    assert(p1 <= arr@[j as int] && arr@[j as int] < p2);
                    assert forall|u: int|
                        t2 + 1 <= u < n2 implies p1 <= arr@[k + #[trigger] offs2@[u]] && arr@[k
                            + offs2@[u]] < p2 by {
                        assert(offs2@[t2 as int] < offs2@[u]);
                        assert(k + offs2@[u] != a);
                        assert(k + offs2@[u] != j) by {
                            assert(k + offs2@[u] >= k + lp + 1);
                        }
                        assert(arr@[k + offs2@[u]] == prev[k + offs2@[u]]);
                    }
                    assert forall|u: int|
                        t1 <= u < n1 implies arr@[k + #[trigger] offs1@[u]] < p1 by {
                        assert(k + offs1@[u] != a) by {
                            assert(prev[k + offs1@[u]] < p1);
                        }
                        assert(k + offs1@[u] != j) by {
                            assert(k + offs1@[u] >= k + lp);
                            if k + offs1@[u] == j {
                                assert(j == k + lp);
                                assert(offs1@[u] == lp);
                                assert(prev[j as int] < p1);
                                assert(prev[a as int] >= p1);
                                assert(a != j);
                            }
                        }
                        assert(arr@[k + offs1@[u]] == prev[k + offs1@[u]]);
                    }
                    assert forall|q: int|
                        k + lp + 1 <= q < k + bt && !staged_at(offs1@, t1 as int, k as int, q)
                            && !staged_at(offs2@, t2 + 1, k as int, q) implies arr@[q]
                        >= p2 by {
                        if q == a {
                            if j == k + lp && j != a {
                                assert(!staged_at(offs1@, t1 as int, k as int, j as int)) by {
                                    if staged_at(offs1@, t1 as int, k as int, j as int) {
                                        let u = choose|u: int|
                                            t1 <= u < n1 && k + offs1@[u] == j;
                                        assert(offs1@[u] == lp);
                                        assert(u == t1);
                                        assert(offs1@[t1 as int] >= offs2@[t2 as int]);
                                        assert(j == a);
                                    }
                                }
                                assert(!staged_at(offs2@, t2 as int, k as int, j as int)) by {
                                    if staged_at(offs2@, t2 as int, k as int, j as int) {
                                        let u = choose|u: int|
                                            t2 <= u < n2 && k + offs2@[u] == j;
                                        assert(offs2@[u] == lp);
                                        assert(u == t2);
                                        assert(a == j);
                                    }
                                }
                                assert(prev[j as int] >= p2);
                            }
                        } else {
                            assert(arr@[q] == prev[q]);
                            if staged_at(offs2@, t2 as int, k as int, q) {
                                let u = choose|u: int|
                                    t2 <= u < n2 && k + offs2@[u] == q;
                                assert(u == t2);
                                assert(false);
                            }
                        }
                    }
                    assert forall|m2: int|
                        j + 1 <= m2 < k + lp + 1 implies arr@[m2] >= p2 by {
                        if m2 == k + lp {
                            if k + lp == a {
                                assert(j < a);
                                assert(arr@[m2] == prev[j as int]);
                            } else {
                                assert(arr@[m2] == prev[m2]);
                                assert(!staged_at(offs1@, t1 as int, k as int, m2)) by {
                                    if staged_at(offs1@, t1 as int, k as int, m2) {
                                        let u = choose|u: int|
                                            t1 <= u < n1 && k + offs1@[u] == m2;
                                        assert(offs1@[u] == lp);
                                        assert(offs1@[u] >= offs2@[t2 as int]);
                                        assert(off == lp);
                                        assert(false);
                                    }
                                }
                                assert(!staged_at(offs2@, t2 as int, k as int, m2)) by {
                                    if staged_at(offs2@, t2 as int, k as int, m2) {
                                        let u = choose|u: int|
                                            t2 <= u < n2 && k + offs2@[u] == m2;
                                        assert(offs2@[u] == lp);
                                        assert(u == t2 || offs2@[u] > offs2@[t2 as int]);
                                        assert(false);
                                    }
                                }
                            }
                        } else {
                            assert(arr@[m2] == prev[m2]);
                        }
                    }
                }
                j += 1;
                t2 += 1;
            }
            lp += 1;
        }
        proof {
            assert forall|q: int| j <= q < k + bt implies arr@[q] >= p2 by {
                if q >= k + lp {
                    if staged_at(offs1@, t1 as int, k as int, q) {
                        let u = choose|u: int| t1 <= u < n1 && k + offs1@[u] == q;
                        assert(false);
                    }
                    if staged_at(offs2@, t2 as int, k as int, q) {
                        let u = choose|u: int| t2 <= u < n2 && k + offs2@[u] == q;
                        assert(false);
                    }
                }
            }
        }
        k += bt;
    }
    swap(arr, i - 1, lo);
    swap(arr, j, hi - 1);
    (i - 1, j)
}

/// In-place quicksort of the whole vector with the two-ended staged block
/// double-pivot partitioning.
pub fn double_pivot_quicksort_new_partition_block(arr: &mut Vec<u32>)
    ensures
        final(arr)@.len() == old(arr)@.len(),
        final(arr)@.to_multiset() == old(arr)@.to_multiset(),
        sorted(final(arr)@),
{
    let n = arr.len();
    double_pivot_new_block_sort_range(arr, 0, n);
}

/// The recursive driver behind
/// [`double_pivot_quicksort_new_partition_block`].
fn double_pivot_new_block_sort_range(arr: &mut Vec<u32>, lo: usize, hi: usize)
    requires
        lo <= hi <= old(arr).len(),
    ensures
        final(arr)@.len() == old(arr)@.len(),
        range_frame(old(arr)@, final(arr)@, lo as int, hi as int),
        sorted_between(final(arr)@, lo as int, hi as int),
    decreases hi - lo,
{
    if hi - lo < 2 {
        return ;
    }
    if hi - lo < INSERTION_SORT_THRESHOLD {
        insertion_sort(arr, lo, hi - 1);
        return ;
    }
    let (s1, s2) = double_pivot_new_block_partition(arr, lo, hi);
    let ghost pre = arr@;
    double_pivot_new_block_sort_range(arr, lo, s1);
    let ghost m1 = arr@;
    double_pivot_new_block_sort_range(arr, s1 + 1, s2);
    let ghost m2 = arr@;
    double_pivot_new_block_sort_range(arr, s2 + 1, hi);
    proof {
        lemma_double_pivot_stitch(pre, m1, m2, arr@, lo as int, s1 as int, s2 as int, hi as int);
    }
}

} // verus!

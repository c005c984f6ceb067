//! Single-pivot quicksort strategies: Lomuto and Hoare partitioning, each in
//! a plain swap-per-comparison form and a cache-blocked form, together with
//! the insertion-sort fallback every driver uses below the size threshold.

use crate::perm::{
    lemma_single_pivot_stitch, lemma_split_stitch, range_frame, sorted, sorted_between,
};
use crate::util::swap;
use crate::INSERTION_SORT_THRESHOLD;
use vstd::prelude::*;

verus! {

/// Sorts `arr[left..=right]` in place by pairwise adjacent comparisons and
/// shifts. This is the fallback for ranges below
/// [`INSERTION_SORT_THRESHOLD`]; it accepts any range.
pub fn insertion_sort(arr: &mut Vec<u32>, left: usize, right: usize)
    requires
        left <= right < old(arr).len(),
    ensures
        final(arr)@.len() == old(arr)@.len(),
        range_frame(old(arr)@, final(arr)@, left as int, right + 1),
        sorted_between(final(arr)@, left as int, right + 1),
{
    let mut i: usize = left + 1;
    while i <= right
        invariant
            left < i <= right + 1,
            right < arr.len(),
            arr.len() == old(arr).len(),
            range_frame(old(arr)@, arr@, left as int, right + 1),
            sorted_between(arr@, left as int, i as int),
        decreases right + 1 - i,
    {
        let mut j: usize = i;
        while j > left && arr[j] < arr[j - 1]
            invariant
                left <= j <= i,
                i <= right,
                right < arr.len(),
                arr.len() == old(arr).len(),
                range_frame(old(arr)@, arr@, left as int, right + 1),
                sorted_between(arr@, left as int, j as int),
                sorted_between(arr@, j as int, i + 1),
                forall|k1: int, k2: int|
                    left <= k1 < j && j < k2 < i + 1 ==> arr@[k1] <= arr@[k2],
            decreases j,
        {
            swap(arr, j, j - 1);
            j -= 1;
        }
        assert(sorted_between(arr@, left as int, i + 1)) by {
            assert forall|k1: int, k2: int|
                left <= k1 <= k2 < i + 1 implies arr@[k1] <= arr@[k2] by {
                if k1 < j && j <= k2 {
                    assert(arr@[k1] <= arr@[j - 1]);
                }
            }
        }
        i += 1;
    }
}

/// The same insertion procedure under the partial-order comparison of the
/// element type, which on totally ordered keys coincides with
/// [`insertion_sort`].
pub fn partial_insertion_sort(arr: &mut Vec<u32>, left: usize, right: usize)
    requires
        left <= right < old(arr).len(),
    ensures
        final(arr)@.len() == old(arr)@.len(),
        range_frame(old(arr)@, final(arr)@, left as int, right + 1),
        sorted_between(final(arr)@, left as int, right + 1),
{
    insertion_sort(arr, left, right);
}

/// Lomuto partitioning of `arr[lo..hi)`: the last element is the pivot, a
/// single accumulator cursor collects the elements at most the pivot, and
/// the pivot is swapped into the split position, which is returned.
fn lomuto_partition(arr: &mut Vec<u32>, lo: usize, hi: usize) -> (s: usize)
    requires
        lo < hi <= old(arr).len(),
    ensures
        lo <= s < hi,
        final(arr)@.len() == old(arr)@.len(),
        range_frame(old(arr)@, final(arr)@, lo as int, hi as int),
        forall|k: int| lo <= k < s ==> final(arr)@[k] <= final(arr)@[s as int],
        forall|k: int| s < k < hi ==> final(arr)@[k] >= final(arr)@[s as int],
{
    let pivot = arr[hi - 1];
    let mut i: usize = lo;
    let mut j: usize = lo;
    while j < hi - 1
        invariant
            lo <= i <= j <= hi - 1,
            lo < hi <= arr.len(),
            arr.len() == old(arr).len(),
            pivot == arr@[hi - 1],
            range_frame(old(arr)@, arr@, lo as int, hi as int),
            forall|k: int| lo <= k < i ==> arr@[k] <= pivot,
            forall|k: int| i <= k < j ==> arr@[k] > pivot,
        decreases hi - 1 - j,
    {
        if arr[j] <= pivot {
            swap(arr, i, j);
            i += 1;
        }
        j += 1;
    }
    swap(arr, i, hi - 1);
    i
}

/// In-place quicksort of the whole vector with Lomuto partitioning,
/// recursing into the smaller side of each split first.
pub fn quick_sort_lomuto_partition(arr: &mut Vec<u32>)
    ensures
        final(arr)@.len() == old(arr)@.len(),
        final(arr)@.to_multiset() == old(arr)@.to_multiset(),
        sorted(final(arr)@),
{
    let n = arr.len();
    lomuto_sort_range(arr, 0, n);
}

/// The recursive driver behind [`quick_sort_lomuto_partition`].
fn lomuto_sort_range(arr: &mut Vec<u32>, lo: usize, hi: usize)
    requires
        lo <= hi <= old(arr).len(),
    ensures
        final(arr)@.len() == old(arr)@.len(),
        range_frame(old(arr)@, final(arr)@, lo as int, hi as int),
        sorted_between(final(arr)@, lo as int, hi as int),
    decreases hi - lo,
{
    if hi - lo < 2 {
        return ;
    }
    if hi - lo < INSERTION_SORT_THRESHOLD {
        insertion_sort(arr, lo, hi - 1);
        return ;
    }
    let s = lomuto_partition(arr, lo, hi);
    let ghost pre = arr@;
    if s - lo < hi - (s + 1) {
        lomuto_sort_range(arr, lo, s);
        let ghost m1 = arr@;
        lomuto_sort_range(arr, s + 1, hi);
        proof {
            lemma_single_pivot_stitch(pre, m1, arr@, lo as int, s as int, hi as int, true);
        }
    } else {
        lomuto_sort_range(arr, s + 1, hi);
        let ghost m1 = arr@;
        lomuto_sort_range(arr, lo, s);
        proof {
            lemma_single_pivot_stitch(pre, m1, arr@, lo as int, s as int, hi as int, false);
        }
    }
}

/// Hoare partitioning of `arr[lo..hi)`: the first element is the pivot,
/// two cursors converge from the ends, and elements on the wrong side are
/// exchanged. Returns the split position together with the pivot value the
/// two sides are separated by; the pivot itself is not placed.
fn hoare_partition(arr: &mut Vec<u32>, lo: usize, hi: usize) -> (r: (usize, Ghost<u32>))
    requires
        lo < hi <= old(arr).len(),
        hi - lo >= 2,
    ensures
        lo < r.0 < hi,
        final(arr)@.len() == old(arr)@.len(),
        range_frame(old(arr)@, final(arr)@, lo as int, hi as int),
        forall|k: int| lo <= k < r.0 ==> final(arr)@[k] <= r.1@,
        forall|k: int| r.0 <= k < hi ==> final(arr)@[k] >= r.1@,
{
    let p = arr[lo];
    let mut j: usize = hi - 1;
    while arr[j] > p
        invariant
            lo <= j < hi,
            hi <= arr.len(),
            arr@ == old(arr)@,
            p == arr@[lo as int],
            forall|k: int| j < k < hi ==> arr@[k] > p,
        decreases j,
    {
        assert(j != lo);
        j -= 1;
    }
    if lo >= j {
        return (lo + 1, Ghost(p));
    }
    let mut i: usize = lo;
    swap(arr, i, j);
    loop
        invariant
            lo <= i < j < hi,
            lo < hi <= arr.len(),
            arr.len() == old(arr).len(),
            range_frame(old(arr)@, arr@, lo as int, hi as int),
            forall|k: int| lo <= k <= i ==> arr@[k] <= p,
            forall|k: int| j <= k < hi ==> arr@[k] >= p,
        decreases j - i,
    {
        let ghost i0 = i;
        let ghost j0 = j;
        i += 1;
        while arr[i] < p
            invariant
                i0 < i,
                lo < i <= j < hi,
                hi <= arr.len(),
                arr.len() == old(arr).len(),
                range_frame(old(arr)@, arr@, lo as int, hi as int),
                arr@[j as int] >= p,
                forall|k: int| lo <= k < i ==> arr@[k] <= p,
                forall|k: int| j <= k < hi ==> arr@[k] >= p,
            decreases j - i,
        {
            assert(i != j);
            i += 1;
        }
        assert(j >= 1) by {
            assert(arr@[lo as int] <= p);
        }
        j -= 1;
        while arr[j] > p
            invariant
                j < j0,
                j < hi - 1,
                lo <= j < hi,
                i - 1 <= j,
                lo < i < hi,
                hi <= arr.len(),
                arr.len() == old(arr).len(),
                range_frame(old(arr)@, arr@, lo as int, hi as int),
                arr@[i as int] >= p,
                forall|k: int| lo <= k < i ==> arr@[k] <= p,
                forall|k: int| j < k < hi ==> arr@[k] >= p,
            decreases j,
        {
            assert(j >= i);
            j -= 1;
        }
        if i >= j {
            return (j + 1, Ghost(p));
        }
        swap(arr, i, j);
    }
}

/// In-place quicksort of the whole vector with Hoare partitioning,
/// recursing into the smaller side of each split first.
pub fn quick_sort_hoare_partition(arr: &mut Vec<u32>)
    ensures
        final(arr)@.len() == old(arr)@.len(),
        final(arr)@.to_multiset() == old(arr)@.to_multiset(),
        sorted(final(arr)@),
{
    let n = arr.len();
    hoare_sort_range(arr, 0, n);
}

/// The recursive driver behind [`quick_sort_hoare_partition`].
fn hoare_sort_range(arr: &mut Vec<u32>, lo: usize, hi: usize)
    requires
        lo <= hi <= old(arr).len(),
    ensures
        final(arr)@.len() == old(arr)@.len(),
        range_frame(old(arr)@, final(arr)@, lo as int, hi as int),
        sorted_between(final(arr)@, lo as int, hi as int),
    decreases hi - lo,
{
    if hi - lo < 2 {
        return ;
    }
    if hi - lo < INSERTION_SORT_THRESHOLD {
        insertion_sort(arr, lo, hi - 1);
        return ;
    }
    let (s, pg) = hoare_partition(arr, lo, hi);
    let ghost pre = arr@;
    if s - lo < hi - s {
        hoare_sort_range(arr, lo, s);
        let ghost m1 = arr@;
        hoare_sort_range(arr, s, hi);
        proof {
            lemma_split_stitch(pre, m1, arr@, lo as int, s as int, hi as int, pg@, true);
        }
    } else {
        hoare_sort_range(arr, s, hi);
        let ghost m1 = arr@;
        hoare_sort_range(arr, lo, s);
        proof {
            lemma_split_stitch(pre, m1, arr@, lo as int, s as int, hi as int, pg@, false);
        }
    }
}

/// Size of one cache block in the blocked partitioning strategies: offsets
/// of misplaced elements are staged for a whole block before any of them is
/// moved.
pub(crate) const BLOCK: usize = 128;

/// Position `q` is one of the block offsets `offs[from..]`, shifted by
/// `base`.
pub open spec fn staged_at(offs: Seq<usize>, from: int, base: int, q: int) -> bool {
    exists|u: int| from <= u < offs.len() && base + #[trigger] offs[u] == q
}

/// One cache block of Lomuto-style partitioning: scans
/// `arr[base..base + bt)`, records in an offset staging buffer which
/// positions hold elements below `bound`, then drains the buffer in one
/// cyclic swap pass that moves those elements to `dest..`, displacing
/// elements at least `bound` into the block. Requires everything between
/// `dest` and `base` to be at least `bound`; returns how many elements
/// moved.
pub(crate) fn sweep_block(arr: &mut Vec<u32>, dest: usize, base: usize, bt: usize, bound: u32) -> (num:
    usize)
    requires
        dest <= base,
        base + bt <= old(arr).len(),
        forall|k: int| dest <= k < base ==> old(arr)@[k] >= bound,
    ensures
        num <= bt,
        final(arr)@.len() == old(arr)@.len(),
        range_frame(old(arr)@, final(arr)@, dest as int, base + bt),
        forall|k: int| dest <= k < dest + num ==> final(arr)@[k] < bound,
        forall|k: int| dest + num <= k < base + bt ==> final(arr)@[k] >= bound,
{
    let mut offs: Vec<usize> = Vec::new();
    let mut k: usize = 0;
    while k < bt
        invariant
            k <= bt,
            base + bt <= arr.len(),
            arr@ == old(arr)@,
            offs@.len() <= k,
            forall|t: int| 0 <= t < offs@.len() ==> t <= #[trigger] offs@[t] < k,
            forall|t1: int, t2: int|
                0 <= t1 < t2 < offs@.len() ==> offs@[t1] < offs@[t2],
            forall|t: int|
                0 <= t < offs@.len() ==> arr@[base + #[trigger] offs@[t]] < bound,
            forall|q: int|
                base <= q < base + k && !staged_at(offs@, 0, base as int, q) ==> arr@[q]
                    >= bound,
        decreases bt - k,
    {
        let ghost offs0 = offs@;
        let below = arr[base + k] < bound;
        if below {
            offs.push(k);
        }
        proof {
            assert forall|q: int|
                base <= q < base + k + 1 && !staged_at(offs@, 0, base as int, q) implies arr@[q]
                >= bound by {
                if q < base + k {
                    assert(!staged_at(offs0, 0, base as int, q)) by {
                        if staged_at(offs0, 0, base as int, q) {
                            let u = choose|u: int|
                                0 <= u < offs0.len() && base + offs0[u] == q;
                            assert(offs@[u] == offs0[u]);
                            assert(staged_at(offs@, 0, base as int, q));
                        }
                    }
                } else {
                    assert(q == base + k);
                    if below {
                        assert(offs@[offs@.len() - 1] == k);
                        assert(staged_at(offs@, 0, base as int, q));
                    }
                }
            }
        }
        k += 1;
    }
    let num = offs.len();
    let mut t: usize = 0;
    let mut d: usize = dest;
    proof {
        assert forall|q: int|
            d <= q < base + bt implies (arr@[q] >= bound || staged_at(
            offs@,
            0,
            base as int,
            q,
        )) by {
            if q < base {
                assert(arr@[q] >= bound);
            }
        }
    }
    while t < num
        invariant
            t <= num,
            d == dest + t,
            num == offs@.len(),
            num <= bt,
            dest <= base,
            base + bt <= arr.len(),
            arr.len() == old(arr).len(),
            forall|u: int| 0 <= u < num ==> u <= #[trigger] offs@[u] < bt,
            forall|u1: int, u2: int| 0 <= u1 < u2 < num ==> offs@[u1] < offs@[u2],
            range_frame(old(arr)@, arr@, dest as int, base + bt),
            forall|q: int| dest <= q < d ==> arr@[q] < bound,
            forall|u: int| t <= u < num ==> arr@[base + #[trigger] offs@[u]] < bound,
            forall|q: int|
                d <= q < base + bt ==> (arr@[q] >= bound || staged_at(offs@, t as int, base as int, q)),
        decreases num - t,
    {
        let ghost prev = arr@;
        let off = offs[t];
        assert(d <= base + off);
        swap(arr, d, base + off);
        proof {
            assert forall|u: int| t + 1 <= u < num implies arr@[base + #[trigger] offs@[u]]
                < bound by {
                assert(offs@[t as int] < offs@[u]);
                assert(base + offs@[u] != d);
                assert(base + offs@[u] != base + offs@[t as int]);
            }
            assert(arr@[d as int] < bound);
            if d < base + off {
                assert(prev[d as int] >= bound) by {
                    if staged_at(offs@, t as int, base as int, d as int) {
                        let u = choose|u: int|
                            t <= u < offs@.len() && base + offs@[u] == d as int;
                        assert(offs@[t as int] <= offs@[u]);
                        assert(base + offs@[t as int] <= base + offs@[u]);
                        assert(false);
                    }
                }
                assert(arr@[base + off] >= bound);
            }
            assert forall|q: int|
                d + 1 <= q < base + bt implies (arr@[q] >= bound || staged_at(
                offs@,
                t + 1,
                base as int,
                q,
            )) by {
                if q == base + off {
                } else {
                    assert(arr@[q] == prev[q]);
                    if staged_at(offs@, t as int, base as int, q) {
                        let u = choose|u: int|
                            t <= u < offs@.len() && base + offs@[u] == q;
                        if u == t {
                            assert(q == base + off);
                        } else {
                            assert(staged_at(offs@, t + 1, base as int, q));
                        }
                    }
                }
            }
        }
        d += 1;
        t += 1;
    }
    proof {
        assert forall|q: int| dest + num <= q < base + bt implies arr@[q] >= bound by {
            if staged_at(offs@, num as int, base as int, q) {
                let u = choose|u: int| num <= u < offs@.len() && base + offs@[u] == q;
                assert(false);
            }
        }
    }
    num
}

/// Cache-blocked Lomuto partitioning of `arr[lo..hi)`: the same split as
/// [`quick_sort_lomuto_partition`] computes, produced block by block through
/// the offset staging buffer.
fn lomuto_block_partition(arr: &mut Vec<u32>, lo: usize, hi: usize) -> (s: usize)
    requires
        lo < hi <= old(arr).len(),
    ensures
        lo <= s < hi,
        final(arr)@.len() == old(arr)@.len(),
        range_frame(old(arr)@, final(arr)@, lo as int, hi as int),
        forall|k: int| lo <= k < s ==> final(arr)@[k] <= final(arr)@[s as int],
        forall|k: int| s < k < hi ==> final(arr)@[k] >= final(arr)@[s as int],
{
    let pivot = arr[hi - 1];
    let mut i: usize = lo;
    let mut j: usize = lo;
    while j < hi - 1
        invariant
            lo <= i <= j <= hi - 1,
            lo < hi <= arr.len(),
            arr.len() == old(arr).len(),
            pivot == arr@[hi - 1],
            range_frame(old(arr)@, arr@, lo as int, hi as int),
            forall|k: int| lo <= k < i ==> arr@[k] < pivot,
            forall|k: int| i <= k < j ==> arr@[k] >= pivot,
        decreases hi - 1 - j,
    {
        let bt = if BLOCK < hi - 1 - j {
            BLOCK
        } else {
            hi - 1 - j
        };
        let num = sweep_block(arr, i, j, bt, pivot);
        i += num;
        j += bt;
    }
    swap(arr, i, hi - 1);
    i
}

/// In-place quicksort of the whole vector with cache-blocked Lomuto
/// partitioning, recursing into the smaller side of each split first.
pub fn quick_sort_lomuto_partition_block(arr: &mut Vec<u32>)
    ensures
        final(arr)@.len() == old(arr)@.len(),
        final(arr)@.to_multiset() == old(arr)@.to_multiset(),
        sorted(final(arr)@),
{
    let n = arr.len();
    lomuto_block_sort_range(arr, 0, n);
}

/// The recursive driver behind [`quick_sort_lomuto_partition_block`].
fn lomuto_block_sort_range(arr: &mut Vec<u32>, lo: usize, hi: usize)
    requires
        lo <= hi <= old(arr).len(),
    ensures
        final(arr)@.len() == old(arr)@.len(),
        range_frame(old(arr)@, final(arr)@, lo as int, hi as int),
        sorted_between(final(arr)@, lo as int, hi as int),
    decreases hi - lo,
{
    if hi - lo < 2 {
        return ;
    }
    if hi - lo < INSERTION_SORT_THRESHOLD {
        insertion_sort(arr, lo, hi - 1);
        return ;
    }
    let s = lomuto_block_partition(arr, lo, hi);
    let ghost pre = arr@;
    if s - lo < hi - (s + 1) {
        lomuto_block_sort_range(arr, lo, s);
        let ghost m1 = arr@;
        lomuto_block_sort_range(arr, s + 1, hi);
        proof {
            lemma_single_pivot_stitch(pre, m1, arr@, lo as int, s as int, hi as int, true);
        }
    } else {
        lomuto_block_sort_range(arr, s + 1, hi);
        let ghost m1 = arr@;
        lomuto_block_sort_range(arr, lo, s);
        proof {
            lemma_single_pivot_stitch(pre, m1, arr@, lo as int, s as int, hi as int, false);
        }
    }
}

/// Position `q` is one of the block offsets `offs[from..]`, counted
/// backwards from `rbase`.
pub open spec fn staged_at_rev(offs: Seq<usize>, from: int, rbase: int, q: int) -> bool {
    exists|u: int| from <= u < offs.len() && rbase - #[trigger] offs[u] == q
}

/// Two-sided cache-blocked partitioning of the window `arr[wl..wr)` against
/// `pivot`: offsets of misplaced elements are staged for one block on each
/// side, matched pairs are exchanged in bulk swap passes, and whichever
/// staging buffer still holds offsets at the end is drained against the
/// opposite frontier. Returns how many elements of the window are below the
/// pivot; they end up at its front.
#[verifier::rlimit(100)]
fn partition_in_blocks(arr: &mut Vec<u32>, wl: usize, wr: usize, pivot: u32) -> (count: usize)
    requires
        wl <= wr <= old(arr).len(),
    ensures
        count <= wr - wl,
        final(arr)@.len() == old(arr)@.len(),
        range_frame(old(arr)@, final(arr)@, wl as int, wr as int),
        forall|q: int| wl <= q < wl + count ==> final(arr)@[q] < pivot,
        forall|q: int| wl + count <= q < wr ==> final(arr)@[q] >= pivot,
{
    let mut l = wl;
    let mut r = wr;
    let mut block_l: usize = BLOCK;
    let mut block_r: usize = BLOCK;
    let mut offl: Vec<usize> = Vec::new();
    let mut sl: usize = 0;
    let mut offr: Vec<usize> = Vec::new();
    let mut sr: usize = 0;
    let mut cont: usize = 1;
    while cont == 1
        invariant
            wl <= l <= r <= wr,
            wr <= arr.len(),
            arr.len() == old(arr).len(),
            range_frame(old(arr)@, arr@, wl as int, wr as int),
            cont <= 1,
            sl <= offl@.len(),
            sr <= offr@.len(),
            sl == offl@.len() || sr == offr@.len(),
            cont == 1 ==> (sl < offl@.len() ==> block_l == BLOCK),
            cont == 1 ==> (sr < offr@.len() ==> block_r == BLOCK),
            forall|q: int| wl <= q < l ==> arr@[q] < pivot,
            forall|q: int| r <= q < wr ==> arr@[q] >= pivot,
            sl < offl@.len() ==> block_l <= r - l && 1 <= block_l,
            sl < offl@.len() ==> forall|u: int|
                sl <= u < offl@.len() ==> #[trigger] offl@[u] < block_l,
            sl < offl@.len() ==> forall|u1: int, u2: int|
                sl <= u1 < u2 < offl@.len() ==> offl@[u1] < offl@[u2],
            sl < offl@.len() ==> forall|u: int|
                sl <= u < offl@.len() ==> arr@[l + #[trigger] offl@[u]] >= pivot,
            sl < offl@.len() ==> forall|q: int|
                l <= q < l + block_l && !staged_at(offl@, sl as int, l as int, q) ==> arr@[q]
                    < pivot,
            sr < offr@.len() ==> block_r <= r - l && 1 <= block_r,
            sr < offr@.len() ==> forall|u: int|
                sr <= u < offr@.len() ==> #[trigger] offr@[u] < block_r,
            sr < offr@.len() ==> forall|u1: int, u2: int|
                sr <= u1 < u2 < offr@.len() ==> offr@[u1] < offr@[u2],
            sr < offr@.len() ==> forall|u: int|
                sr <= u < offr@.len() ==> arr@[r - 1 - #[trigger] offr@[u]] < pivot,
            sr < offr@.len() ==> forall|q: int|
                r - block_r <= q < r && !staged_at_rev(offr@, sr as int, r - 1, q) ==> arr@[q]
                    >= pivot,
            cont == 0 ==> (sl < offl@.len() ==> block_l == r - l),
            cont == 0 ==> (sr < offr@.len() ==> block_r == r - l),
            cont == 0 ==> (sl == offl@.len() && sr == offr@.len() ==> l == r),
        decreases r - l + cont,
    {
        let is_done = r - l <= 2 * BLOCK;
        if is_done {
            let rem = r - l;
            if sl < offl.len() {
                block_r = rem - block_l;
            } else if sr < offr.len() {
                block_l = rem - block_r;
            } else {
                block_l = rem / 2;
                block_r = rem - block_l;
            }
        } else {
            if sl == offl.len() {
                block_l = BLOCK;
            }
            if sr == offr.len() {
                block_r = BLOCK;
            }
        }
        assert(block_l + block_r <= r - l);
        if sl == offl.len() {
            offl.clear();
            sl = 0;
            let mut q: usize = 0;
            while q < block_l
                invariant
                    q <= block_l,
                    block_l <= r - l,
                    wl <= l <= r <= wr <= arr.len(),
                    offl@.len() <= q,
                    forall|u: int| 0 <= u < offl@.len() ==> #[trigger] offl@[u] < q,
                    forall|u1: int, u2: int|
                        0 <= u1 < u2 < offl@.len() ==> offl@[u1] < offl@[u2],
                    forall|u: int|
                        0 <= u < offl@.len() ==> arr@[l + #[trigger] offl@[u]] >= pivot,
                    forall|qq: int|
                        l <= qq < l + q && !staged_at(offl@, 0, l as int, qq) ==> arr@[qq]
                            < pivot,
                decreases block_l - q,
            {
                let ghost offl0 = offl@;
                let high = arr[l + q] >= pivot;
                if high {
                    offl.push(q);
                }
                proof {
                    assert forall|qq: int|
                        l <= qq < l + q + 1 && !staged_at(offl@, 0, l as int, qq) implies arr@[qq]
                        < pivot by {
                        if qq < l + q {
                            assert(!staged_at(offl0, 0, l as int, qq)) by {
                                if staged_at(offl0, 0, l as int, qq) {
                                    let u = choose|u: int|
                                        0 <= u < offl0.len() && l + offl0[u] == qq;
                                    assert(offl@[u] == offl0[u]);
                                    assert(staged_at(offl@, 0, l as int, qq));
                                }
                            }
                        } else {
                            if high {
                                assert(offl@[offl@.len() - 1] == q);
                                assert(staged_at(offl@, 0, l as int, qq));
                            }
                        }
                    }
                }
                q += 1;
            }
        }
        if sr == offr.len() {
            offr.clear();
            sr = 0;
            let mut q: usize = 0;
            while q < block_r
                invariant
                    q <= block_r,
                    block_r <= r - l,
                    wl <= l <= r <= wr <= arr.len(),
                    offr@.len() <= q,
                    forall|u: int| 0 <= u < offr@.len() ==> #[trigger] offr@[u] < q,
                    forall|u1: int, u2: int|
                        0 <= u1 < u2 < offr@.len() ==> offr@[u1] < offr@[u2],
                    forall|u: int|
                        0 <= u < offr@.len() ==> arr@[r - 1 - #[trigger] offr@[u]] < pivot,
                    forall|qq: int|
                        r - q <= qq < r && !staged_at_rev(offr@, 0, r - 1, qq) ==> arr@[qq]
                            >= pivot,
                decreases block_r - q,
            {
                let ghost offr0 = offr@;
                let low = arr[r - 1 - q] < pivot;
                if low {
                    offr.push(q);
                }
                proof {
                    assert forall|qq: int|
                        r - q - 1 <= qq < r && !staged_at_rev(offr@, 0, r - 1, qq) implies arr@[qq]
                        >= pivot by {
                        if qq >= r - q {
                            assert(!staged_at_rev(offr0, 0, r - 1, qq)) by {
                                if staged_at_rev(offr0, 0, r - 1, qq) {
                                    let u = choose|u: int|
                                        0 <= u < offr0.len() && r - 1 - offr0[u] == qq;
                                    assert(offr@[u] == offr0[u]);
                                    assert(staged_at_rev(offr@, 0, r - 1, qq));
                                }
                            }
                        } else {
                            if low {
                                assert(offr@[offr@.len() - 1] == q);
                                assert(staged_at_rev(offr@, 0, r - 1, qq));
                            }
                        }
                    }
                }
                q += 1;
            }
        }
        let lenl = offl.len();
        let lenr = offr.len();
        let cnt = if lenl - sl < lenr - sr {
            lenl - sl
        } else {
            lenr - sr
        };
        let mut t: usize = 0;
        while t < cnt
            invariant
                t <= cnt,
                sl + cnt <= offl@.len(),
                sr + cnt <= offr@.len(),
                lenl == offl@.len(),
                lenr == offr@.len(),
                wl <= l <= r <= wr <= arr.len(),
                arr.len() == old(arr).len(),
                l + block_l <= r - block_r,
                range_frame(old(arr)@, arr@, wl as int, wr as int),
                forall|q: int| wl <= q < l ==> arr@[q] < pivot,
                forall|q: int| r <= q < wr ==> arr@[q] >= pivot,
                forall|u: int| sl <= u < offl@.len() ==> #[trigger] offl@[u] < block_l,
                forall|u1: int, u2: int|
                    sl <= u1 < u2 < offl@.len() ==> offl@[u1] < offl@[u2],
                forall|u: int|
                    sl + t <= u < offl@.len() ==> arr@[l + #[trigger] offl@[u]] >= pivot,
                forall|q: int|
                    l <= q < l + block_l && !staged_at(offl@, sl + t, l as int, q) ==> arr@[q]
                        < pivot,
                forall|u: int| sr <= u < offr@.len() ==> #[trigger] offr@[u] < block_r,
                forall|u1: int, u2: int|
                    sr <= u1 < u2 < offr@.len() ==> offr@[u1] < offr@[u2],
                forall|u: int|
                    sr + t <= u < offr@.len() ==> arr@[r - 1 - #[trigger] offr@[u]] < pivot,
                forall|q: int|
                    r - block_r <= q < r && !staged_at_rev(offr@, sr + t, r - 1, q) ==> arr@[q]
                        >= pivot,
            decreases cnt - t,
        {
            let ghost prev = arr@;
            let lt = l + offl[sl + t];
            let rt = r - 1 - offr[sr + t];
            assert(lt < l + block_l);
            assert(rt >= r - block_r);
            swap(arr, lt, rt);
            proof {
                assert forall|u: int|
                    sl + t + 1 <= u < offl@.len() implies arr@[l + #[trigger] offl@[u]]
                    >= pivot by {
                    assert(offl@[sl + t] < offl@[u]);
                    assert(l + offl@[u] != lt);
                    assert(l + offl@[u] < l + block_l <= rt);
                }
                assert forall|u: int|
                    sr + t + 1 <= u < offr@.len() implies arr@[r - 1 - #[trigger] offr@[u]]
                    < pivot by {
                    assert(offr@[sr + t] < offr@[u]);
                    assert(r - 1 - offr@[u] < rt);
                    assert(r - 1 - offr@[u] >= r - block_r);
                    assert(lt < r - block_r);
                }
                assert forall|q: int|
                    l <= q < l + block_l && !staged_at(offl@, sl + t + 1, l as int, q)
                        implies arr@[q] < pivot by {
                    if q == lt {
                    } else {
                        assert(arr@[q] == prev[q]);
                        if staged_at(offl@, sl + t, l as int, q) {
                            let u = choose|u: int|
                                sl + t <= u < offl@.len() && l + offl@[u] == q;
                            assert(u == sl + t);
                            assert(false);
                        }
                    }
                }
                assert forall|q: int|
                    r - block_r <= q < r && !staged_at_rev(offr@, sr + t + 1, r - 1, q)
                        implies arr@[q] >= pivot by {
                    if q == rt {
                    } else {
                        assert(arr@[q] == prev[q]);
                        if staged_at_rev(offr@, sr + t, r - 1, q) {
                            let u = choose|u: int|
                                sr + t <= u < offr@.len() && r - 1 - offr@[u] == q;
                            assert(u == sr + t);
                            assert(false);
                        }
                    }
                }
            }
            t += 1;
        }
        sl += cnt;
        sr += cnt;
        if sl == lenl {
            proof {
                assert forall|q: int| l <= q < l + block_l implies arr@[q] < pivot by {
                    if staged_at(offl@, sl as int, l as int, q) {
                        let u = choose|u: int|
                            sl <= u < offl@.len() && l + offl@[u] == q;
                        assert(false);
                    }
                }
            }
            l += block_l;
        }
        if sr == lenr {
            proof {
                assert forall|q: int| r - block_r <= q < r implies arr@[q] >= pivot by {
                    if staged_at_rev(offr@, sr as int, r - 1, q) {
                        let u = choose|u: int|
                            sr <= u < offr@.len() && r - 1 - offr@[u] == q;
                        assert(false);
                    }
                }
            }
            r -= block_r;
        }
        if is_done {
            cont = 0;
        }
    }
    if sl < offl.len() {
        let mut u = offl.len();
        proof {
            assert(offl@.take(offl@.len() as int) =~= offl@);
        }
        while u > sl
            invariant
                sl <= u <= offl@.len(),
                wl <= l <= r <= wr <= arr.len(),
                arr.len() == old(arr).len(),
                range_frame(old(arr)@, arr@, wl as int, wr as int),
                forall|up: int| sl <= up < u ==> l + #[trigger] offl@[up] < r,
                forall|u1: int, u2: int|
                    sl <= u1 < u2 < offl@.len() ==> offl@[u1] < offl@[u2],
                forall|up: int| sl <= up < u ==> arr@[l + #[trigger] offl@[up]] >= pivot,
                forall|q: int| wl <= q < l ==> arr@[q] < pivot,
                forall|q: int| r <= q < wr ==> arr@[q] >= pivot,
                forall|q: int|
                    l <= q < r && !staged_at(offl@.take(u as int), sl as int, l as int, q)
                        ==> arr@[q] < pivot,
            decreases u,
        {
            u -= 1;
            let ghost prev = arr@;
            let lt = l + offl[u];
            swap(arr, lt, r - 1);
            r -= 1;
            proof {
                assert forall|up: int|
                    sl <= up < u implies arr@[l + #[trigger] offl@[up]] >= pivot by {
                    assert(offl@[up] < offl@[u as int]);
                    assert(l + offl@[up] < lt);
                }
                assert forall|up: int| sl <= up < u implies l + #[trigger] offl@[up] < r by {
                    assert(offl@[up] < offl@[u as int]);
                }
                assert forall|q: int|
                    l <= q < r && !staged_at(offl@.take(u as int), sl as int, l as int, q)
                        implies arr@[q] < pivot by {
                    if q == lt {
                        assert(arr@[q] == prev[r as int]);
                        assert(!staged_at(offl@.take(u + 1), sl as int, l as int, r as int))
                            by {
                            if staged_at(offl@.take(u + 1), sl as int, l as int, r as int) {
                                let up = choose|up: int|
                                    sl <= up < offl@.take(u + 1).len() && l + #[trigger] offl@.take(
                                        u + 1,
                                    )[up] == r;
                                assert(offl@[up] <= offl@[u as int]);
                                assert(false);
                            }
                        }
                    } else {
                        assert(arr@[q] == prev[q]);
                        assert(!staged_at(offl@.take(u + 1), sl as int, l as int, q)) by {
                            if staged_at(offl@.take(u + 1), sl as int, l as int, q) {
                                let up = choose|up: int|
                                    sl <= up < offl@.take(u + 1).len() && l + #[trigger] offl@.take(
                                        u + 1,
                                    )[up] == q;
                                if up == u {
                                    assert(q == lt);
                                } else {
                                    assert(offl@.take(u as int)[up] == offl@[up]);
                                    assert(staged_at(
                                        offl@.take(u as int),
                                        sl as int,
                                        l as int,
                                        q,
                                    ));
                                }
                            }
                        }
                    }
                }
            }
        }
        proof {
            assert forall|q: int| l <= q < r implies arr@[q] < pivot by {
                if staged_at(offl@.take(sl as int), sl as int, l as int, q) {
                    let up = choose|up: int|
                        sl <= up < offl@.take(sl as int).len() && l + #[trigger] offl@.take(
                            sl as int,
                        )[up] == q;
                    assert(false);
                }
            }
        }
        return r - wl;
    }
    if sr < offr.len() {
        let mut u = offr.len();
        proof {
            assert(offr@.take(offr@.len() as int) =~= offr@);
        }
        while u > sr
            invariant
                sr <= u <= offr@.len(),
                wl <= l <= r <= wr <= arr.len(),
                arr.len() == old(arr).len(),
                range_frame(old(arr)@, arr@, wl as int, wr as int),
                forall|up: int| sr <= up < u ==> r - 1 - #[trigger] offr@[up] >= l,
                forall|u1: int, u2: int|
                    sr <= u1 < u2 < offr@.len() ==> offr@[u1] < offr@[u2],
                forall|up: int| sr <= up < u ==> arr@[r - 1 - #[trigger] offr@[up]] < pivot,
                forall|q: int| wl <= q < l ==> arr@[q] < pivot,
                forall|q: int| r <= q < wr ==> arr@[q] >= pivot,
                forall|q: int|
                    l <= q < r && !staged_at_rev(offr@.take(u as int), sr as int, r - 1, q)
                        ==> arr@[q] >= pivot,
            decreases u,
        {
            u -= 1;
            let ghost prev = arr@;
            assert(r - 1 - offr@[u as int] >= l);
            let rt = r - 1 - offr[u];
            swap(arr, l, rt);
            l += 1;
            proof {
                assert forall|up: int|
                    sr <= up < u implies arr@[r - 1 - #[trigger] offr@[up]] < pivot by {
                    assert(offr@[up] < offr@[u as int]);
                    assert(r - 1 - offr@[up] > rt);
                }
                assert forall|up: int|
                    sr <= up < u implies r - 1 - #[trigger] offr@[up] >= l by {
                    assert(offr@[up] < offr@[u as int]);
                }
                assert forall|q: int|
                    l <= q < r && !staged_at_rev(offr@.take(u as int), sr as int, r - 1, q)
                        implies arr@[q] >= pivot by {
                    if q == rt {
                        assert(arr@[q] == prev[l - 1]);
                        assert(!staged_at_rev(offr@.take(u + 1), sr as int, r - 1, l - 1)) by {
                            if staged_at_rev(offr@.take(u + 1), sr as int, r - 1, l - 1) {
                                let up = choose|up: int|
                                    sr <= up < offr@.take(u + 1).len() && r - 1 - #[trigger] offr@.take(
                                        u + 1,
                                    )[up] == l - 1;
                                assert(offr@[up] <= offr@[u as int]);
                                assert(false);
                            }
                        }
                    } else {
                        assert(arr@[q] == prev[q]);
                        assert(!staged_at_rev(offr@.take(u + 1), sr as int, r - 1, q)) by {
                            if staged_at_rev(offr@.take(u + 1), sr as int, r - 1, q) {
                                let up = choose|up: int|
                                    sr <= up < offr@.take(u + 1).len() && r - 1 - #[trigger] offr@.take(
                                        u + 1,
                                    )[up] == q;
                                if up == u {
                                    assert(q == rt);
                                } else {
                                    assert(offr@.take(u as int)[up] == offr@[up]);
                                    assert(staged_at_rev(
                                        offr@.take(u as int),
                                        sr as int,
                                        r - 1,
                                        q,
                                    ));
                                }
                            }
                        }
                    }
                }
            }
        }
        proof {
            assert forall|q: int| l <= q < r implies arr@[q] >= pivot by {
                if staged_at_rev(offr@.take(sr as int), sr as int, r - 1, q) {
                    let up = choose|up: int|
                        sr <= up < offr@.take(sr as int).len() && r - 1 - #[trigger] offr@.take(
                            sr as int,
                        )[up] == q;
                    assert(false);
                }
            }
        }
        return l - wl;
    }
    l - wl
}

/// Cache-blocked Hoare partitioning of `arr[lo..hi)`: the first element is
/// the pivot, runs that are already on the correct side are skipped, and
/// the remaining window is partitioned by [`partition_in_blocks`]. The
/// pivot is swapped to the split position, which is returned.
fn hoare_block_partition(arr: &mut Vec<u32>, lo: usize, hi: usize) -> (s: usize)
    requires
        lo < hi <= old(arr).len(),
    ensures
        lo <= s < hi,
        final(arr)@.len() == old(arr)@.len(),
        range_frame(old(arr)@, final(arr)@, lo as int, hi as int),
        forall|k: int| lo <= k < s ==> final(arr)@[k] <= final(arr)@[s as int],
        forall|k: int| s < k < hi ==> final(arr)@[k] >= final(arr)@[s as int],
{
    let p = arr[lo];
    let mut wl = lo + 1;
    let mut wr = hi;
    while wl < wr && arr[wl] < p
        invariant
            lo + 1 <= wl <= wr <= hi <= arr.len(),
            arr@ == old(arr)@,
            p == arr@[lo as int],
            forall|k: int| lo < k < wl ==> arr@[k] < p,
        decreases wr - wl,
    {
        wl += 1;
    }
    while wl < wr && arr[wr - 1] > p
        invariant
            lo + 1 <= wl <= wr <= hi <= arr.len(),
            arr@ == old(arr)@,
            p == arr@[lo as int],
            forall|k: int| lo < k < wl ==> arr@[k] < p,
            forall|k: int| wr <= k < hi ==> arr@[k] > p,
        decreases wr,
    {
        wr -= 1;
    }
    let cnt = partition_in_blocks(arr, wl, wr, p);
    let s = wl - 1 + cnt;
    swap(arr, lo, s);
    s
}

/// In-place quicksort of the whole vector with cache-blocked Hoare
/// partitioning, recursing into the smaller side of each split first.
pub fn quick_sort_hoare_partition_block(arr: &mut Vec<u32>)
    ensures
        final(arr)@.len() == old(arr)@.len(),
        final(arr)@.to_multiset() == old(arr)@.to_multiset(),
        sorted(final(arr)@),
{
    let n = arr.len();
    hoare_block_sort_range(arr, 0, n);
}

/// The recursive driver behind [`quick_sort_hoare_partition_block`].
fn hoare_block_sort_range(arr: &mut Vec<u32>, lo: usize, hi: usize)
    requires
        lo <= hi <= old(arr).len(),
    ensures
        final(arr)@.len() == old(arr)@.len(),
        range_frame(old(arr)@, final(arr)@, lo as int, hi as int),
        sorted_between(final(arr)@, lo as int, hi as int),
    decreases hi - lo,
{
    if hi - lo < 2 {
        return ;
    }
    if hi - lo < INSERTION_SORT_THRESHOLD {
        insertion_sort(arr, lo, hi - 1);
        return ;
    }
    let s = hoare_block_partition(arr, lo, hi);
    let ghost pre = arr@;
    if s - lo < hi - (s + 1) {
        hoare_block_sort_range(arr, lo, s);
        let ghost m1 = arr@;
        hoare_block_sort_range(arr, s + 1, hi);
        proof {
            lemma_single_pivot_stitch(pre, m1, arr@, lo as int, s as int, hi as int, true);
        }
    } else {
        hoare_block_sort_range(arr, s + 1, hi);
        let ghost m1 = arr@;
        hoare_block_sort_range(arr, lo, s);
        proof {
            lemma_single_pivot_stitch(pre, m1, arr@, lo as int, s as int, hi as int, false);
        }
    }
}

} // verus!

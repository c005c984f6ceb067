//! Bucket partitioning for four and more pivots: every element is
//! classified against the sorted pivot set, appended to the matching lane of
//! a scratch arena, and the lanes are then copied back into the range
//! contiguously. The arena is an explicit object constructed by the driver
//! and threaded through every recursive call, so that no two logically
//! independent partition calls can ever share its lanes.

use crate::perm::{
    lemma_frame_from_subrange, lemma_frame_keeps_value, lemma_range_frame_preserves,
    lemma_sorted_join, lemma_sorted_untouched, range_frame, sorted, sorted_between,
};
use crate::qsort::insertion_sort;
use crate::util::swap;
use crate::INSERTION_SORT_THRESHOLD;
use vstd::prelude::*;
use vstd::seq_lib::group_to_multiset_ensures;
use vstd::seq_lib::lemma_flatten_concat;

verus! {

/// The scratch arena of the bucket partitioner: one growable lane per
/// bucket ordinal.
pub struct Arena {
    lanes: Vec<Vec<u32>>,
}

impl Arena {
    /// The lanes as mathematical sequences.
    pub closed spec fn buckets(self) -> Seq<Seq<u32>> {
        Seq::new(self.lanes@.len(), |i: int| self.lanes@[i]@)
    }

    /// A fresh arena with no lanes.
    pub fn new() -> (a: Arena)
        ensures
            a.buckets().len() == 0,
    {
        Arena { lanes: Vec::new() }
    }

    /// Resets the arena to `n` empty lanes. Every partition call does this
    /// on entry, so a lane can never leak elements into a sibling call.
    pub fn reset(&mut self, n: usize)
        ensures
            final(self).buckets().len() == n,
            forall|i: int| 0 <= i < n ==> #[trigger] final(self).buckets()[i].len() == 0,
    {
        self.lanes.clear();
        let mut c: usize = 0;
        while c < n
            invariant
                c <= n,
                self.lanes@.len() == c,
                forall|i: int| 0 <= i < c ==> #[trigger] self.lanes@[i]@.len() == 0,
            decreases n - c,
        {
            self.lanes.push(Vec::new());
            c += 1;
        }
    }

    /// Appends `x` to lane `i`.
    pub fn push(&mut self, i: usize, x: u32)
        requires
            i < old(self).buckets().len(),
        ensures
            final(self).buckets() == old(self).buckets().update(
                i as int,
                old(self).buckets()[i as int].push(x),
            ),
    {
        self.lanes[i].push(x);
        proof {
            assert(final(self).buckets() =~= old(self).buckets().update(
                i as int,
                old(self).buckets()[i as int].push(x),
            ));
        }
    }

    /// The length of lane `i`.
    pub fn lane_len(&self, i: usize) -> (n: usize)
        requires
            i < self.buckets().len(),
        ensures
            n == self.buckets()[i as int].len(),
    {
        self.lanes[i].len()
    }

    /// The element at position `e` of lane `i`.
    pub fn read(&self, i: usize, e: usize) -> (x: u32)
        requires
            i < self.buckets().len(),
            e < self.buckets()[i as int].len(),
        ensures
            x == self.buckets()[i as int][e as int],
    {
        self.lanes[i][e]
    }
}

/// Element `x` belongs to bucket `b` of the sorted pivot set `piv`: it is
/// above the pivot below the bucket and not above the bucket's own pivot.
pub open spec fn seg_pred(piv: Seq<u32>, b: int, x: u32) -> bool {
    &&& (b == 0 || x > piv[b - 1])
    &&& (b >= piv.len() || x <= piv[b])
}

/// The bucket ordinal of `x`: the first pivot not below `x`, or one past
/// the last pivot when `x` exceeds them all.
fn classify(x: u32, pivots: &Vec<u32>) -> (b: usize)
    ensures
        b <= pivots@.len(),
        b < pivots@.len() ==> x <= pivots@[b as int],
        forall|i: int| 0 <= i < b ==> x > pivots@[i],
{
    let mut i: usize = 0;
    while i < pivots.len()
        invariant
            i <= pivots@.len(),
            forall|j: int| 0 <= j < i ==> x > pivots@[j],
        decreases pivots@.len() - i,
    {
        if x <= pivots[i] {
            return i;
        }
        i += 1;
    }
    i
}

/// Pushing onto one lane inserts the element into the flattened arena
/// content.
proof fn lemma_flatten_push_lane(ls: Seq<Seq<u32>>, i: int, x: u32)
    requires
        0 <= i < ls.len(),
    ensures
        ls.update(i, ls[i].push(x)).flatten().to_multiset() == ls.flatten().to_multiset().insert(
            x,
        ),
{
    broadcast use group_to_multiset_ensures;

    let ls2 = ls.update(i, ls[i].push(x));
    let a = ls.subrange(0, i);
    let m = ls.subrange(i, i + 1);
    let z = ls.subrange(i + 1, ls.len() as int);
    let m2 = ls2.subrange(i, i + 1);
    assert(ls =~= a + m + z);
    assert(ls2 =~= a + m2 + z);
    lemma_flatten_concat(a + m, z);
    lemma_flatten_concat(a, m);
    lemma_flatten_concat(a + m2, z);
    lemma_flatten_concat(a, m2);
    assert(Seq::<Seq<u32>>::empty().flatten() =~= Seq::<u32>::empty());
    assert(m.flatten() =~= ls[i]) by {
        assert(m.drop_first() =~= Seq::<Seq<u32>>::empty());
        assert(m.flatten() == m.first() + m.drop_first().flatten());
        assert(m.first() == ls[i]);
    }
    assert(m2.flatten() =~= ls[i].push(x)) by {
        assert(m2.drop_first() =~= Seq::<Seq<u32>>::empty());
        assert(m2.flatten() == m2.first() + m2.drop_first().flatten());
        assert(m2.first() == ls[i].push(x));
    }
    assert(ls.flatten() =~= a.flatten() + ls[i] + z.flatten());
    assert(ls2.flatten() =~= a.flatten() + ls[i].push(x) + z.flatten());
    crate::perm::lemma_to_multiset_of_concat(a.flatten() + ls[i], z.flatten());
    crate::perm::lemma_to_multiset_of_concat(a.flatten(), ls[i]);
    crate::perm::lemma_to_multiset_of_concat(a.flatten() + ls[i].push(x), z.flatten());
    crate::perm::lemma_to_multiset_of_concat(a.flatten(), ls[i].push(x));
    assert(ls[i].push(x).to_multiset() == ls[i].to_multiset().insert(x));
    assert(ls2.flatten().to_multiset() =~= ls.flatten().to_multiset().insert(x));
}

/// An arena of empty lanes flattens to nothing.
proof fn lemma_flatten_empty_lanes(ls: Seq<Seq<u32>>)
    requires
        forall|i: int| 0 <= i < ls.len() ==> #[trigger] ls[i].len() == 0,
    ensures
        ls.flatten() =~= Seq::<u32>::empty(),
    decreases ls.len(),
{
    if ls.len() == 0 {
    } else {
        assert(ls.first() =~= Seq::<u32>::empty());
        lemma_flatten_empty_lanes(ls.drop_first());
        assert(ls.flatten() == ls.first() + ls.drop_first().flatten());
    }
}

/// Bucket partitioning of `arr[lo..hi)` against the sorted pivots: each
/// element is appended to the lane of its bucket ordinal, then the lanes
/// are copied back contiguously. Returns the `pivots.len() + 2` bucket
/// boundaries, from `lo` to `hi`.
#[verifier::rlimit(100)]
fn bucket_partition(
    arr: &mut Vec<u32>,
    lo: usize,
    hi: usize,
    pivots: &Vec<u32>,
    arena: &mut Arena,
) -> (bounds: Vec<usize>)
    requires
        lo <= hi <= old(arr).len(),
        1 <= pivots@.len() < usize::MAX,
        sorted(pivots@),
    ensures
        bounds@.len() == pivots@.len() + 2,
        bounds@[0] == lo,
        bounds@[pivots@.len() as int + 1] == hi,
        forall|b: int| 0 <= b < bounds@.len() - 1 ==> #[trigger] bounds@[b] <= bounds@[b + 1],
        final(arr)@.len() == old(arr)@.len(),
        range_frame(old(arr)@, final(arr)@, lo as int, hi as int),
        forall|b: int, q: int|
            0 <= b < bounds@.len() - 1 && bounds@[b] <= q < bounds@[b + 1] ==> #[trigger] seg_pred(
                pivots@,
                b,
                final(arr)@[q],
            ),
{
    let npiv = pivots.len();
    arena.reset(npiv + 1);
    proof {
        broadcast use group_to_multiset_ensures;

        lemma_flatten_empty_lanes(arena.buckets());
        assert(arr@.subrange(lo as int, lo as int) =~= Seq::<u32>::empty());
        assert(arena.buckets().flatten().to_multiset() =~= arr@.subrange(
            lo as int,
            lo as int,
        ).to_multiset()) by {
            assert forall|v: u32|
                Seq::<u32>::empty().to_multiset().count(v) == 0 by {
                if Seq::<u32>::empty().to_multiset().count(v) > 0 {
                    assert(Seq::<u32>::empty().contains(v));
                }
            }
        }
    }
    let mut idx = lo;
    while idx < hi
        invariant
            lo <= idx <= hi <= arr.len(),
            arr@ == old(arr)@,
            npiv == pivots@.len(),
            arena.buckets().len() == npiv + 1,
            arena.buckets().flatten().to_multiset() == arr@.subrange(lo as int, idx as int).to_multiset(),
            forall|b: int, e: int|
                0 <= b < npiv + 1 && 0 <= e < arena.buckets()[b].len() ==> #[trigger] seg_pred(
                    pivots@,
                    b,
                    arena.buckets()[b][e],
                ),
        decreases hi - idx,
    {
        let x = arr[idx];
        let b = classify(x, pivots);
        let ghost pre_bs = arena.buckets();
        arena.push(b, x);
        proof {
            broadcast use group_to_multiset_ensures;

            lemma_flatten_push_lane(pre_bs, b as int, x);
            assert(arr@.subrange(lo as int, idx + 1) =~= arr@.subrange(
                lo as int,
                idx as int,
            ).push(x));
        }
        idx += 1;
    }
    proof {
        broadcast use group_to_multiset_ensures;
    }
    let ghost bs = arena.buckets();
    let mut bounds: Vec<usize> = Vec::new();
    bounds.push(lo);
    let mut w = lo;
    let mut b: usize = 0;
    while b < npiv + 1
        invariant
            b <= npiv + 1,
            npiv == pivots@.len(),
            npiv < usize::MAX,
            bounds@.len() == b + 1,
            bounds@[0] == lo,
            bounds@[b as int] == w,
            forall|t: int| 0 <= t < b ==> #[trigger] bounds@[t] <= bounds@[t + 1],
            lo <= w <= hi <= arr.len(),
            arr.len() == old(arr).len(),
            arena.buckets() == bs,
            bs.len() == npiv + 1,
            bs.flatten().to_multiset() == old(arr)@.subrange(lo as int, hi as int).to_multiset(),
            forall|bb: int, e: int|
                0 <= bb < npiv + 1 && 0 <= e < bs[bb].len() ==> #[trigger] seg_pred(
                    pivots@,
                    bb,
                    bs[bb][e],
                ),
            forall|q: int| 0 <= q < arr@.len() && !(lo <= q < hi) ==> arr@[q] == old(arr)@[q],
            arr@.subrange(lo as int, w as int) =~= bs.take(b as int).flatten(),
            forall|t: int| 0 <= t < bounds@.len() ==> #[trigger] bounds@[t] <= w,
            forall|t: int, q: int|
                0 <= t < b && bounds@[t] <= q < bounds@[t + 1] ==> #[trigger] seg_pred(
                    pivots@,
                    t,
                    arr@[q],
                ),
        decreases npiv + 1 - b,
    {
        proof {
            broadcast use group_to_multiset_ensures;

            assert(bs.take(b as int) + bs.skip(b as int) =~= bs);
            lemma_flatten_concat(bs.take(b as int), bs.skip(b as int));
            assert(bs.skip(b as int).drop_first() =~= bs.skip(b + 1));
            assert(bs.skip(b as int).flatten() =~= bs[b as int] + bs.skip(b + 1).flatten());
            crate::perm::lemma_to_multiset_of_concat(
                bs.take(b as int).flatten(),
                bs.skip(b as int).flatten(),
            );
            crate::perm::lemma_to_multiset_of_concat(bs[b as int], bs.skip(b + 1).flatten());
            assert(bs.take(b as int).flatten().len() + bs[b as int].len() + bs.skip(
                b + 1,
            ).flatten().len() == hi - lo) by {
                assert(bs.flatten().to_multiset().len() == hi - lo);
                assert(bs.flatten().to_multiset().len() == bs.flatten().len());
                assert(bs.flatten().len() == bs.take(b as int).flatten().len() + bs[b as int].len()
                    + bs.skip(b + 1).flatten().len());
            }
        }
        let lane_n = arena.lane_len(b);
        let mut e: usize = 0;
        while e < lane_n
            invariant
                e <= lane_n,
                b < npiv + 1,
                npiv == pivots@.len(),
                arena.buckets() == bs,
                bs.len() == npiv + 1,
                lane_n == bs[b as int].len(),
                lo <= w,
                w == lo + bs.take(b as int).flatten().len() + e,
                bs.take(b as int).flatten().len() + lane_n + bs.skip(b + 1).flatten().len() == hi
                    - lo,
                hi <= arr.len(),
                arr.len() == old(arr).len(),
                forall|q: int|
                    0 <= q < arr@.len() && !(lo <= q < hi) ==> arr@[q] == old(arr)@[q],
                arr@.subrange(lo as int, w as int) =~= bs.take(b as int).flatten() + bs[
                    b as int
                ].take(e as int),
                forall|t: int, q: int|
                    0 <= t < b && bounds@[t] <= q < bounds@[t + 1] ==> #[trigger] seg_pred(
                        pivots@,
                        t,
                        arr@[q],
                    ),
                bounds@.len() == b + 1,
                bounds@[b as int] == lo + bs.take(b as int).flatten().len(),
                forall|t: int| 0 <= t < bounds@.len() ==> #[trigger] bounds@[t] <= w,
            decreases lane_n - e,
        {
            let v = arena.read(b, e);
            assert(w < hi);
            let ghost prev = arr@;
            arr[w] = v;
            proof {
                assert(arr@.subrange(lo as int, w as int) =~= prev.subrange(
                    lo as int,
                    w as int,
                ));
                assert(arr@.subrange(lo as int, w + 1) =~= arr@.subrange(
                    lo as int,
                    w as int,
                ).push(v));
                assert(bs[b as int].take(e + 1) =~= bs[b as int].take(e as int).push(
                    bs[b as int][e as int],
                ));
                assert((bs.take(b as int).flatten() + bs[b as int].take(e as int)).push(v)
                    =~= bs.take(b as int).flatten() + bs[b as int].take(e + 1));
                assert(arr@.subrange(lo as int, w + 1) =~= bs.take(b as int).flatten() + bs[
                    b as int
                ].take(e + 1));
            }
            w += 1;
            e += 1;
        }
        proof {
            assert(bs[b as int].take(lane_n as int) =~= bs[b as int]);
            assert(bs.take(b + 1) =~= bs.take(b as int).push(bs[b as int]));
            assert(bs.take(b + 1).flatten() =~= bs.take(b as int).flatten() + bs[b as int]) by {
                broadcast use vstd::prelude::Seq::lemma_flatten_push;

            }
            assert(arr@.subrange(lo as int, w as int) =~= bs.take(b + 1).flatten());
        }
        bounds.push(w);
        b += 1;
        proof {
            assert forall|t: int, q: int|
                0 <= t < b && bounds@[t] <= q < bounds@[t + 1] implies #[trigger] seg_pred(
                pivots@,
                t,
                arr@[q],
            ) by {
                if t == b - 1 {
                    let base = bounds@[t];
                    assert(arr@.subrange(lo as int, w as int)[q - lo] == arr@[q]);
                    assert(arr@[q] == bs[t][q - base]);
                }
            }
        }
    }
    proof {
        broadcast use group_to_multiset_ensures;

        assert(bs.take((npiv + 1) as int) =~= bs);
        assert(arr@.subrange(lo as int, w as int) =~= bs.flatten());
        assert(w - lo == bs.flatten().len()) by {
            assert(arr@.subrange(lo as int, w as int).len() == bs.flatten().len());
        }
        assert(bs.flatten().len() == bs.flatten().to_multiset().len());
        assert(w == hi) by {
            assert(old(arr)@.subrange(lo as int, hi as int).to_multiset().len() == hi - lo) by {
                assert(old(arr)@.subrange(lo as int, hi as int).len() == hi - lo);
            }
        }
        lemma_frame_from_subrange(old(arr)@, arr@, lo as int, hi as int);
    }
    bounds
}


/// Three-way partitioning of `arr[lo..hi)` around the value `v`: below,
/// equal, above. The bucket driver falls back to this split when all the
/// sampled pivots are one value, so that the recursion always works on
/// strictly smaller ranges.
fn three_way_partition(arr: &mut Vec<u32>, lo: usize, hi: usize, v: u32) -> (r: (usize, usize))
    requires
        lo <= hi <= old(arr).len(),
    ensures
        lo <= r.0 <= r.1 <= hi,
        final(arr)@.len() == old(arr)@.len(),
        range_frame(old(arr)@, final(arr)@, lo as int, hi as int),
        forall|q: int| lo <= q < r.0 ==> final(arr)@[q] < v,
        forall|q: int| r.0 <= q < r.1 ==> final(arr)@[q] == v,
        forall|q: int| r.1 <= q < hi ==> final(arr)@[q] > v,
{
    let mut lt = lo;
    let mut gt = hi;
    let mut idx = lo;
    while idx < gt
        invariant
            lo <= lt <= idx <= gt <= hi <= arr.len(),
            arr.len() == old(arr).len(),
            range_frame(old(arr)@, arr@, lo as int, hi as int),
            forall|q: int| lo <= q < lt ==> arr@[q] < v,
            forall|q: int| lt <= q < idx ==> arr@[q] == v,
            forall|q: int| gt <= q < hi ==> arr@[q] > v,
        decreases gt - idx,
    {
        let x = arr[idx];
        if x < v {
            swap(arr, idx, lt);
            lt += 1;
            idx += 1;
        } else if x > v {
            gt -= 1;
            swap(arr, idx, gt);
        } else {
            idx += 1;
        }
    }
    (lt, gt)
}

/// Adjacent monotonicity of the bucket boundaries extends to any pair.
proof fn lemma_bounds_mono(bs: Seq<usize>, i: int, j: int)
    requires
        forall|t: int| 0 <= t < bs.len() - 1 ==> #[trigger] bs[t] <= bs[t + 1],
        0 <= i <= j < bs.len(),
    ensures
        bs[i] <= bs[j],
    decreases j - i,
{
    if i < j {
        lemma_bounds_mono(bs, i, j - 1);
    }
}

/// Every position left of boundary `b` lies in some earlier segment.
proof fn lemma_bounds_locate(bs: Seq<usize>, b: int, q: int)
    requires
        forall|t: int| 0 <= t < bs.len() - 1 ==> #[trigger] bs[t] <= bs[t + 1],
        0 < b < bs.len(),
        bs[0] <= q < bs[b],
    ensures
        exists|t: int| 0 <= t < b && #[trigger] bs[t] <= q < bs[t + 1],
    decreases b,
{
    if b == 1 {
        assert(bs[0] <= q < bs[1]);
    } else if q >= bs[b - 1] {
        assert(bs[b - 1] <= q < bs[b]);
    } else {
        lemma_bounds_locate(bs, b - 1, q);
    }
}

/// Stitches the three-way split around one value back together once the
/// two outer zones are sorted: the equal zone needs no work.
proof fn lemma_three_way_stitch(
    pp: Seq<u32>,
    m1: Seq<u32>,
    post: Seq<u32>,
    lo: int,
    a: int,
    b: int,
    hi: int,
    v: u32,
)
    requires
        0 <= lo <= a <= b <= hi <= pp.len(),
        forall|q: int| lo <= q < a ==> pp[q] < v,
        forall|q: int| a <= q < b ==> pp[q] == v,
        forall|q: int| b <= q < hi ==> pp[q] > v,
        range_frame(pp, m1, lo, a),
        sorted_between(m1, lo, a),
        range_frame(m1, post, b, hi),
        sorted_between(post, b, hi),
    ensures
        range_frame(pp, post, lo, hi),
        sorted_between(post, lo, hi),
{
    let ltv = |x: u32| x < v;
    let gtv = |x: u32| x > v;
    assert forall|q: int| lo <= q < a implies #[trigger] ltv(pp[q]) by {}
    lemma_range_frame_preserves(pp, m1, lo, a, ltv);
    assert forall|q: int| lo <= q < a implies post[q] < v by {
        assert(post[q] == m1[q]);
        assert(ltv(m1[q]));
    }
    assert forall|q: int| a <= q < b implies post[q] == v by {
        assert(post[q] == m1[q]);
        assert(m1[q] == pp[q]);
    }
    assert forall|q: int| b <= q < hi implies #[trigger] gtv(m1[q]) by {
        assert(m1[q] == pp[q]);
    }
    lemma_range_frame_preserves(m1, post, b, hi, gtv);
    assert forall|q: int| b <= q < hi implies post[q] > v by {
        assert(gtv(post[q]));
    }
    lemma_sorted_untouched(m1, post, lo, a);
    lemma_sorted_join(post, lo, a, b);
    lemma_sorted_join(post, lo, b, hi);
}

/// When the smallest and largest pivots differ, both values occur in the
/// partitioned range and land in different buckets, so every bucket is
/// strictly smaller than the whole range.
proof fn lemma_bucket_segment_sizes(
    pp: Seq<u32>,
    piv: Seq<u32>,
    bs: Seq<usize>,
    lo: int,
    hi: int,
)
    requires
        1 <= piv.len(),
        sorted(piv),
        piv[0] != piv[piv.len() - 1],
        bs.len() == piv.len() + 2,
        0 <= lo,
        hi <= pp.len(),
        bs[0] == lo,
        bs[bs.len() - 1] == hi,
        forall|t: int| 0 <= t < bs.len() - 1 ==> #[trigger] bs[t] <= bs[t + 1],
        forall|tt: int, q: int|
            0 <= tt < bs.len() - 1 && bs[tt] <= q < bs[tt + 1] ==> #[trigger] seg_pred(
                piv,
                tt,
                pp[q],
            ),
        exists|q: int| lo <= q < hi && pp[q] == piv[0],
        exists|q: int| lo <= q < hi && pp[q] == piv[piv.len() - 1],
    ensures
        forall|bb: int| 0 <= bb < bs.len() - 1 ==> bs[bb + 1] - #[trigger] bs[bb] < hi - lo,
{
    let nseg = bs.len() - 1;
    let pmin = piv[0];
    let pmax = piv[piv.len() - 1];
    assert forall|bb: int|
        0 <= bb < nseg implies bs[bb + 1] - #[trigger] bs[bb] < hi - lo by {
        let qmin = choose|q: int| lo <= q < hi && pp[q] == pmin;
        lemma_bounds_locate(bs, nseg, qmin);
        let tmin = choose|t: int| 0 <= t < nseg && #[trigger] bs[t] <= qmin < bs[t + 1];
        assert(seg_pred(piv, tmin, pp[qmin]));
        assert(tmin == 0) by {
            if tmin > 0 {
                assert(pmin > piv[tmin - 1]);
                assert(piv[0] <= piv[tmin - 1]);
            }
        }
        let qmax = choose|q: int| lo <= q < hi && pp[q] == pmax;
        lemma_bounds_locate(bs, nseg, qmax);
        let tmax = choose|t: int| 0 <= t < nseg && #[trigger] bs[t] <= qmax < bs[t + 1];
        assert(seg_pred(piv, tmax, pp[qmax]));
        assert(tmax >= 1) by {
            if tmax == 0 {
                assert(pmax <= piv[0]);
            }
        }
        assert(bs[1] > lo);
        assert(bs[1] < hi) by {
            lemma_bounds_mono(bs, 1, tmax);
            assert(bs[1] <= bs[tmax] <= qmax < hi);
        }
        if bb == 0 {
        } else {
            lemma_bounds_mono(bs, 1, bb);
            lemma_bounds_mono(bs, bb + 1, nseg);
        }
    }
}

/// The recursive driver of the k-pivot bucket strategy: below the threshold
/// it falls back to insertion sort, otherwise it samples `npiv` evenly
/// spaced pivots, partitions through the arena, and recurses into every
/// bucket.
#[verifier::rlimit(100)]
fn bucket_sort_range(arr: &mut Vec<u32>, lo: usize, hi: usize, npiv: usize, arena: &mut Arena)
    requires
        lo <= hi <= old(arr).len(),
        1 <= npiv,
        npiv + 1 <= INSERTION_SORT_THRESHOLD,
    ensures
        final(arr)@.len() == old(arr)@.len(),
        range_frame(old(arr)@, final(arr)@, lo as int, hi as int),
        sorted_between(final(arr)@, lo as int, hi as int),
    decreases hi - lo,
{
    if hi - lo < 2 {
        return ;
    }
    if hi - lo < INSERTION_SORT_THRESHOLD {
        insertion_sort(arr, lo, hi - 1);
        return ;
    }
    let step = (hi - lo) / (npiv + 1);
    let mut pivots: Vec<u32> = Vec::new();
    let mut pos = lo;
    let mut t: usize = 0;
    while t < npiv
        invariant
            t <= npiv,
            pivots@.len() == t,
            lo <= pos <= hi - 1,
            lo + 2 <= hi <= arr.len(),
            arr@ == old(arr)@,
            forall|u: int|
                0 <= u < t ==> exists|q: int|
                    lo <= q < hi && arr@[q] == #[trigger] pivots@[u],
        decreases npiv - t,
    {
        let next = if step < hi - pos {
            pos + step
        } else {
            hi - 1
        };
        pivots.push(arr[next]);
        proof {
            assert(lo <= next < hi && arr@[next as int] == pivots@[t as int]);
        }
        pos = next;
        t += 1;
    }
    let ghost samples = pivots@;
    insertion_sort(&mut pivots, 0, npiv - 1);
    proof {
        assert(range_frame(pivots@, samples, 0, npiv as int));
        assert(sorted(pivots@));
    }
    let pmin = pivots[0];
    let pmax = pivots[npiv - 1];
    proof {
        lemma_frame_keeps_value(pivots@, samples, 0, npiv as int, pmin);
        lemma_frame_keeps_value(pivots@, samples, 0, npiv as int, pmax);
        assert(exists|q: int| lo <= q < hi && arr@[q] == pmin) by {
            let u = choose|u: int| 0 <= u < npiv && samples[u] == pmin;
            let q = choose|q: int| lo <= q < hi && arr@[q] == samples[u];
            assert(arr@[q] == pmin);
        }
        assert(exists|q: int| lo <= q < hi && arr@[q] == pmax) by {
            let u = choose|u: int| 0 <= u < npiv && samples[u] == pmax;
            let q = choose|q: int| lo <= q < hi && arr@[q] == samples[u];
            assert(arr@[q] == pmax);
        }
    }
    if pmin == pmax {
        let ghost pre3 = arr@;
        let (a, b) = three_way_partition(arr, lo, hi, pmin);
        proof {
            lemma_frame_keeps_value(pre3, arr@, lo as int, hi as int, pmin);
            let q = choose|q: int| lo <= q < hi && arr@[q] == pmin;
            assert(a <= q < b);
        }
        let ghost pp = arr@;
        bucket_sort_range(arr, lo, a, npiv, arena);
        let ghost m1 = arr@;
        bucket_sort_range(arr, b, hi, npiv, arena);
        proof {
            lemma_three_way_stitch(
                pp,
                m1,
                arr@,
                lo as int,
                a as int,
                b as int,
                hi as int,
                pmin,
            );
        }
        return ;
    }
    let ghost pre_part = arr@;
    let bounds = bucket_partition(arr, lo, hi, &pivots, arena);
    let ghost pp = arr@;
    let nseg = npiv + 1;
    proof {
        lemma_frame_keeps_value(pre_part, pp, lo as int, hi as int, pmin);
        lemma_frame_keeps_value(pre_part, pp, lo as int, hi as int, pmax);
        lemma_bucket_segment_sizes(pp, pivots@, bounds@, lo as int, hi as int);
    }
    let mut b: usize = 0;
    while b < nseg
        invariant
            b <= nseg,
            nseg == npiv + 1,
            npiv == pivots@.len(),
            1 <= npiv,
            npiv + 1 <= INSERTION_SORT_THRESHOLD,
            sorted(pivots@),
            bounds@.len() == nseg + 1,
            bounds@[0] == lo,
            bounds@[nseg as int] == hi,
            forall|tt: int| 0 <= tt < bounds@.len() - 1 ==> #[trigger] bounds@[tt] <= bounds@[tt
                + 1],
            forall|bb: int|
                0 <= bb < nseg ==> bounds@[bb + 1] - #[trigger] bounds@[bb] < hi - lo,
            forall|tt: int, q: int|
                0 <= tt < nseg && bounds@[tt] <= q < bounds@[tt + 1] ==> #[trigger] seg_pred(
                    pivots@,
                    tt,
                    pp[q],
                ),
            lo <= hi <= arr.len(),
            arr.len() == old(arr).len(),
            pp.len() == arr@.len(),
            range_frame(pp, arr@, lo as int, bounds@[b as int] as int),
            sorted_between(arr@, lo as int, bounds@[b as int] as int),
            forall|tt: int, q: int|
                0 <= tt < b && bounds@[tt] <= q < bounds@[tt + 1] ==> #[trigger] seg_pred(
                    pivots@,
                    tt,
                    arr@[q],
                ),
            forall|q: int| bounds@[b as int] <= q < hi ==> arr@[q] == pp[q],
        decreases nseg - b,
    {
        let s0 = bounds[b];
        let s1 = bounds[b + 1];
        proof {
            assert(s1 <= hi) by {
                lemma_bounds_mono(bounds@, b + 1, nseg as int);
            }
        }
        let ghost before = arr@;
        bucket_sort_range(arr, s0, s1, npiv, arena);
        proof {
            let predb = |x: u32| seg_pred(pivots@, b as int, x);
            assert forall|q: int| s0 <= q < s1 implies #[trigger] predb(before[q]) by {
                assert(before[q] == pp[q]);
            }
            lemma_range_frame_preserves(before, arr@, s0 as int, s1 as int, predb);
            assert forall|tt: int, q: int|
                0 <= tt < b + 1 && bounds@[tt] <= q < bounds@[tt + 1] implies #[trigger] seg_pred(
                pivots@,
                tt,
                arr@[q],
            ) by {
                if tt == b {
                    assert(predb(arr@[q]));
                } else {
                    assert(bounds@[tt + 1] <= s0) by {
                        lemma_bounds_mono(bounds@, tt + 1, b as int);
                    }
                    assert(arr@[q] == before[q]);
                }
            }
            lemma_sorted_untouched(before, arr@, lo as int, s0 as int);
            assert forall|i1: int, i2: int|
                lo <= i1 < s0 <= i2 < s1 implies arr@[i1] <= arr@[i2] by {
                lemma_bounds_locate(bounds@, b as int, i1);
                let tt = choose|tt: int|
                    0 <= tt < b && #[trigger] bounds@[tt] <= i1 < bounds@[tt + 1];
                assert(seg_pred(pivots@, tt, arr@[i1]));
                assert(tt < npiv);
                assert(arr@[i1] <= pivots@[tt]);
                assert(pivots@[tt] <= pivots@[b - 1]);
                assert(seg_pred(pivots@, b as int, arr@[i2]));
                assert(arr@[i2] > pivots@[b - 1]);
            }
            lemma_sorted_join(arr@, lo as int, s0 as int, s1 as int);
        }
        b += 1;
    }
}

/// In-place quicksort of the whole vector with the four-pivot bucket
/// strategy, classifying every element against the sorted pivots and
/// staging the buckets in an arena local to the call.
pub fn quadro_pivot_quicksort_2(arr: &mut Vec<u32>)
    ensures
        final(arr)@.len() == old(arr)@.len(),
        final(arr)@.to_multiset() == old(arr)@.to_multiset(),
        sorted(final(arr)@),
{
    let mut arena = Arena::new();
    let n = arr.len();
    bucket_sort_range(arr, 0, n, 4, &mut arena);
}

/// In-place quicksort of the whole vector with the eight-pivot bucket
/// strategy; one generic engine serves every pivot count.
pub fn octal_pivot_quicksort(arr: &mut Vec<u32>)
    ensures
        final(arr)@.len() == old(arr)@.len(),
        final(arr)@.to_multiset() == old(arr)@.to_multiset(),
        sorted(final(arr)@),
{
    let mut arena = Arena::new();
    let n = arr.len();
    bucket_sort_range(arr, 0, n, 8, &mut arena);
}

} // verus!

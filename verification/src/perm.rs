//! Sequence-level vocabulary shared by every partitioning strategy: what it
//! means for a range to be sorted, and what it means for a call to rearrange
//! a range without touching anything outside it.

use vstd::multiset::Multiset;
use vstd::prelude::*;
use vstd::seq_lib::group_to_multiset_ensures;

verus! {

/// The elements at positions `lo <= i < hi` of `s` are in nondecreasing order.
pub open spec fn sorted_between(s: Seq<u32>, lo: int, hi: int) -> bool {
    forall|i: int, j: int| lo <= i <= j < hi ==> s[i] <= s[j]
}

/// The whole sequence is in nondecreasing order.
pub open spec fn sorted(s: Seq<u32>) -> bool {
    sorted_between(s, 0, s.len() as int)
}

/// `post` rearranges the elements of `pre` that sit at positions in
/// `[lo, hi)` and leaves every other position untouched.
pub open spec fn range_frame(pre: Seq<u32>, post: Seq<u32>, lo: int, hi: int) -> bool {
    &&& post.len() == pre.len()
    &&& forall|i: int| 0 <= i < pre.len() && !(lo <= i < hi) ==> post[i] == pre[i]
    &&& post.to_multiset() == pre.to_multiset()
}

/// Exchanging two positions of a sequence does not change its multiset of
/// elements.
pub proof fn lemma_swap_multiset(s: Seq<u32>, i: int, j: int)
    requires
        0 <= i < s.len(),
        0 <= j < s.len(),
    ensures
        s.update(i, s[j]).update(j, s[i]).to_multiset() == s.to_multiset(),
{
    broadcast use group_to_multiset_ensures;

    let t = s.update(i, s[j]).update(j, s[i]);
    if i == j {
        assert(t =~= s);
    } else {
        let m = s.to_multiset();
        assert(s.contains(s[i]));
        assert(s.update(i, s[j]).contains(s[j])) by {
            assert(s.update(i, s[j])[i] == s[j]);
        }
        assert(t.to_multiset() =~= m) by {
            assert(t.to_multiset() == m.insert(s[j]).remove(s[i]).insert(s[i]).remove(s[j]));
        }
    }
}

/// Concatenating two sequences adds their multisets.
pub proof fn lemma_to_multiset_of_concat(s1: Seq<u32>, s2: Seq<u32>)
    ensures
        (s1 + s2).to_multiset() == s1.to_multiset().add(s2.to_multiset()),
    decreases s2.len(),
{
    broadcast use group_to_multiset_ensures;

    if s2.len() == 0 {
        assert(s1 + s2 =~= s1);
        assert(s2.to_multiset() =~= Multiset::<u32>::empty());
        assert((s1 + s2).to_multiset() =~= s1.to_multiset().add(s2.to_multiset()));
    } else {
        let last = s2[s2.len() - 1];
        lemma_to_multiset_of_concat(s1, s2.drop_last());
        assert(s1 + s2 =~= (s1 + s2.drop_last()).push(last));
        assert(s2 =~= s2.drop_last().push(last));
        assert((s1 + s2).to_multiset() =~= s1.to_multiset().add(s2.to_multiset()));
    }
}

/// A rearrangement of `[lo, hi)` keeps the multiset of that very subrange.
pub proof fn lemma_range_frame_subrange(pre: Seq<u32>, post: Seq<u32>, lo: int, hi: int)
    requires
        range_frame(pre, post, lo, hi),
        0 <= lo <= hi <= pre.len(),
    ensures
        post.subrange(lo, hi).to_multiset() == pre.subrange(lo, hi).to_multiset(),
{
    broadcast use vstd::multiset::group_multiset_axioms;

    let n = pre.len() as int;
    let pa = pre.subrange(0, lo);
    let px = pre.subrange(lo, hi);
    let pb = pre.subrange(hi, n);
    let qa = post.subrange(0, lo);
    let qx = post.subrange(lo, hi);
    let qb = post.subrange(hi, n);
    assert(pre =~= pa + px + pb);
    assert(post =~= qa + qx + qb);
    assert(qa =~= pa);
    assert(qb =~= pb);
    lemma_to_multiset_of_concat(pa + px, pb);
    lemma_to_multiset_of_concat(pa, px);
    lemma_to_multiset_of_concat(qa + qx, qb);
    lemma_to_multiset_of_concat(qa, qx);
    assert forall|v: u32| px.to_multiset().count(v) == qx.to_multiset().count(v) by {
        assert(pre.to_multiset().count(v) == pa.to_multiset().add(px.to_multiset()).count(v)
            + pb.to_multiset().count(v));
        assert(pre.to_multiset().count(v) == pa.to_multiset().count(v)
            + px.to_multiset().count(v) + pb.to_multiset().count(v));
        assert(post.to_multiset().count(v) == qa.to_multiset().add(qx.to_multiset()).count(v)
            + qb.to_multiset().count(v));
        assert(post.to_multiset().count(v) == qa.to_multiset().count(v)
            + qx.to_multiset().count(v) + qb.to_multiset().count(v));
    }
    assert(qx.to_multiset() =~= px.to_multiset());
}

/// A property that held of every element of `[lo, hi)` still holds of every
/// element there after the range is rearranged in place.
pub proof fn lemma_range_frame_preserves(
    pre: Seq<u32>,
    post: Seq<u32>,
    lo: int,
    hi: int,
    pred: spec_fn(u32) -> bool,
)
    requires
        range_frame(pre, post, lo, hi),
        0 <= lo <= hi <= pre.len(),
        forall|i: int| lo <= i < hi ==> #[trigger] pred(pre[i]),
    ensures
        forall|i: int| lo <= i < hi ==> #[trigger] pred(post[i]),
{
    broadcast use group_to_multiset_ensures;

    lemma_range_frame_subrange(pre, post, lo, hi);
    let px = pre.subrange(lo, hi);
    let qx = post.subrange(lo, hi);
    assert forall|i: int| lo <= i < hi implies #[trigger] pred(post[i]) by {
        assert(qx[i - lo] == post[i]);
        assert(qx.contains(post[i]));
        assert(qx.to_multiset().count(post[i]) > 0);
        assert(px.to_multiset().count(post[i]) > 0);
        assert(px.contains(post[i]));
        let w = choose|w: int| 0 <= w < px.len() && px[w] == post[i];
        assert(pred(pre[lo + w]));
    }
}

/// A span that is left pointwise untouched stays sorted.
pub proof fn lemma_sorted_untouched(pre: Seq<u32>, post: Seq<u32>, lo: int, hi: int)
    requires
        post.len() == pre.len(),
        0 <= lo <= hi <= pre.len(),
        forall|i: int| lo <= i < hi ==> post[i] == pre[i],
        sorted_between(pre, lo, hi),
    ensures
        sorted_between(post, lo, hi),
{
    assert forall|i: int, j: int| lo <= i <= j < hi implies post[i] <= post[j] by {
        assert(pre[i] <= pre[j]);
    }
}

/// Stitches one partitioned range back together: with the pivot in final
/// position at `s`, everything left of it at most the pivot and everything
/// right of it at least the pivot, sorting the two sides in either order
/// sorts the range. `mid` is the state between the two sub-sorts and
/// `first_left` says which side was sorted first.
pub proof fn lemma_single_pivot_stitch(
    pre: Seq<u32>,
    mid: Seq<u32>,
    post: Seq<u32>,
    lo: int,
    s: int,
    hi: int,
    first_left: bool,
)
    requires
        0 <= lo <= s < hi <= pre.len(),
        forall|k: int| lo <= k < s ==> pre[k] <= pre[s],
        forall|k: int| s < k < hi ==> pre[k] >= pre[s],
        first_left ==> range_frame(pre, mid, lo, s) && sorted_between(mid, lo, s)
            && range_frame(mid, post, s + 1, hi) && sorted_between(post, s + 1, hi),
        !first_left ==> range_frame(pre, mid, s + 1, hi) && sorted_between(mid, s + 1, hi)
            && range_frame(mid, post, lo, s) && sorted_between(post, lo, s),
    ensures
        range_frame(pre, post, lo, hi),
        sorted_between(post, lo, hi),
{
    let p = pre[s];
    let leq = |x: u32| x <= p;
    let geq = |x: u32| x >= p;
    assert forall|k: int| lo <= k < s implies #[trigger] leq(pre[k]) by {}
    assert forall|k: int| s < k < hi implies #[trigger] geq(pre[k]) by {}
    if first_left {
        lemma_range_frame_preserves(pre, mid, lo, s, leq);
        assert forall|k: int| s < k < hi implies #[trigger] geq(mid[k]) by {
            assert(mid[k] == pre[k]);
        }
        lemma_range_frame_preserves(mid, post, s + 1, hi, geq);
        assert forall|k: int| lo <= k < s implies post[k] <= p by {
            assert(post[k] == mid[k]);
            assert(leq(mid[k]));
        }
        assert forall|k: int| s < k < hi implies post[k] >= p by {
            assert(geq(post[k]));
        }
        lemma_sorted_untouched(mid, post, lo, s);
    } else {
        lemma_range_frame_preserves(pre, mid, s + 1, hi, geq);
        assert forall|k: int| lo <= k < s implies #[trigger] leq(mid[k]) by {
            assert(mid[k] == pre[k]);
        }
        lemma_range_frame_preserves(mid, post, lo, s, leq);
        assert forall|k: int| lo <= k < s implies post[k] <= p by {
            assert(leq(post[k]));
        }
        assert forall|k: int| s < k < hi implies post[k] >= p by {
            assert(post[k] == mid[k]);
            assert(geq(mid[k]));
        }
        lemma_sorted_untouched(mid, post, s + 1, hi);
    }
    assert(post[s] == p);
    lemma_sorted_join(post, lo, s, s + 1);
    lemma_sorted_join(post, lo, s + 1, hi);
}

/// Stitches a range split at `s` without a placed pivot: everything left of
/// `s` is at most `p` and everything from `s` on is at least `p`. Sorting
/// the two sides in either order sorts the range; `mid` is the state between
/// the two sub-sorts and `first_left` says which side was sorted first.
pub proof fn lemma_split_stitch(
    pre: Seq<u32>,
    mid: Seq<u32>,
    post: Seq<u32>,
    lo: int,
    s: int,
    hi: int,
    p: u32,
    first_left: bool,
)
    requires
        0 <= lo < s < hi <= pre.len(),
        forall|k: int| lo <= k < s ==> pre[k] <= p,
        forall|k: int| s <= k < hi ==> pre[k] >= p,
        first_left ==> range_frame(pre, mid, lo, s) && sorted_between(mid, lo, s)
            && range_frame(mid, post, s, hi) && sorted_between(post, s, hi),
        !first_left ==> range_frame(pre, mid, s, hi) && sorted_between(mid, s, hi)
            && range_frame(mid, post, lo, s) && sorted_between(post, lo, s),
    ensures
        range_frame(pre, post, lo, hi),
        sorted_between(post, lo, hi),
{
    let leq = |x: u32| x <= p;
    let geq = |x: u32| x >= p;
    assert forall|k: int| lo <= k < s implies #[trigger] leq(pre[k]) by {}
    assert forall|k: int| s <= k < hi implies #[trigger] geq(pre[k]) by {}
    if first_left {
        lemma_range_frame_preserves(pre, mid, lo, s, leq);
        assert forall|k: int| s <= k < hi implies #[trigger] geq(mid[k]) by {
            assert(mid[k] == pre[k]);
        }
        lemma_range_frame_preserves(mid, post, s, hi, geq);
        assert forall|k: int| lo <= k < s implies post[k] <= p by {
            assert(post[k] == mid[k]);
            assert(leq(mid[k]));
        }
        assert forall|k: int| s <= k < hi implies post[k] >= p by {
            assert(geq(post[k]));
        }
        lemma_sorted_untouched(mid, post, lo, s);
    } else {
        lemma_range_frame_preserves(pre, mid, s, hi, geq);
        assert forall|k: int| lo <= k < s implies #[trigger] leq(mid[k]) by {
            assert(mid[k] == pre[k]);
        }
        lemma_range_frame_preserves(mid, post, lo, s, leq);
        assert forall|k: int| lo <= k < s implies post[k] <= p by {
            assert(leq(post[k]));
        }
        assert forall|k: int| s <= k < hi implies post[k] >= p by {
            assert(post[k] == mid[k]);
            assert(geq(mid[k]));
        }
        lemma_sorted_untouched(mid, post, s, hi);
    }
    lemma_sorted_join(post, lo, s, hi);
}

/// Stitches a doubly partitioned range back together: the two pivots sit in
/// final position at `s1 < s2`, the three zones between them are bounded by
/// the pivot values, and the zones are then sorted from left to right
/// (`m1` after the left zone, `m2` after the middle zone, `post` after the
/// right zone).
pub proof fn lemma_double_pivot_stitch(
    pre: Seq<u32>,
    m1: Seq<u32>,
    m2: Seq<u32>,
    post: Seq<u32>,
    lo: int,
    s1: int,
    s2: int,
    hi: int,
)
    requires
        0 <= lo <= s1 < s2 < hi <= pre.len(),
        pre[s1] <= pre[s2],
        forall|k: int| lo <= k < s1 ==> pre[k] <= pre[s1],
        forall|k: int| s1 < k < s2 ==> pre[s1] <= pre[k] && pre[k] <= pre[s2],
        forall|k: int| s2 < k < hi ==> pre[k] >= pre[s2],
        range_frame(pre, m1, lo, s1),
        sorted_between(m1, lo, s1),
        range_frame(m1, m2, s1 + 1, s2),
        sorted_between(m2, s1 + 1, s2),
        range_frame(m2, post, s2 + 1, hi),
        sorted_between(post, s2 + 1, hi),
    ensures
        range_frame(pre, post, lo, hi),
        sorted_between(post, lo, hi),
{
    let p1 = pre[s1];
    let p2 = pre[s2];
    let leq1 = |x: u32| x <= p1;
    let midp = |x: u32| p1 <= x && x <= p2;
    let geq2 = |x: u32| x >= p2;
    assert forall|k: int| lo <= k < s1 implies #[trigger] leq1(pre[k]) by {}
    lemma_range_frame_preserves(pre, m1, lo, s1, leq1);
    assert forall|k: int| lo <= k < s1 implies post[k] <= p1 by {
        assert(leq1(m1[k]));
        assert(m2[k] == m1[k]);
        assert(post[k] == m2[k]);
    }
    assert forall|k: int| s1 < k < s2 implies #[trigger] midp(m1[k]) by {
        assert(m1[k] == pre[k]);
    }
    lemma_range_frame_preserves(m1, m2, s1 + 1, s2, midp);
    assert forall|k: int| s1 < k < s2 implies p1 <= post[k] && post[k] <= p2 by {
        assert(midp(m2[k]));
        assert(post[k] == m2[k]);
    }
    assert forall|k: int| s2 < k < hi implies #[trigger] geq2(m2[k]) by {
        assert(m2[k] == m1[k]);
        assert(m1[k] == pre[k]);
    }
    lemma_range_frame_preserves(m2, post, s2 + 1, hi, geq2);
    assert forall|k: int| s2 < k < hi implies post[k] >= p2 by {
        assert(geq2(post[k]));
    }
    assert(post[s1] == p1);
    assert(post[s2] == p2);
    assert forall|i: int| lo <= i < s1 implies post[i] == m1[i] by {}
    lemma_sorted_untouched(m1, post, lo, s1);
    lemma_sorted_untouched(m2, post, s1 + 1, s2);
    lemma_sorted_join(post, lo, s1, s1 + 1);
    lemma_sorted_join(post, lo, s1 + 1, s2);
    lemma_sorted_join(post, lo, s2, s2 + 1);
    lemma_sorted_join(post, lo, s2 + 1, hi);
}

/// Stitches a triply partitioned range back together, in the manner of
/// [`lemma_double_pivot_stitch`]: pivots in final position at
/// `s1 < s2 < s3`, four bounded zones, sorted from left to right through the
/// intermediate states `m1`, `m2`, `m3`.
pub proof fn lemma_triple_pivot_stitch(
    pre: Seq<u32>,
    m1: Seq<u32>,
    m2: Seq<u32>,
    m3: Seq<u32>,
    post: Seq<u32>,
    lo: int,
    s1: int,
    s2: int,
    s3: int,
    hi: int,
)
    requires
        0 <= lo <= s1 < s2 < s3 < hi <= pre.len(),
        pre[s1] <= pre[s2] <= pre[s3],
        forall|k: int| lo <= k < s1 ==> pre[k] <= pre[s1],
        forall|k: int| s1 < k < s2 ==> pre[s1] <= pre[k] && pre[k] <= pre[s2],
        forall|k: int| s2 < k < s3 ==> pre[s2] <= pre[k] && pre[k] <= pre[s3],
        forall|k: int| s3 < k < hi ==> pre[k] >= pre[s3],
        range_frame(pre, m1, lo, s1),
        sorted_between(m1, lo, s1),
        range_frame(m1, m2, s1 + 1, s2),
        sorted_between(m2, s1 + 1, s2),
        range_frame(m2, m3, s2 + 1, s3),
        sorted_between(m3, s2 + 1, s3),
        range_frame(m3, post, s3 + 1, hi),
        sorted_between(post, s3 + 1, hi),
    ensures
        range_frame(pre, post, lo, hi),
        sorted_between(post, lo, hi),
{
    let p1 = pre[s1];
    let p2 = pre[s2];
    let p3 = pre[s3];
    let leq1 = |x: u32| x <= p1;
    let mid12 = |x: u32| p1 <= x && x <= p2;
    let mid23 = |x: u32| p2 <= x && x <= p3;
    let geq3 = |x: u32| x >= p3;
    assert forall|k: int| lo <= k < s1 implies #[trigger] leq1(pre[k]) by {}
    lemma_range_frame_preserves(pre, m1, lo, s1, leq1);
    assert forall|k: int| lo <= k < s1 implies post[k] <= p1 by {
        assert(leq1(m1[k]));
        assert(m2[k] == m1[k]);
        assert(m3[k] == m2[k]);
        assert(post[k] == m3[k]);
    }
    assert forall|k: int| s1 < k < s2 implies #[trigger] mid12(m1[k]) by {
        assert(m1[k] == pre[k]);
    }
    lemma_range_frame_preserves(m1, m2, s1 + 1, s2, mid12);
    assert forall|k: int| s1 < k < s2 implies p1 <= post[k] && post[k] <= p2 by {
        assert(mid12(m2[k]));
        assert(m3[k] == m2[k]);
        assert(post[k] == m3[k]);
    }
    assert forall|k: int| s2 < k < s3 implies #[trigger] mid23(m2[k]) by {
        assert(m2[k] == m1[k]);
        assert(m1[k] == pre[k]);
    }
    lemma_range_frame_preserves(m2, m3, s2 + 1, s3, mid23);
    assert forall|k: int| s2 < k < s3 implies p2 <= post[k] && post[k] <= p3 by {
        assert(mid23(m3[k]));
        assert(post[k] == m3[k]);
    }
    assert forall|k: int| s3 < k < hi implies #[trigger] geq3(m3[k]) by {
        assert(m3[k] == m2[k]);
        assert(m2[k] == m1[k]);
        assert(m1[k] == pre[k]);
    }
    lemma_range_frame_preserves(m3, post, s3 + 1, hi, geq3);
    assert forall|k: int| s3 < k < hi implies post[k] >= p3 by {
        assert(geq3(post[k]));
    }
    assert(post[s1] == p1);
    assert(post[s2] == p2);
    assert(post[s3] == p3);
    assert forall|i: int| lo <= i < s1 implies post[i] == m1[i] by {}
    assert forall|i: int| s1 + 1 <= i < s2 implies post[i] == m2[i] by {}
    assert forall|i: int| s2 + 1 <= i < s3 implies post[i] == m3[i] by {}
    lemma_sorted_untouched(m1, post, lo, s1);
    lemma_sorted_untouched(m2, post, s1 + 1, s2);
    lemma_sorted_untouched(m3, post, s2 + 1, s3);
    lemma_sorted_join(post, lo, s1, s1 + 1);
    lemma_sorted_join(post, lo, s1 + 1, s2);
    lemma_sorted_join(post, lo, s2, s2 + 1);
    lemma_sorted_join(post, lo, s2 + 1, s3);
    lemma_sorted_join(post, lo, s3, s3 + 1);
    lemma_sorted_join(post, lo, s3 + 1, hi);
}

/// Stitches a quadruply partitioned range back together, in the manner of
/// [`lemma_triple_pivot_stitch`]: pivots in final position at
/// `s1 < s2 < s3 < s4`, five bounded zones, sorted from left to right
/// through the intermediate states `m1` to `m4`.
pub proof fn lemma_quad_pivot_stitch(
    pre: Seq<u32>,
    m1: Seq<u32>,
    m2: Seq<u32>,
    m3: Seq<u32>,
    m4: Seq<u32>,
    post: Seq<u32>,
    lo: int,
    s1: int,
    s2: int,
    s3: int,
    s4: int,
    hi: int,
)
    requires
        0 <= lo <= s1 < s2 < s3 < s4 < hi <= pre.len(),
        pre[s1] <= pre[s2] <= pre[s3] <= pre[s4],
        forall|k: int| lo <= k < s1 ==> pre[k] <= pre[s1],
        forall|k: int| s1 < k < s2 ==> pre[s1] <= pre[k] && pre[k] <= pre[s2],
        forall|k: int| s2 < k < s3 ==> pre[s2] <= pre[k] && pre[k] <= pre[s3],
        forall|k: int| s3 < k < s4 ==> pre[s3] <= pre[k] && pre[k] <= pre[s4],
        forall|k: int| s4 < k < hi ==> pre[k] >= pre[s4],
        range_frame(pre, m1, lo, s1),
        sorted_between(m1, lo, s1),
        range_frame(m1, m2, s1 + 1, s2),
        sorted_between(m2, s1 + 1, s2),
        range_frame(m2, m3, s2 + 1, s3),
        sorted_between(m3, s2 + 1, s3),
        range_frame(m3, m4, s3 + 1, s4),
        sorted_between(m4, s3 + 1, s4),
        range_frame(m4, post, s4 + 1, hi),
        sorted_between(post, s4 + 1, hi),
    ensures
        range_frame(pre, post, lo, hi),
        sorted_between(post, lo, hi),
{
    let p1 = pre[s1];
    let p2 = pre[s2];
    let p3 = pre[s3];
    let p4 = pre[s4];
    let leq1 = |x: u32| x <= p1;
    let mid12 = |x: u32| p1 <= x && x <= p2;
    let mid23 = |x: u32| p2 <= x && x <= p3;
    let mid34 = |x: u32| p3 <= x && x <= p4;
    let geq4 = |x: u32| x >= p4;
    assert forall|k: int| lo <= k < s1 implies #[trigger] leq1(pre[k]) by {}
    lemma_range_frame_preserves(pre, m1, lo, s1, leq1);
    assert forall|k: int| lo <= k < s1 implies post[k] <= p1 by {
        assert(leq1(m1[k]));
        assert(m2[k] == m1[k]);
        assert(m3[k] == m2[k]);
        assert(m4[k] == m3[k]);
        assert(post[k] == m4[k]);
    }
    assert forall|k: int| s1 < k < s2 implies #[trigger] mid12(m1[k]) by {
        assert(m1[k] == pre[k]);
    }
    lemma_range_frame_preserves(m1, m2, s1 + 1, s2, mid12);
    assert forall|k: int| s1 < k < s2 implies p1 <= post[k] && post[k] <= p2 by {
        assert(mid12(m2[k]));
        assert(m3[k] == m2[k]);
        assert(m4[k] == m3[k]);
        assert(post[k] == m4[k]);
    }
    assert forall|k: int| s2 < k < s3 implies #[trigger] mid23(m2[k]) by {
        assert(m2[k] == m1[k]);
        assert(m1[k] == pre[k]);
    }
    lemma_range_frame_preserves(m2, m3, s2 + 1, s3, mid23);
    assert forall|k: int| s2 < k < s3 implies p2 <= post[k] && post[k] <= p3 by {
        assert(mid23(m3[k]));
        assert(m4[k] == m3[k]);
        assert(post[k] == m4[k]);
    }
    assert forall|k: int| s3 < k < s4 implies #[trigger] mid34(m3[k]) by {
        assert(m3[k] == m2[k]);
        assert(m2[k] == m1[k]);
        assert(m1[k] == pre[k]);
    }
    lemma_range_frame_preserves(m3, m4, s3 + 1, s4, mid34);
    assert forall|k: int| s3 < k < s4 implies p3 <= post[k] && post[k] <= p4 by {
        assert(mid34(m4[k]));
        assert(post[k] == m4[k]);
    }
    assert forall|k: int| s4 < k < hi implies #[trigger] geq4(m4[k]) by {
        assert(m4[k] == m3[k]);
        assert(m3[k] == m2[k]);
        assert(m2[k] == m1[k]);
        assert(m1[k] == pre[k]);
    }
    lemma_range_frame_preserves(m4, post, s4 + 1, hi, geq4);
    assert forall|k: int| s4 < k < hi implies post[k] >= p4 by {
        assert(geq4(post[k]));
    }
    assert(post[s1] == p1);
    assert(post[s2] == p2);
    assert(post[s3] == p3);
    assert(post[s4] == p4);
    assert forall|i: int| lo <= i < s1 implies post[i] == m1[i] by {}
    assert forall|i: int| s1 + 1 <= i < s2 implies post[i] == m2[i] by {}
    assert forall|i: int| s2 + 1 <= i < s3 implies post[i] == m3[i] by {}
    assert forall|i: int| s3 + 1 <= i < s4 implies post[i] == m4[i] by {}
    lemma_sorted_untouched(m1, post, lo, s1);
    lemma_sorted_untouched(m2, post, s1 + 1, s2);
    lemma_sorted_untouched(m3, post, s2 + 1, s3);
    lemma_sorted_untouched(m4, post, s3 + 1, s4);
    lemma_sorted_join(post, lo, s1, s1 + 1);
    lemma_sorted_join(post, lo, s1 + 1, s2);
    lemma_sorted_join(post, lo, s2, s2 + 1);
    lemma_sorted_join(post, lo, s2 + 1, s3);
    lemma_sorted_join(post, lo, s3, s3 + 1);
    lemma_sorted_join(post, lo, s3 + 1, s4);
    lemma_sorted_join(post, lo, s4, s4 + 1);
    lemma_sorted_join(post, lo, s4 + 1, hi);
}

/// A rearrangement that keeps the multiset of `[lo, hi)` and everything
/// outside it pointwise is a range frame.
pub proof fn lemma_frame_from_subrange(pre: Seq<u32>, post: Seq<u32>, lo: int, hi: int)
    requires
        post.len() == pre.len(),
        0 <= lo <= hi <= pre.len(),
        forall|i: int| 0 <= i < pre.len() && !(lo <= i < hi) ==> post[i] == pre[i],
        post.subrange(lo, hi).to_multiset() == pre.subrange(lo, hi).to_multiset(),
    ensures
        range_frame(pre, post, lo, hi),
{
    let n = pre.len() as int;
    let pa = pre.subrange(0, lo);
    let px = pre.subrange(lo, hi);
    let pb = pre.subrange(hi, n);
    let qa = post.subrange(0, lo);
    let qx = post.subrange(lo, hi);
    let qb = post.subrange(hi, n);
    assert(pre =~= pa + px + pb);
    assert(post =~= qa + qx + qb);
    assert(qa =~= pa);
    assert(qb =~= pb);
    lemma_to_multiset_of_concat(pa + px, pb);
    lemma_to_multiset_of_concat(pa, px);
    lemma_to_multiset_of_concat(qa + qx, qb);
    lemma_to_multiset_of_concat(qa, qx);
}

/// A value present in a rearranged range is still present there afterwards.
pub proof fn lemma_frame_keeps_value(pre: Seq<u32>, post: Seq<u32>, lo: int, hi: int, v: u32)
    requires
        range_frame(pre, post, lo, hi),
        0 <= lo <= hi <= pre.len(),
        exists|q: int| lo <= q < hi && pre[q] == v,
    ensures
        exists|q: int| lo <= q < hi && post[q] == v,
{
    broadcast use group_to_multiset_ensures;

    lemma_range_frame_subrange(pre, post, lo, hi);
    let px = pre.subrange(lo, hi);
    let qx = post.subrange(lo, hi);
    let q0 = choose|q: int| lo <= q < hi && pre[q] == v;
    assert(px[q0 - lo] == v);
    assert(px.contains(v));
    assert(px.to_multiset().count(v) > 0);
    assert(qx.to_multiset().count(v) > 0);
    assert(qx.contains(v));
    let w = choose|w: int| 0 <= w < qx.len() && qx[w] == v;
    assert(post[lo + w] == v);
}

/// Two sorted spans that meet at `mid`, with everything on the left at most
/// everything on the right, form one sorted span.
pub proof fn lemma_sorted_join(s: Seq<u32>, lo: int, mid: int, hi: int)
    requires
        0 <= lo <= mid <= hi <= s.len(),
        sorted_between(s, lo, mid),
        sorted_between(s, mid, hi),
        forall|i: int, j: int| lo <= i < mid <= j < hi ==> s[i] <= s[j],
    ensures
        sorted_between(s, lo, hi),
{
}

} // verus!

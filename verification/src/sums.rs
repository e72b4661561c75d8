//! Sums over sequences of integers, and the handful of facts about them that
//! the stabilization proofs need: how a sum reacts to updating one element,
//! and bounds on elements and on sums of squares.

use vstd::prelude::*;

verus! {

/// Sum of all elements of `s`.
pub open spec fn sum_int(s: Seq<int>) -> int
    decreases s.len(),
{
    if s.len() == 0 {
        0
    } else {
        sum_int(s.drop_last()) + s.last()
    }
}

/// Sum of the squares of all elements of `s`.
pub open spec fn sum_sq(s: Seq<int>) -> int
    decreases s.len(),
{
    if s.len() == 0 {
        0
    } else {
        sum_sq(s.drop_last()) + s.last() * s.last()
    }
}

/// Replacing `s[i]` by `v` changes the sum by `v - s[i]`.
pub proof fn lemma_sum_update(s: Seq<int>, i: int, v: int)
    requires
        0 <= i < s.len(),
    ensures
        sum_int(s.update(i, v)) == sum_int(s) - s[i] + v,
    decreases s.len(),
{
    let t = s.update(i, v);
    if i == s.len() - 1 {
        assert(t.drop_last() =~= s.drop_last());
    } else {
        lemma_sum_update(s.drop_last(), i, v);
        assert(t.drop_last() =~= s.drop_last().update(i, v));
        assert(t.last() == s.last());
    }
}

/// A sum of non-negative elements is non-negative.
pub proof fn lemma_sum_nonneg(s: Seq<int>)
    requires
        forall|k: int| 0 <= k < s.len() ==> s[k] >= 0,
    ensures
        sum_int(s) >= 0,
    decreases s.len(),
{
    if s.len() > 0 {
        lemma_sum_nonneg(s.drop_last());
    }
}

/// In a sequence of non-negative elements, each element is at most the sum.
pub proof fn lemma_sum_element_bound(s: Seq<int>, i: int)
    requires
        0 <= i < s.len(),
        forall|k: int| 0 <= k < s.len() ==> s[k] >= 0,
    ensures
        s[i] <= sum_int(s),
    decreases s.len(),
{
    if i == s.len() - 1 {
        lemma_sum_nonneg(s.drop_last());
    } else {
        lemma_sum_element_bound(s.drop_last(), i);
    }
}

/// Sum of a constant sequence.
pub proof fn lemma_sum_const(s: Seq<int>, c: int)
    requires
        forall|k: int| 0 <= k < s.len() ==> s[k] == c,
    ensures
        sum_int(s) == s.len() * c,
    decreases s.len(),
{
    if s.len() > 0 {
        lemma_sum_const(s.drop_last(), c);
        assert((s.len() - 1) * c + c == s.len() * c) by (nonlinear_arith);
    }
}

/// Pointwise-smaller sequences have smaller sums.
pub proof fn lemma_sum_pointwise_le(s: Seq<int>, t: Seq<int>)
    requires
        s.len() == t.len(),
        forall|k: int| 0 <= k < s.len() ==> #[trigger] s[k] <= t[k],
    ensures
        sum_int(s) <= sum_int(t),
    decreases s.len(),
{
    if s.len() > 0 {
        lemma_sum_pointwise_le(s.drop_last(), t.drop_last());
    }
}

/// A prefix of a sequence of non-negative elements sums to at most the whole.
pub proof fn lemma_sum_take_le(s: Seq<int>, i: int)
    requires
        0 <= i <= s.len(),
        forall|k: int| 0 <= k < s.len() ==> s[k] >= 0,
    ensures
        sum_int(s.take(i)) <= sum_int(s),
    decreases s.len(),
{
    if i == s.len() {
        assert(s.take(i) =~= s);
    } else {
        lemma_sum_take_le(s.drop_last(), i);
        assert(s.take(i) =~= s.drop_last().take(i));
    }
}

/// Replacing `s[i]` by `v` changes the sum of squares accordingly.
pub proof fn lemma_sum_sq_update(s: Seq<int>, i: int, v: int)
    requires
        0 <= i < s.len(),
    ensures
        sum_sq(s.update(i, v)) == sum_sq(s) - s[i] * s[i] + v * v,
    decreases s.len(),
{
    let t = s.update(i, v);
    if i == s.len() - 1 {
        assert(t.drop_last() =~= s.drop_last());
    } else {
        lemma_sum_sq_update(s.drop_last(), i, v);
        assert(t.drop_last() =~= s.drop_last().update(i, v));
        assert(t.last() == s.last());
    }
}

/// A sum of squares is non-negative, and bounded once the elements are.
pub proof fn lemma_sum_sq_bound(s: Seq<int>, b: int)
    requires
        b >= 0,
        forall|k: int| 0 <= k < s.len() ==> -b <= #[trigger] s[k] <= b,
    ensures
        0 <= sum_sq(s),
        sum_sq(s) <= s.len() * (b * b),
    decreases s.len(),
{
    if s.len() > 0 {
        lemma_sum_sq_bound(s.drop_last(), b);
        let x = s.last();
        assert(0 <= x * x <= b * b) by (nonlinear_arith)
            requires
                -b <= x <= b,
        ;
        assert((s.len() - 1) * (b * b) + b * b == s.len() * (b * b)) by (nonlinear_arith);
    }
}

/// Squares of pointwise-ordered non-negative sequences are ordered too.
pub proof fn lemma_sum_sq_pointwise_le(s: Seq<int>, t: Seq<int>)
    requires
        s.len() == t.len(),
        forall|k: int| 0 <= k < s.len() ==> 0 <= #[trigger] s[k] <= t[k],
    ensures
        sum_sq(s) <= sum_sq(t),
    decreases s.len(),
{
    if s.len() > 0 {
        lemma_sum_sq_pointwise_le(s.drop_last(), t.drop_last());
        let x = s.last();
        let y = t.last();
        assert(x * x <= y * y) by (nonlinear_arith)
            requires
                0 <= x <= y,
        ;
    }
}

} // verus!

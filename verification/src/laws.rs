//! General properties of the stabilization algorithm, stated and proved once
//! for all landscapes. Mass conservation over a whole call and idempotence on
//! an already-stable landscape are part of `Landscape::stabilize_water`'s
//! contract; the facts here cover the remaining algebra of single
//! flow-updates and of the diagnostic potential.

use vstd::prelude::*;

use crate::model::{
    apply_flows, candidate_list, candidates_upto, flows_at, flows_for, is_neighbor, neighbor_seq,
    pass_flows, pass_flows_upto, step_pass, FlowModel, LandscapeModel,
};
use crate::sums::{lemma_sum_sq_pointwise_le, lemma_sum_sq_update, lemma_sum_update, sum_int};

verus! {

/// The state after one flow-update `u` is applied on its own: its amount
/// leaves the source and reaches the destination.
pub open spec fn apply_one(m: LandscapeModel, u: FlowModel) -> LandscapeModel {
    LandscapeModel {
        waters: m.waters.update(u.from, m.waters[u.from] - u.amount).update(
            u.to,
            m.waters[u.to] + u.amount,
        ),
        ..m
    }
}

/// Mass conservation for one flow-update: water only moves, so the total is
/// unchanged.
pub proof fn lemma_flow_conserves_mass(m: LandscapeModel, u: FlowModel)
    requires
        0 <= u.from < m.waters.len(),
        0 <= u.to < m.waters.len(),
        u.from != u.to,
    ensures
        sum_int(apply_one(m, u).waters) == sum_int(m.waters),
{
    let w1 = m.waters.update(u.from, m.waters[u.from] - u.amount);
    lemma_sum_update(m.waters, u.from, m.waters[u.from] - u.amount);
    lemma_sum_update(w1, u.to, w1[u.to] + u.amount);
}

/// No overshoot: a flow-update, applied on its own, never reverses the slope
/// it was recorded for — the source's new height stays at or above the
/// destination's new height, because the amount is capped at half of their
/// height difference.
pub proof fn lemma_no_overshoot(m: LandscapeModel, u: FlowModel)
    requires
        m.wf(),
        m.valid_flow(u),
    ensures
        apply_one(m, u).height(u.from) >= apply_one(m, u).height(u.to),
{
    assert(u.from != u.to);
}

/// Monotone potential, the decreasing half: one flow-update, applied on its
/// own, strictly lowers the diagnostic potential.
pub proof fn lemma_flow_lowers_potential(m: LandscapeModel, u: FlowModel)
    requires
        m.wf(),
        m.valid_flow(u),
    ensures
        apply_one(m, u).potential() < m.potential(),
{
    let n = m.grounds.len();
    let m2 = apply_one(m, u);
    let hs = Seq::new(n, |i: int| m.height(i));
    let hs2 = Seq::new(n, |i: int| m2.height(i));
    let hf = m.height(u.from);
    let ht = m.height(u.to);
    let a = u.amount;
    assert(u.from != u.to);
    assert(hs2 =~= hs.update(u.from, hf - a).update(u.to, ht + a));
    let w1 = hs.update(u.from, hf - a);
    lemma_sum_sq_update(hs, u.from, hf - a);
    lemma_sum_sq_update(w1, u.to, ht + a);
    assert((hf - a) * (hf - a) + (ht + a) * (ht + a) < hf * hf + ht * ht) by (nonlinear_arith)
        requires
            a >= 1,
            2 * a <= hf - ht,
    ;
}

/// Monotone potential, the bounded half: over terrain at or above zero the
/// diagnostic potential never drops below its floor, the potential of the
/// fully drained landscape.
pub proof fn lemma_potential_floor(m: LandscapeModel)
    requires
        m.wf(),
        forall|k: int| 0 <= k < m.grounds.len() ==> #[trigger] m.grounds[k] >= 0,
    ensures
        m.potential() >= m.potential_floor(),
{
    let hs = Seq::new(m.grounds.len(), |i: int| m.height(i));
    lemma_sum_sq_pointwise_le(m.grounds, hs);
}

/// Every entry of the neighbor sequence is a neighbor.
proof fn lemma_neighbor_seq_members(n: int, i: int)
    requires
        0 <= i < n,
    ensures
        forall|t: int|
            0 <= t < neighbor_seq(n, i).len() ==> is_neighbor(n, i, #[trigger] neighbor_seq(
                n,
                i,
            )[t]),
{
}

/// Every downhill candidate of the visited point is a strictly-downhill
/// neighbor, and there are no more candidates than neighbors examined.
proof fn lemma_candidates_members(m: LandscapeModel, i: int, t: int)
    requires
        m.wf(),
        0 <= i < m.point_count(),
        0 <= t <= neighbor_seq(m.point_count(), i).len(),
    ensures
        candidates_upto(m, i, t).len() <= t,
        forall|s: int|
            0 <= s < candidates_upto(m, i, t).len() ==> m.downhill(
                i,
                #[trigger] candidates_upto(m, i, t)[s],
            ),
    decreases t,
{
    if t > 0 {
        lemma_candidates_members(m, i, t - 1);
        lemma_neighbor_seq_members(m.point_count(), i);
        let prev = candidates_upto(m, i, t - 1);
        let cur = candidates_upto(m, i, t);
        let j = neighbor_seq(m.point_count(), i)[t - 1];
        assert(is_neighbor(m.point_count(), i, j));
        assert forall|s: int| 0 <= s < cur.len() implies m.downhill(i, cur[s]) by {
            if s < prev.len() {
                assert(cur[s] == prev[s]);
            } else {
                assert(cur[s] == j);
            }
        }
    }
}

/// A point with no downhill neighbor at all has no downhill candidates.
proof fn lemma_no_candidates(m: LandscapeModel, i: int, t: int)
    requires
        m.wf(),
        0 <= i < m.point_count(),
        forall|j: int| !m.downhill(i, j),
        0 <= t <= neighbor_seq(m.point_count(), i).len(),
    ensures
        candidates_upto(m, i, t).len() == 0,
    decreases t,
{
    if t > 0 {
        lemma_no_candidates(m, i, t - 1);
        lemma_neighbor_seq_members(m.point_count(), i);
        let j = neighbor_seq(m.point_count(), i)[t - 1];
        assert(!m.downhill(i, j));
    }
}

/// A pass records nothing when it visits a point that is not unstable.
proof fn lemma_calm_point_records_nothing(m: LandscapeModel, i: int)
    requires
        m.wf(),
        0 <= i < m.point_count(),
        !m.unstable_at(i),
    ensures
        flows_at(m, i).len() == 0,
{
    if m.waters[i] > m.eps {
        assert forall|j: int| !m.downhill(i, j) by {
            if m.downhill(i, j) {
                assert(m.unstable_at(i));
            }
        }
        lemma_no_candidates(m, i, neighbor_seq(m.point_count(), i).len() as int);
        assert(candidate_list(m, i).len() == 0);
    }
}

/// A pass over a stable landscape records nothing at its first `k` points.
proof fn lemma_stable_pass_upto_empty(m: LandscapeModel, k: int)
    requires
        m.wf(),
        m.is_stable(),
        0 <= k <= m.point_count(),
    ensures
        pass_flows_upto(m, k).len() == 0,
    decreases k,
{
    if k > 0 {
        lemma_stable_pass_upto_empty(m, k - 1);
        lemma_calm_point_records_nothing(m, m.order[k - 1]);
    }
}

/// Idempotence: a stabilization pass over a stable landscape records no
/// flow-update at all and leaves the landscape exactly as it was.
pub proof fn lemma_stable_pass_identity(m: LandscapeModel)
    requires
        m.wf(),
        m.is_stable(),
    ensures
        pass_flows(m).len() == 0,
        step_pass(m) == m,
{
    lemma_stable_pass_upto_empty(m, m.point_count());
    assert(apply_flows(m.waters, pass_flows(m)) == m.waters);
    assert(step_pass(m) == m);
}

/// The flow-updates toward a candidate list: one per candidate, each from
/// the visited point to its candidate.
proof fn lemma_flows_for_members(m: LandscapeModel, i: int, share: int, cands: Seq<int>)
    requires
        0 <= i < m.point_count(),
        forall|s: int|
            0 <= s < cands.len() ==> is_neighbor(m.point_count(), i, #[trigger] cands[s]),
    ensures
        flows_for(m, i, share, cands).len() == cands.len(),
        forall|k: int|
            0 <= k < cands.len() ==> (#[trigger] flows_for(m, i, share, cands)[k]).from == i
                && flows_for(m, i, share, cands)[k].to == cands[k],
    decreases cands.len(),
{
    if cands.len() > 0 {
        lemma_flows_for_members(m, i, share, cands.drop_last());
    }
}

/// Every flow-update a pass records runs between two distinct in-bounds
/// points.
proof fn lemma_pass_flows_members(m: LandscapeModel, k: int)
    requires
        m.wf(),
        0 <= k <= m.point_count(),
    ensures
        forall|t: int|
            0 <= t < pass_flows_upto(m, k).len() ==> {
                let u = #[trigger] pass_flows_upto(m, k)[t];
                &&& 0 <= u.from < m.point_count()
                &&& 0 <= u.to < m.point_count()
                &&& u.from != u.to
            },
    decreases k,
{
    if k > 0 {
        lemma_pass_flows_members(m, k - 1);
        let i = m.order[k - 1];
        let nn = neighbor_seq(m.point_count(), i).len() as int;
        lemma_candidates_members(m, i, nn);
        let cl = candidate_list(m, i);
        let fa = flows_at(m, i);
        if !(m.waters[i] <= m.eps || cl.len() == 0) {
            lemma_flows_for_members(m, i, m.waters[i] / cl.len() as int, cl);
        }
        let prev = pass_flows_upto(m, k - 1);
        let cur = pass_flows_upto(m, k);
        assert forall|t: int| 0 <= t < cur.len() implies {
            let u = #[trigger] cur[t];
            &&& 0 <= u.from < m.point_count()
            &&& 0 <= u.to < m.point_count()
            &&& u.from != u.to
        } by {
            if t < prev.len() {
                assert(cur[t] == prev[t]);
            } else {
                assert(cur[t] == fa[t - prev.len()]);
                assert(is_neighbor(m.point_count(), i, cl[t - prev.len()]));
            }
        }
    }
}

/// The flow-updates toward strictly-downhill candidates are all valid: each
/// runs to a downhill neighbor, moves at least one unit, and is capped at
/// half of the height difference.
proof fn lemma_flows_for_valid(m: LandscapeModel, i: int, share: int, cands: Seq<int>)
    requires
        m.wf(),
        0 <= i < m.point_count(),
        m.waters[i] > m.eps,
        share >= 1,
        forall|s: int| 0 <= s < cands.len() ==> m.downhill(i, #[trigger] cands[s]),
    ensures
        forall|k: int|
            0 <= k < flows_for(m, i, share, cands).len() ==> m.valid_flow(
                #[trigger] flows_for(m, i, share, cands)[k],
            ),
    decreases cands.len(),
{
    if cands.len() > 0 {
        lemma_flows_for_valid(m, i, share, cands.drop_last());
        let j = cands.last();
        let d = m.height(i) - m.height(j);
        let half = d / 2;
        assert(half >= 1 && 2 * half <= d) by (nonlinear_arith)
            requires
                d >= 2,
                half == d / 2,
        ;
        let prev = flows_for(m, i, share, cands.drop_last());
        let cur = flows_for(m, i, share, cands);
        assert forall|k: int| 0 <= k < cur.len() implies m.valid_flow(cur[k]) by {
            if k < prev.len() {
                assert(cur[k] == prev[k]);
            } else {
                assert(cur[k] == cur.last());
            }
        }
    }
}

/// Every flow-update the pass records at its first `k` points is valid.
proof fn lemma_pass_flows_valid_upto(m: LandscapeModel, k: int)
    requires
        m.wf(),
        0 <= k <= m.point_count(),
    ensures
        forall|t: int|
            0 <= t < pass_flows_upto(m, k).len() ==> m.valid_flow(
                #[trigger] pass_flows_upto(m, k)[t],
            ),
    decreases k,
{
    if k > 0 {
        lemma_pass_flows_valid_upto(m, k - 1);
        let i = m.order[k - 1];
        let nn = neighbor_seq(m.point_count(), i).len() as int;
        lemma_candidates_members(m, i, nn);
        let cl = candidate_list(m, i);
        let fa = flows_at(m, i);
        if !(m.waters[i] <= m.eps || cl.len() == 0) {
            let share = m.waters[i] / cl.len() as int;
            assert(share >= 1) by (nonlinear_arith)
                requires
                    m.waters[i] >= 2,
                    1 <= cl.len() <= 2,
                    share == m.waters[i] / cl.len() as int,
            ;
            lemma_flows_for_valid(m, i, share, cl);
        }
        let prev = pass_flows_upto(m, k - 1);
        let cur = pass_flows_upto(m, k);
        assert forall|t: int| 0 <= t < cur.len() implies m.valid_flow(#[trigger] cur[t]) by {
            if t < prev.len() {
                assert(cur[t] == prev[t]);
            } else {
                assert(cur[t] == fa[t - prev.len()]);
            }
        }
    }
}

/// Every flow-update a pass records is valid, so in particular — by
/// `lemma_no_overshoot` — none of them reverses the slope it was recorded
/// for, and — by `lemma_flow_lowers_potential` — each of them on its own
/// strictly lowers the diagnostic potential.
pub proof fn lemma_pass_flows_valid(m: LandscapeModel)
    requires
        m.wf(),
    ensures
        forall|t: int|
            0 <= t < pass_flows(m).len() ==> m.valid_flow(#[trigger] pass_flows(m)[t]),
{
    lemma_pass_flows_valid_upto(m, m.point_count());
}

/// Applying flow-updates between distinct in-bounds points keeps the total.
proof fn lemma_apply_flows_conserves(ws: Seq<int>, us: Seq<FlowModel>)
    requires
        forall|k: int|
            0 <= k < us.len() ==> {
                let u = #[trigger] us[k];
                &&& 0 <= u.from < ws.len()
                &&& 0 <= u.to < ws.len()
                &&& u.from != u.to
            },
    ensures
        apply_flows(ws, us).len() == ws.len(),
        sum_int(apply_flows(ws, us)) == sum_int(ws),
    decreases us.len(),
{
    if us.len() > 0 {
        lemma_apply_flows_conserves(ws, us.drop_last());
        let prev = apply_flows(ws, us.drop_last());
        let u = us.last();
        let w1 = prev.update(u.from, prev[u.from] - u.amount);
        lemma_sum_update(prev, u.from, prev[u.from] - u.amount);
        lemma_sum_update(w1, u.to, w1[u.to] + u.amount);
    }
}

/// Mass conservation over a whole pass: recording one batch of flow-updates
/// and applying it moves water around but never creates or destroys any.
pub proof fn lemma_pass_conserves_mass(m: LandscapeModel)
    requires
        m.wf(),
    ensures
        sum_int(step_pass(m).waters) == sum_int(m.waters),
{
    lemma_pass_flows_members(m, m.point_count());
    lemma_apply_flows_conserves(m.waters, pass_flows(m));
}

/// Monotone potential for a pass of one flow-update: such a pass strictly
/// lowers the diagnostic potential.
pub proof fn lemma_single_flow_pass_lowers_potential(m: LandscapeModel)
    requires
        m.wf(),
        pass_flows(m).len() == 1,
    ensures
        step_pass(m).potential() < m.potential(),
{
    lemma_pass_flows_valid(m);
    let u = pass_flows(m)[0];
    assert(m.valid_flow(u));
    lemma_flow_lowers_potential(m, u);
    assert(pass_flows(m).last() == u);
    assert(apply_flows(m.waters, pass_flows(m).drop_last()) == m.waters);
    assert(step_pass(m) == apply_one(m, u));
}

/// Monotone potential for two-point landscapes: a pass records at most one
/// flow-update (the pair can only flow one way at a time), so every pass
/// that moves water strictly lowers the diagnostic potential, and any other
/// pass is the identity.
pub proof fn lemma_two_point_pass_lowers_potential(m: LandscapeModel)
    requires
        m.wf(),
        m.point_count() == 2,
    ensures
        pass_flows(m).len() <= 1,
        pass_flows(m).len() == 1 ==> step_pass(m).potential() < m.potential(),
        pass_flows(m).len() == 0 ==> step_pass(m) == m,
{
    let i0 = m.order[0];
    let i1 = m.order[1];
    assert(pass_flows(m) == pass_flows_upto(m, 2));
    assert(pass_flows_upto(m, 1) == pass_flows_upto(m, 0) + flows_at(m, i0));
    assert(pass_flows_upto(m, 2) == pass_flows_upto(m, 1) + flows_at(m, i1));
    lemma_candidates_members(m, i0, neighbor_seq(2, i0).len() as int);
    lemma_candidates_members(m, i1, neighbor_seq(2, i1).len() as int);
    let cl0 = candidate_list(m, i0);
    let cl1 = candidate_list(m, i1);
    if cl0.len() > 0 {
        lemma_flows_for_members(m, i0, m.waters[i0] / cl0.len() as int, cl0);
    }
    if cl1.len() > 0 {
        lemma_flows_for_members(m, i1, m.waters[i1] / cl1.len() as int, cl1);
    }
    if flows_at(m, i0).len() > 0 && flows_at(m, i1).len() > 0 {
        // both points would have to lie strictly below each other
        assert(m.downhill(i0, cl0[0]));
        assert(m.downhill(i1, cl1[0]));
        assert(cl0[0] == i1 && cl1[0] == i0);
        assert(false);
    }
    if pass_flows(m).len() == 1 {
        lemma_single_flow_pass_lowers_potential(m);
    }
    if pass_flows(m).len() == 0 {
        assert(apply_flows(m.waters, pass_flows(m)) == m.waters);
        assert(step_pass(m) == m);
    }
}

/// A landscape of a single point is always stable: the point has no
/// neighbors to flow to, whatever water it carries.
pub proof fn lemma_single_point_stable(m: LandscapeModel)
    requires
        m.point_count() == 1,
    ensures
        m.is_stable(),
{
    assert forall|i: int| 0 <= i < m.point_count() implies !m.unstable_at(i) by {
        if m.unstable_at(i) {
            let j = choose|j: int| m.downhill(i, j);
            assert(is_neighbor(1, 0, j));
        }
    }
}

} // verus!

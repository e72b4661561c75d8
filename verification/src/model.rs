//! The mathematical model of a landscape: pure sequences of ground heights
//! and water depths, the neighbor relation, the stability criterion, and the
//! bookkeeping for one pass worth of flow-updates.

use vstd::prelude::*;

use crate::sums::{lemma_sum_element_bound, sum_int, sum_sq};
use crate::{MAX_GROUND_ABS, MAX_POINTS, MAX_TOTAL_WATER};

verus! {

/// Abstract state of a landscape: per-point ground heights and water depths,
/// the fixed visiting order of the stabilization passes, and the tolerance.
pub ghost struct LandscapeModel {
    pub grounds: Seq<int>,
    pub waters: Seq<int>,
    pub order: Seq<int>,
    pub eps: int,
}

/// Abstract form of one proposed transfer of water.
pub ghost struct FlowModel {
    pub from: int,
    pub to: int,
    pub amount: int,
}

impl LandscapeModel {
    /// Number of points.
    pub open spec fn point_count(self) -> int {
        self.grounds.len() as int
    }

    /// Water-surface height of point `i`: ground plus water.
    pub open spec fn height(self, i: int) -> int {
        self.grounds[i] + self.waters[i]
    }

    /// Well-formed landscape: consistent lengths, bounded ground heights,
    /// non-negative bounded water, a positive tolerance, and a visiting
    /// order that is a permutation of the indices, sorted by descending
    /// initial ground height.
    pub open spec fn wf(self) -> bool {
        &&& 1 <= self.grounds.len() <= MAX_POINTS
        &&& self.waters.len() == self.grounds.len()
        &&& self.order.len() == self.grounds.len()
        &&& forall|k: int|
            0 <= k < self.grounds.len() ==> -MAX_GROUND_ABS <= #[trigger] self.grounds[k]
                <= MAX_GROUND_ABS
        &&& forall|k: int| 0 <= k < self.waters.len() ==> self.waters[k] >= 0
        &&& sum_int(self.waters) <= MAX_TOTAL_WATER
        &&& 1 <= self.eps <= MAX_GROUND_ABS
        &&& forall|k: int| 0 <= k < self.order.len() ==> 0 <= #[trigger] self.order[k] < self.grounds.len()
        &&& forall|k1: int, k2: int|
            0 <= k1 < k2 < self.order.len() ==> self.order[k1] != self.order[k2]
        &&& forall|v: int| 0 <= v < self.grounds.len() ==> self.order.contains(v)
        &&& forall|k1: int, k2: int|
            0 <= k1 < k2 < self.order.len()
                ==> self.grounds[self.order[k1]] >= self.grounds[self.order[k2]]
    }

    /// Point `i` holds enough water to move and has a strictly-downhill
    /// neighbor, so a pass visiting it records at least one flow-update.
    pub open spec fn unstable_at(self, i: int) -> bool {
        &&& self.waters[i] > self.eps
        &&& exists|j: int| self.downhill(i, j)
    }

    /// `j` is a neighbor of `i` whose water surface lies more than the
    /// tolerance below that of `i`.
    pub open spec fn downhill(self, i: int, j: int) -> bool {
        &&& is_neighbor(self.point_count(), i, j)
        &&& self.height(i) > self.height(j) + self.eps
    }

    /// A stable landscape: a stabilization pass records no flow-update.
    pub open spec fn is_stable(self) -> bool {
        forall|i: int| 0 <= i < self.point_count() ==> !self.unstable_at(i)
    }

    /// The flow-update `u` is one that a pass over this state may record.
    pub open spec fn valid_flow(self, u: FlowModel) -> bool {
        &&& 0 <= u.from < self.point_count()
        &&& 0 <= u.to < self.point_count()
        &&& is_neighbor(self.point_count(), u.from, u.to)
        &&& u.amount >= 1
        &&& self.waters[u.from] > self.eps
        &&& self.height(u.from) > self.height(u.to) + self.eps
        &&& 2 * u.amount <= self.height(u.from) - self.height(u.to)
    }

    /// Diagnostic potential: the sum of squared water-surface heights.
    pub open spec fn potential(self) -> int {
        sum_sq(Seq::new(self.grounds.len(), |i: int| self.height(i)))
    }

    /// Theoretical floor of the potential: the fully drained landscape.
    pub open spec fn potential_floor(self) -> int {
        sum_sq(self.grounds)
    }
}

/// The neighbor relation of the one-dimensional terrain. Every interior
/// point sees its left and right neighbors. The left edge is asymmetric on
/// purpose: point 0 has no left neighbor and is instead paired with point 1
/// whenever the landscape has more than one point.
pub open spec fn is_neighbor(n: int, i: int, j: int) -> bool {
    ||| i > 0 && j == i - 1
    ||| i == 0 && n > 1 && j == 1
    ||| i > 0 && i < n - 1 && j == i + 1
}

/// The values of a sequence of indices, as mathematical integers.
pub open spec fn idxs_of(s: Seq<usize>) -> Seq<int> {
    Seq::new(s.len(), |i: int| s[i] as int)
}

/// The neighbor indices of `i` in a landscape of `n` points, left first:
/// the sequence form of `is_neighbor`, in the order a pass examines them.
pub open spec fn neighbor_seq(n: int, i: int) -> Seq<int> {
    if i > 0 {
        if i < n - 1 {
            seq![i - 1, i + 1]
        } else {
            seq![i - 1]
        }
    } else {
        if n > 1 {
            seq![1]
        } else {
            seq![]
        }
    }
}

/// The downhill candidates a pass visiting `i` has found among the first `t`
/// neighbors: those whose water surface lies more than the tolerance below.
pub open spec fn candidates_upto(m: LandscapeModel, i: int, t: int) -> Seq<int>
    decreases t,
{
    if t <= 0 {
        seq![]
    } else {
        let prev = candidates_upto(m, i, t - 1);
        let j = neighbor_seq(m.point_count(), i)[t - 1];
        if m.height(i) > m.height(j) + m.eps {
            prev.push(j)
        } else {
            prev
        }
    }
}

/// All downhill candidates of point `i`, in neighbor order.
pub open spec fn candidate_list(m: LandscapeModel, i: int) -> Seq<int> {
    candidates_upto(m, i, neighbor_seq(m.point_count(), i).len() as int)
}

/// The flow-updates a pass records toward the candidates `cands` of point
/// `i`: each receives the smaller of the equal share and half of its height
/// difference to `i`.
pub open spec fn flows_for(m: LandscapeModel, i: int, share: int, cands: Seq<int>) -> Seq<
    FlowModel,
>
    decreases cands.len(),
{
    if cands.len() == 0 {
        seq![]
    } else {
        let j = cands.last();
        let half = (m.height(i) - m.height(j)) / 2;
        let amt = if share < half {
            share
        } else {
            half
        };
        flows_for(m, i, share, cands.drop_last()).push(FlowModel { from: i, to: j, amount: amt })
    }
}

/// The flow-updates a pass over the frozen state `m` records when it visits
/// point `i`: none when the point's water is negligible or nothing lies
/// downhill, otherwise an equal split capped at half of each difference.
pub open spec fn flows_at(m: LandscapeModel, i: int) -> Seq<FlowModel> {
    let cands = candidate_list(m, i);
    if m.waters[i] <= m.eps || cands.len() == 0 {
        seq![]
    } else {
        flows_for(m, i, m.waters[i] / cands.len() as int, cands)
    }
}

/// All flow-updates of one pass over the frozen state `m`: what visiting the
/// first `k` points of the priority order records.
pub open spec fn pass_flows_upto(m: LandscapeModel, k: int) -> Seq<FlowModel>
    decreases k,
{
    if k <= 0 {
        seq![]
    } else {
        pass_flows_upto(m, k - 1) + flows_at(m, m.order[k - 1])
    }
}

/// All flow-updates of one pass over the frozen state `m`, in scan order.
pub open spec fn pass_flows(m: LandscapeModel) -> Seq<FlowModel> {
    pass_flows_upto(m, m.point_count())
}

/// The waters after the flow-updates `us` are applied one after the other,
/// in order: each moves its amount from its source to its destination.
pub open spec fn apply_flows(ws: Seq<int>, us: Seq<FlowModel>) -> Seq<int>
    decreases us.len(),
{
    if us.len() == 0 {
        ws
    } else {
        let prev = apply_flows(ws, us.drop_last());
        let u = us.last();
        prev.update(u.from, prev[u.from] - u.amount).update(u.to, prev[u.to] + u.amount)
    }
}

/// One whole stabilization pass: record the batch against the frozen state,
/// then apply it.
pub open spec fn step_pass(m: LandscapeModel) -> LandscapeModel {
    LandscapeModel { waters: apply_flows(m.waters, pass_flows(m)), ..m }
}

/// The state after `t` stabilization passes.
pub open spec fn run_passes(m: LandscapeModel, t: int) -> LandscapeModel
    decreases t,
{
    if t <= 0 {
        m
    } else {
        step_pass(run_passes(m, t - 1))
    }
}

/// Total amount that the flow-updates `us` draw out of point `p`.
pub open spec fn outflow(us: Seq<FlowModel>, p: int) -> int
    decreases us.len(),
{
    if us.len() == 0 {
        0
    } else {
        outflow(us.drop_last(), p) + if us.last().from == p {
            us.last().amount
        } else {
            0
        }
    }
}

/// Total amount that the flow-updates `us` pour into point `p`.
pub open spec fn inflow(us: Seq<FlowModel>, p: int) -> int
    decreases us.len(),
{
    if us.len() == 0 {
        0
    } else {
        inflow(us.drop_last(), p) + if us.last().to == p {
            us.last().amount
        } else {
            0
        }
    }
}

/// Appending one flow-update adds its contribution to either total.
pub proof fn lemma_flow_push(us: Seq<FlowModel>, u: FlowModel, p: int)
    ensures
        outflow(us.push(u), p) == outflow(us, p) + if u.from == p {
            u.amount
        } else {
            0
        },
        inflow(us.push(u), p) == inflow(us, p) + if u.to == p {
            u.amount
        } else {
            0
        },
{
    assert(us.push(u).drop_last() =~= us);
    assert(us.push(u).last() == u);
}

/// Outflow and inflow split across any cut of the update list.
pub proof fn lemma_flow_split(us: Seq<FlowModel>, k: int, p: int)
    requires
        0 <= k <= us.len(),
    ensures
        outflow(us, p) == outflow(us.take(k), p) + outflow(us.skip(k), p),
        inflow(us, p) == inflow(us.take(k), p) + inflow(us.skip(k), p),
    decreases us.len(),
{
    if k == us.len() {
        assert(us.take(k) =~= us);
        assert(us.skip(k).len() == 0);
    } else {
        lemma_flow_split(us.drop_last(), k, p);
        assert(us.take(k) =~= us.drop_last().take(k));
        assert(us.skip(k).drop_last() =~= us.drop_last().skip(k));
        assert(us.skip(k).last() == us.last());
    }
}

/// With non-negative amounts, both totals are non-negative.
pub proof fn lemma_flow_nonneg(us: Seq<FlowModel>, p: int)
    requires
        forall|k: int| 0 <= k < us.len() ==> (#[trigger] us[k]).amount >= 0,
    ensures
        outflow(us, p) >= 0,
        inflow(us, p) >= 0,
    decreases us.len(),
{
    if us.len() > 0 {
        lemma_flow_nonneg(us.drop_last(), p);
    }
}

/// With non-negative amounts, one update's amount bounds the outflow of its
/// source from below.
pub proof fn lemma_flow_elem_bound(us: Seq<FlowModel>, k: int, p: int)
    requires
        0 <= k < us.len(),
        forall|t: int| 0 <= t < us.len() ==> (#[trigger] us[t]).amount >= 0,
        us[k].from == p,
    ensures
        outflow(us, p) >= us[k].amount,
    decreases us.len(),
{
    if k == us.len() - 1 {
        lemma_flow_nonneg(us.drop_last(), p);
    } else {
        lemma_flow_elem_bound(us.drop_last(), k, p);
    }
}

/// In a well-formed landscape each point's water is bounded by the total.
pub proof fn lemma_water_bounded(m: LandscapeModel, i: int)
    requires
        m.wf(),
        0 <= i < m.waters.len(),
    ensures
        0 <= m.waters[i] <= MAX_TOTAL_WATER,
    decreases m.waters.len(),
{
    lemma_sum_element_bound(m.waters, i);
}

} // verus!

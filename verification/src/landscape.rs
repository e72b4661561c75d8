//! The landscape itself: construction, rainfall injection, and the
//! stabilization algorithm that redistributes water between adjacent points
//! until the landscape is stable.

use vstd::prelude::*;

use crate::model::{
    apply_flows, candidate_list, candidates_upto, flows_at, flows_for, idxs_of, inflow,
    is_neighbor, lemma_flow_elem_bound, lemma_flow_nonneg, lemma_flow_push, lemma_flow_split,
    lemma_water_bounded, neighbor_seq, outflow, pass_flows, pass_flows_upto, run_passes,
    step_pass, FlowModel, LandscapeModel,
};
use crate::neighbors::neighbor_list;
use crate::sums::{
    lemma_sum_const, lemma_sum_element_bound, lemma_sum_nonneg, lemma_sum_update, sum_int, sum_sq,
};
use crate::{
    LandscapeError, PointHeight, MAX_GROUND_ABS, MAX_PASSES, MAX_POINTS, MAX_TOTAL_WATER,
};

verus! {

/// One point of the terrain: a fixed ground height and the water lying on it.
#[derive(Clone, Copy)]
pub struct Point {
    pub(crate) ground: PointHeight,
    pub(crate) water: PointHeight,
}

impl Point {
    /// Ground height, as a mathematical integer.
    pub closed spec fn ground_spec(&self) -> int {
        self.ground as int
    }

    /// Water depth, as a mathematical integer.
    pub closed spec fn water_spec(&self) -> int {
        self.water as int
    }

    /// A dry point at ground height `h`.
    pub fn with_height(h: PointHeight) -> (p: Point)
        ensures
            p.ground_spec() == h,
            p.water_spec() == 0,
    {
        Point { ground: h, water: 0 }
    }

    /// Water-surface height: ground plus water.
    pub fn get_height(&self) -> (r: PointHeight)
        requires
            i64::MIN <= self.ground_spec() + self.water_spec() <= i64::MAX,
        ensures
            r == self.ground_spec() + self.water_spec(),
    {
        self.ground + self.water
    }

    /// Let `cnt` water rain onto the point.
    pub fn rain(&mut self, cnt: PointHeight)
        requires
            cnt >= 0,
            old(self).water_spec() + cnt <= i64::MAX,
        ensures
            final(self).ground_spec() == old(self).ground_spec(),
            final(self).water_spec() == old(self).water_spec() + cnt,
    {
        self.water = self.water + cnt;
    }
}

/// One proposed transfer of water from one point to a neighbor, recorded
/// during a stabilization pass and applied with the rest of its batch.
pub struct WaterUpdate {
    pub from_idx: usize,
    pub to_idx: usize,
    pub water: PointHeight,
}

impl View for WaterUpdate {
    type V = FlowModel;

    open spec fn view(&self) -> FlowModel {
        FlowModel { from: self.from_idx as int, to: self.to_idx as int, amount: self.water as int }
    }
}

/// Abstract contents of a list of recorded flow-updates.
pub open spec fn flows_of(us: Seq<WaterUpdate>) -> Seq<FlowModel> {
    Seq::new(us.len(), |k: int| us[k]@)
}

/// The same values, as mathematical integers.
pub open spec fn ints_of(s: Seq<i64>) -> Seq<int> {
    Seq::new(s.len(), |i: int| s[i] as int)
}

/// A sequence of `n` dry points' worth of water.
pub open spec fn zero_waters(n: nat) -> Seq<int> {
    Seq::new(n, |i: int| 0)
}

/// The model after the per-point amounts `added` have rained onto `m`,
/// before stabilization.
pub open spec fn rained(m: LandscapeModel, added: Seq<i64>) -> LandscapeModel {
    LandscapeModel { waters: Seq::new(m.waters.len(), |i: int| m.waters[i] + added[i]), ..m }
}

/// A uniform rainfall: the same amount for each of `n` points.
pub open spec fn uniform_rain(n: nat, cnt: i64) -> Seq<i64> {
    Seq::new(n, |i: int| cnt)
}

/// Which error, if any, `Landscape::create` reports for this input.
pub open spec fn create_error(ph: Seq<i64>, precision: i64) -> Option<LandscapeError> {
    if ph.len() == 0 {
        Some(LandscapeError::EmptyLandscape)
    } else if ph.len() > MAX_POINTS {
        Some(LandscapeError::TooManyPoints)
    } else if exists|k: int|
        0 <= k < ph.len() && !(-MAX_GROUND_ABS <= #[trigger] ph[k] <= MAX_GROUND_ABS) {
        Some(LandscapeError::GroundOutOfRange)
    } else if !(1 <= precision <= MAX_GROUND_ABS) {
        Some(LandscapeError::InvalidPrecision)
    } else {
        None
    }
}

/// A one-dimensional terrain with water on it.
pub struct Landscape {
    points: Vec<Point>,
    points_idx: Vec<usize>,
    precision: PointHeight,
    diagnostics: bool,
    diagnostic_failures: u64,
}

impl View for Landscape {
    type V = LandscapeModel;

    closed spec fn view(&self) -> LandscapeModel {
        LandscapeModel {
            grounds: Seq::new(self.points@.len(), |i: int| self.points@[i].ground as int),
            waters: Seq::new(self.points@.len(), |i: int| self.points@[i].water as int),
            order: Seq::new(self.points_idx@.len(), |i: int| self.points_idx@[i] as int),
            eps: self.precision as int,
        }
    }
}

impl Landscape {
    /// The landscape's invariant, stated over its model.
    pub open spec fn wf(&self) -> bool {
        self@.wf()
    }

    /// Whether the diagnostic potential check runs during stabilization.
    pub closed spec fn diagnostics_spec(&self) -> bool {
        self.diagnostics
    }

    /// Number of violations the diagnostic check has recorded so far.
    pub closed spec fn diagnostic_failures_spec(&self) -> int {
        self.diagnostic_failures as int
    }

    /// Builds a landscape from initial ground heights and a tolerance.
    ///
    /// The visiting order of the stabilization passes is fixed here, once:
    /// the point indices sorted by descending initial ground height, ties
    /// keeping their original relative order. It is never recomputed.
    pub fn create(ph: Vec<PointHeight>, precision: PointHeight) -> (r: Result<
        Landscape,
        LandscapeError,
    >)
        ensures
            match r {
                Ok(l) => {
                    &&& create_error(ph@, precision) is None
                    &&& l.wf()
                    &&& l@.grounds == ints_of(ph@)
                    &&& l@.waters == zero_waters(ph@.len())
                    &&& l@.eps == precision
                    &&& !l.diagnostics_spec()
                    &&& l.diagnostic_failures_spec() == 0
                },
                Err(e) => Some(e) == create_error(ph@, precision),
            },
    {
        let n = ph.len();
        if n == 0 {
            return Err(LandscapeError::EmptyLandscape);
        }
        if n > MAX_POINTS {
            return Err(LandscapeError::TooManyPoints);
        }
        let mut i: usize = 0;
        while i < n
            invariant
                n == ph@.len(),
                1 <= n <= MAX_POINTS,
                i <= n,
                forall|k: int| 0 <= k < i ==> -MAX_GROUND_ABS <= #[trigger] ph@[k] <= MAX_GROUND_ABS,
            decreases n - i,
        {
            if ph[i] < -MAX_GROUND_ABS || ph[i] > MAX_GROUND_ABS {
                proof {
                    assert(!(-MAX_GROUND_ABS <= ph@[i as int] <= MAX_GROUND_ABS));
                    assert(create_error(ph@, precision) == Some(
                        LandscapeError::GroundOutOfRange,
                    ));
                }
                return Err(LandscapeError::GroundOutOfRange);
            }
            i = i + 1;
        }
        if precision < 1 || precision > MAX_GROUND_ABS {
            return Err(LandscapeError::InvalidPrecision);
        }

        let mut points: Vec<Point> = Vec::new();
        let mut i: usize = 0;
        while i < n
            invariant
                n == ph@.len(),
                i <= n,
                points@.len() == i,
                forall|k: int| 0 <= k < i ==> (#[trigger] points@[k]).ground == ph@[k],
                forall|k: int| 0 <= k < i ==> (#[trigger] points@[k]).water == 0,
            decreases n - i,
        {
            points.push(Point::with_height(ph[i]));
            i = i + 1;
        }

        let mut points_idx: Vec<usize> = Vec::new();
        let mut i: usize = 0;
        while i < n
            invariant
                n == ph@.len(),
                i <= n,
                points_idx@.len() == i,
                forall|k: int| 0 <= k < i ==> #[trigger] points_idx@[k] < i,
                forall|k1: int, k2: int|
                    0 <= k1 < k2 < i ==> points_idx@[k1] != points_idx@[k2],
                forall|v: usize| v < i ==> #[trigger] points_idx@.contains(v),
                forall|k1: int, k2: int|
                    0 <= k1 < k2 < i ==> ph@[points_idx@[k1] as int] >= ph@[points_idx@[k2] as int],
            decreases n - i,
        {
            let gi = ph[i];
            let mut pos: usize = 0;
            while pos < points_idx.len() && ph[points_idx[pos]] >= gi
                invariant
                    n == ph@.len(),
                    points_idx@.len() == i <= n,
                    forall|k: int| 0 <= k < i ==> #[trigger] points_idx@[k] < i,
                    pos <= i,
                    i < n,
                    gi == ph@[i as int],
                    forall|t: int| 0 <= t < pos ==> ph@[points_idx@[t] as int] >= gi,
                decreases i - pos,
            {
                pos = pos + 1;
            }
            let ghost prev = points_idx@;
            points_idx.insert(pos, i);
            proof {
                prev.insert_ensures(pos as int, i);
                let cur = points_idx@;
                assert forall|v: usize| v < i + 1 implies #[trigger] cur.contains(v) by {
                    if v == i {
                        assert(cur[pos as int] == i);
                    } else {
                        assert(prev.contains(v));
                        let k = choose|k: int| 0 <= k < prev.len() && prev[k] == v;
                        if k < pos {
                            assert(cur[k] == v);
                        } else {
                            assert(cur[k + 1] == v);
                        }
                    }
                }
                assert forall|k1: int, k2: int| 0 <= k1 < k2 < cur.len() implies cur[k1]
                    != cur[k2] by {
                    let p = pos as int;
                    if k1 == p || k2 == p {
                    } else {
                        let o1: int = if k1 < p { k1 } else { k1 - 1 };
                        let o2: int = if k2 < p { k2 } else { k2 - 1 };
                        assert(cur[k1] == prev[o1]);
                        assert(cur[k2] == prev[o2]);
                    }
                }
                assert forall|k1: int, k2: int| 0 <= k1 < k2 < cur.len() implies ph@[cur[k1] as int]
                    >= ph@[cur[k2] as int] by {
                    let p = pos as int;
                    if k1 == p {
                        // entries after the insertion point were already below `gi`
                        assert(ph@[cur[k2] as int] == ph@[prev[k2 - 1] as int]);
                        if p < prev.len() {
                            assert(ph@[prev[p] as int] < gi);
                        }
                    } else if k2 == p {
                        assert(ph@[cur[k1] as int] == ph@[prev[k1] as int]);
                    } else {
                        let o1: int = if k1 < p { k1 } else { k1 - 1 };
                        let o2: int = if k2 < p { k2 } else { k2 - 1 };
                        assert(cur[k1] == prev[o1]);
                        assert(cur[k2] == prev[o2]);
                        if p < prev.len() && k1 < p && k2 > p {
                            assert(ph@[prev[o2] as int] <= ph@[prev[p] as int]);
                        }
                    }
                }
            }
            i = i + 1;
        }

        let l = Landscape {
            points,
            points_idx,
            precision,
            diagnostics: false,
            diagnostic_failures: 0,
        };
        proof {
            assert(l@.grounds =~= ints_of(ph@));
            assert(l@.waters =~= zero_waters(ph@.len()));
            lemma_sum_const(l@.waters, 0);
            assert forall|v: int| 0 <= v < l@.grounds.len() implies l@.order.contains(v) by {
                assert(points_idx@.contains(v as usize));
                let k = choose|k: int|
                    0 <= k < points_idx@.len() && points_idx@[k] == v as usize;
                assert(l@.order[k] == v);
            }
        }
        Ok(l)
    }

    /// The configured tolerance (viscosity coefficient).
    pub fn precision(&self) -> (r: PointHeight)
        ensures
            r == self@.eps,
    {
        self.precision
    }

    /// The indices adjacent to `idx` in this landscape.
    pub fn neighbors(&self, idx: usize) -> (r: Vec<usize>)
        requires
            idx < self@.point_count(),
        ensures
            r@.len() <= 2,
            forall|t: int|
                0 <= t < r@.len() ==> is_neighbor(self@.point_count(), idx as int, r@[t] as int),
            forall|t: int| 0 <= t < r@.len() ==> r@[t] < self@.point_count(),
            forall|j: int|
                is_neighbor(self@.point_count(), idx as int, j) ==> exists|t: int|
                    0 <= t < r@.len() && r@[t] == j,
            idxs_of(r@) == neighbor_seq(self@.point_count(), idx as int),
    {
        neighbor_list(idx, self.points.len())
    }

    /// Applies one pass worth of recorded flow-updates as a batch: each
    /// update moves its amount from its source to its destination.
    fn apply_updates(&mut self, updates: &Vec<WaterUpdate>)
        requires
            old(self).wf(),
            forall|k: int|
                0 <= k < updates@.len() ==> {
                    let u = (#[trigger] updates@[k])@;
                    &&& 0 <= u.from < old(self)@.point_count()
                    &&& 0 <= u.to < old(self)@.point_count()
                    &&& u.from != u.to
                    &&& u.amount >= 0
                },
            forall|p: int|
                0 <= p < old(self)@.point_count() ==> outflow(flows_of(updates@), p)
                    <= old(self)@.waters[p],
        ensures
            final(self).wf(),
            final(self)@.grounds == old(self)@.grounds,
            final(self)@.order == old(self)@.order,
            final(self)@.eps == old(self)@.eps,
            sum_int(final(self)@.waters) == sum_int(old(self)@.waters),
            final(self)@.waters == apply_flows(old(self)@.waters, flows_of(updates@)),
            final(self).diagnostics_spec() == old(self).diagnostics_spec(),
            final(self).diagnostic_failures_spec() == old(self).diagnostic_failures_spec(),
    {
        let ghost m0 = old(self)@;
        let ghost fl = flows_of(updates@);
        proof {
            assert forall|t: int| 0 <= t < fl.len() implies (#[trigger] fl[t]).amount >= 0
                && 0 <= fl[t].from < m0.point_count() && 0 <= fl[t].to < m0.point_count()
                && fl[t].from != fl[t].to by {
                assert(fl[t] == updates@[t]@);
            }
        }
        let n = self.points.len();
        let mut k: usize = 0;
        while k < updates.len()
            invariant
                m0.wf(),
                n == m0.grounds.len(),
                k <= updates@.len(),
                fl == flows_of(updates@),
                fl.len() == updates@.len(),
                forall|t: int|
                    0 <= t < fl.len() ==> (#[trigger] fl[t]).amount >= 0 && 0 <= fl[t].from < n
                        && 0 <= fl[t].to < n && fl[t].from != fl[t].to,
                forall|p: int| 0 <= p < n ==> outflow(fl, p) <= m0.waters[p],
                self@.grounds == m0.grounds,
                self@.order == m0.order,
                self@.eps == m0.eps,
                self@.waters.len() == n,
                forall|p: int|
                    0 <= p < n ==> #[trigger] self@.waters[p] == m0.waters[p] + inflow(
                        fl.take(k as int),
                        p,
                    ) - outflow(fl.take(k as int), p),
                forall|p: int| 0 <= p < n ==> #[trigger] self@.waters[p] >= 0,
                sum_int(self@.waters) == sum_int(m0.waters),
                self@.waters == apply_flows(m0.waters, fl.take(k as int)),
                self.diagnostics_spec() == old(self).diagnostics_spec(),
                self.diagnostic_failures_spec() == old(self).diagnostic_failures_spec(),
            decreases updates@.len() - k,
        {
            let from_idx = updates[k].from_idx;
            let to_idx = updates[k].to_idx;
            let amt = updates[k].water;
            let ghost ws = self@.waters;
            proof {
                assert(fl[k as int] == updates@[k as int]@);
                // the source still holds at least this update's amount
                lemma_flow_split(fl, k as int, from_idx as int);
                lemma_flow_nonneg(fl.take(k as int), from_idx as int);
                assert forall|t: int|
                    0 <= t < fl.skip(k as int).len() implies (#[trigger] fl.skip(
                    k as int,
                )[t]).amount >= 0 by {
                    assert(fl.skip(k as int)[t] == fl[t + k]);
                }
                lemma_flow_elem_bound(fl.skip(k as int), 0, from_idx as int);
                assert(fl.skip(k as int)[0] == fl[k as int]);
                assert(outflow(fl.skip(k as int), from_idx as int) >= amt);
                assert(ws[from_idx as int] >= amt);
            }
            let w_from = self.points[from_idx].water;
            self.points[from_idx].water = w_from - amt;
            let ghost ws1 = self@.waters;
            proof {
                assert(ws1 =~= ws.update(from_idx as int, ws[from_idx as int] - amt));
                lemma_sum_update(ws, from_idx as int, ws[from_idx as int] - amt);
                lemma_sum_element_bound(ws1, to_idx as int);
                assert(ws1[to_idx as int] + amt <= sum_int(m0.waters) + amt - amt);
            }
            let w_to = self.points[to_idx].water;
            self.points[to_idx].water = w_to + amt;
            proof {
                let ws2 = self@.waters;
                assert(ws2 =~= ws1.update(to_idx as int, ws1[to_idx as int] + amt));
                lemma_sum_update(ws1, to_idx as int, ws1[to_idx as int] + amt);
                assert(self@.grounds =~= m0.grounds);
                assert(fl.take(k + 1) =~= fl.take(k as int).push(fl[k as int]));
                assert(fl.take(k + 1).drop_last() =~= fl.take(k as int));
                assert(fl.take(k + 1).last() == fl[k as int]);
                assert(ws2 == apply_flows(m0.waters, fl.take(k + 1)));
                assert forall|p: int|
                    0 <= p < n implies #[trigger] ws2[p] == m0.waters[p] + inflow(
                    fl.take(k + 1),
                    p,
                ) - outflow(fl.take(k + 1), p) by {
                    lemma_flow_push(fl.take(k as int), fl[k as int], p);
                }
            }
            k = k + 1;
        }
        proof {
            assert(fl.take(updates@.len() as int) =~= fl);
            assert(self@.wf());
        }
    }

    /// Scans the points in the landscape's fixed priority order and records
    /// the flow-updates of one stabilization pass. The landscape itself is
    /// not changed; an empty result means the landscape is stable.
    #[verifier::loop_isolation(false)]
    #[verifier::rlimit(60)]
    fn collect_updates(&self) -> (r: Vec<WaterUpdate>)
        requires
            self.wf(),
        ensures
            forall|t: int| 0 <= t < r@.len() ==> self@.valid_flow((#[trigger] r@[t])@),
            r@.len() == 0 <==> self@.is_stable(),
            flows_of(r@) == pass_flows(self@),
            forall|p: int|
                0 <= p < self@.point_count() ==> outflow(flows_of(r@), p) <= self@.waters[p],
    {
        let n = self.points.len();
        let mut r: Vec<WaterUpdate> = Vec::new();
        let mut k: usize = 0;
        while k < n
            invariant
                k <= n,
                forall|t: int| 0 <= t < r@.len() ==> self@.valid_flow((#[trigger] r@[t])@),
                flows_of(r@) == pass_flows_upto(self@, k as int),
                (r@.len() > 0) <==> (exists|kk: int|
                    0 <= kk < k && #[trigger] self@.unstable_at(self@.order[kk])),
                forall|p: int|
                    0 <= p < n ==> outflow(flows_of(r@), p) <= self@.waters[p],
                forall|kk: int|
                    k <= kk < n ==> outflow(flows_of(r@), #[trigger] self@.order[kk]) == 0,
            decreases n - k,
        {
            let pi = self.points_idx[k];
            proof {
                assert(self@.order[k as int] == pi as int);
            }
            let pw = self.points[pi].water;
            if pw > self.precision {
                proof {
                    lemma_water_bounded(self@, pi as int);
                    assert(self.points@[pi as int].ground as int == self@.grounds[pi as int]);
                    assert(self.points@[pi as int].water as int == self@.waters[pi as int]);
                    assert(-MAX_GROUND_ABS <= self@.grounds[pi as int] <= MAX_GROUND_ABS);
                }
                let ph = self.points[pi].ground + self.points[pi].water;
                let nbrs = self.neighbors(pi);
                let mut cands: Vec<usize> = Vec::new();
                let mut t: usize = 0;
                while t < nbrs.len()
                    invariant
                        t <= nbrs@.len(),
                        cands@.len() <= t,
                        idxs_of(cands@) == candidates_upto(self@, pi as int, t as int),
                        forall|s: int|
                            0 <= s < cands@.len() ==> self@.downhill(
                                pi as int,
                                #[trigger] cands@[s] as int,
                            ),
                        cands@.len() == 0 ==> forall|s: int|
                            0 <= s < t ==> !self@.downhill(pi as int, #[trigger] nbrs@[s] as int),
                    decreases nbrs@.len() - t,
                {
                    let ni = nbrs[t];
                    proof {
                        lemma_water_bounded(self@, ni as int);
                        assert(self.points@[ni as int].ground as int == self@.grounds[ni as int]);
                        assert(self.points@[ni as int].water as int == self@.waters[ni as int]);
                        assert(-MAX_GROUND_ABS <= self@.grounds[ni as int] <= MAX_GROUND_ABS);
                        assert(neighbor_seq(self@.point_count(), pi as int)[t as int]
                            == idxs_of(nbrs@)[t as int]);
                    }
                    let ghost prev_cands = cands@;
                    let nh = self.points[ni].ground + self.points[ni].water;
                    if ph > nh + self.precision {
                        cands.push(ni);
                        proof {
                            assert(idxs_of(cands@) =~= idxs_of(prev_cands).push(ni as int));
                            assert(idxs_of(cands@) =~= candidates_upto(
                                self@,
                                pi as int,
                                t as int + 1,
                            ));
                        }
                    } else {
                        proof {
                            assert(idxs_of(cands@) =~= candidates_upto(
                                self@,
                                pi as int,
                                t as int + 1,
                            ));
                        }
                    }
                    t = t + 1;
                }
                proof {
                    assert(nbrs@.len() == neighbor_seq(self@.point_count(), pi as int).len());
                    assert(idxs_of(cands@) == candidate_list(self@, pi as int));
                }
                if cands.len() > 0 {
                    let cnt = cands.len() as i64;
                    let equal_fraction = pw / cnt;
                    proof {
                        assert(cnt * (pw as int / cnt as int) <= pw && pw as int / cnt as int
                            >= 1) by (nonlinear_arith)
                            requires
                                pw >= 2,
                                1 <= cnt <= 2,
                        ;
                        assert(equal_fraction == pw as int / cnt as int);
                        assert(equal_fraction as int == self@.waters[pi as int]
                            / candidate_list(self@, pi as int).len() as int);
                    }
                    let ghost base = r@;
                    let ghost cl = candidate_list(self@, pi as int);
                    proof {
                        assert(flows_of(r@) =~= pass_flows_upto(self@, k as int) + flows_for(
                            self@,
                            pi as int,
                            equal_fraction as int,
                            cl.take(0),
                        ));
                    }
                    let mut s: usize = 0;
                    while s < cands.len()
                        invariant
                            s <= cands@.len(),
                            r@.len() == base.len() + s,
                            forall|t2: int|
                                0 <= t2 < r@.len() ==> self@.valid_flow((#[trigger] r@[t2])@),
                            flows_of(r@) == pass_flows_upto(self@, k as int) + flows_for(
                                self@,
                                pi as int,
                                equal_fraction as int,
                                cl.take(s as int),
                            ),
                            outflow(flows_of(r@), pi as int) <= s * equal_fraction,
                            forall|p: int|
                                p != pi as int ==> outflow(flows_of(r@), p) == outflow(
                                    flows_of(base),
                                    p,
                                ),
                        decreases cands@.len() - s,
                    {
                        let ni = cands[s];
                        let diff = (self.points[pi].ground + self.points[pi].water) - (
                        self.points[ni].ground + self.points[ni].water);
                        proof {
                            lemma_water_bounded(self@, ni as int);
                            assert(diff == self@.height(pi as int) - self@.height(ni as int));
                            assert(diff > self.precision);
                        }
                        if diff > self.precision {
                            let half = diff / 2;
                            proof {
                                assert(half >= 1 && 2 * half <= diff) by (nonlinear_arith)
                                    requires
                                        diff >= 2,
                                        half == diff as int / 2,
                                ;
                            }
                            let flow_amt = if equal_fraction < half {
                                equal_fraction
                            } else {
                                half
                            };
                            let ghost before = r@;
                            r.push(WaterUpdate { from_idx: pi, to_idx: ni, water: flow_amt });
                            proof {
                                assert((s + 1) * equal_fraction == s * equal_fraction
                                    + equal_fraction) by (nonlinear_arith);
                                assert(flows_of(r@) =~= flows_of(before).push(
                                    r@[before.len() as int]@,
                                ));
                                assert(cl.take(s as int + 1).drop_last() =~= cl.take(s as int));
                                assert(cl.take(s as int + 1).last() == cl[s as int]);
                                assert(cl[s as int] == ni as int);
                                assert(half as int == (self@.height(pi as int) - self@.height(
                                    ni as int,
                                )) / 2);
                                assert(r@[before.len() as int]@ == FlowModel {
                                    from: pi as int,
                                    to: ni as int,
                                    amount: flow_amt as int,
                                });
                                assert(flows_for(
                                    self@,
                                    pi as int,
                                    equal_fraction as int,
                                    cl.take(s as int + 1),
                                ) =~= flows_for(
                                    self@,
                                    pi as int,
                                    equal_fraction as int,
                                    cl.take(s as int),
                                ).push(r@[before.len() as int]@));
                                assert(flows_of(r@) =~= pass_flows_upto(self@, k as int)
                                    + flows_for(
                                    self@,
                                    pi as int,
                                    equal_fraction as int,
                                    cl.take(s as int + 1),
                                ));
                                assert forall|p: int| true implies outflow(flows_of(r@), p)
                                    == outflow(flows_of(before), p) + if p == pi as int {
                                    flow_amt as int
                                } else {
                                    0
                                } by {
                                    lemma_flow_push(flows_of(before), r@[before.len() as int]@, p);
                                }
                            }
                        }
                        s = s + 1;
                    }
                    proof {
                        assert(outflow(flows_of(r@), pi as int) <= cnt * equal_fraction);
                        assert(cnt * equal_fraction <= pw);
                        assert(self@.waters[pi as int] == pw);
                        assert(cl.take(cands@.len() as int) =~= cl);
                        assert(flows_at(self@, pi as int) == flows_for(
                            self@,
                            pi as int,
                            equal_fraction as int,
                            cl,
                        ));
                        assert(flows_of(r@) == pass_flows_upto(self@, k as int + 1));
                        assert(self@.downhill(pi as int, cands@[0] as int));
                        assert(self@.unstable_at(self@.order[k as int]));
                        assert forall|kk: int| k + 1 <= kk < n implies outflow(
                            flows_of(r@),
                            #[trigger] self@.order[kk],
                        ) == 0 by {
                            assert(self@.order[kk] != self@.order[k as int]);
                        }
                    }
                } else {
                    proof {
                        assert forall|j: int| true implies !self@.downhill(pi as int, j) by {
                            if is_neighbor(n as int, pi as int, j) {
                                let s2 = choose|s2: int|
                                    0 <= s2 < nbrs@.len() && nbrs@[s2] == j;
                                assert(!self@.downhill(pi as int, nbrs@[s2] as int));
                            }
                        }
                        assert(!self@.unstable_at(self@.order[k as int]));
                        assert(candidate_list(self@, pi as int).len() == 0);
                        assert(flows_at(self@, pi as int) =~= Seq::<FlowModel>::empty());
                        assert(pass_flows_upto(self@, k as int + 1) =~= flows_of(r@));
                    }
                }
            } else {
                proof {
                    assert(self@.waters[pi as int] <= self@.eps);
                    assert(!self@.unstable_at(self@.order[k as int]));
                    assert(flows_at(self@, pi as int) =~= Seq::<FlowModel>::empty());
                    assert(pass_flows_upto(self@, k as int + 1) =~= flows_of(r@));
                }
            }
            k = k + 1;
        }
        proof {
            if r@.len() == 0 {
                assert forall|i: int| 0 <= i < self@.point_count() implies !self@.unstable_at(
                    i,
                ) by {
                    assert(self@.order.contains(i));
                    let kk = choose|kk: int| 0 <= kk < self@.order.len() && self@.order[kk] == i;
                    assert(!self@.unstable_at(self@.order[kk]));
                }
            } else {
                let kk = choose|kk: int|
                    0 <= kk < n && #[trigger] self@.unstable_at(self@.order[kk]);
                assert(self@.unstable_at(self@.order[kk]));
            }
        }
        r
    }

    /// Turns the diagnostic potential check on or off.
    pub fn set_diagnostics(&mut self, on: bool)
        ensures
            final(self)@ == old(self)@,
            final(self).diagnostics_spec() == on,
            final(self).diagnostic_failures_spec() == old(self).diagnostic_failures_spec(),
    {
        self.diagnostics = on;
    }

    /// Number of violations the diagnostic check has recorded so far.
    pub fn diagnostic_failures(&self) -> (r: u64)
        ensures
            r == self.diagnostic_failures_spec(),
    {
        self.diagnostic_failures
    }

    /// Records one more diagnostic violation; the count saturates.
    fn bump_diag(&mut self)
        ensures
            final(self)@ == old(self)@,
            final(self).diagnostics_spec() == old(self).diagnostics_spec(),
            final(self).diagnostic_failures_spec() == if old(self).diagnostic_failures_spec()
                == u64::MAX as int {
                old(self).diagnostic_failures_spec()
            } else {
                old(self).diagnostic_failures_spec() + 1
            },
    {
        if self.diagnostic_failures < u64::MAX {
            self.diagnostic_failures = self.diagnostic_failures + 1;
        }
    }

    /// Diagnostic potential of the current state: the sum over all points of
    /// the squared water-surface height.
    #[verifier::loop_isolation(false)]
    pub fn calc_state(&self) -> (r: i128)
        requires
            self.wf(),
        ensures
            r == self@.potential(),
    {
        let ghost hs = Seq::new(self@.grounds.len(), |i: int| self@.height(i));
        let n = self.points.len();
        let mut acc: i128 = 0;
        let mut i: usize = 0;
        while i < n
            invariant
                i <= n,
                acc == sum_sq(hs.take(i as int)),
                0 <= acc <= (i as int) * 0x4_0000_0000_0000_0000_0000,
            decreases n - i,
        {
            proof {
                lemma_water_bounded(self@, i as int);
                assert(self.points@[i as int].ground as int == self@.grounds[i as int]);
                assert(self.points@[i as int].water as int == self@.waters[i as int]);
                assert(-MAX_GROUND_ABS <= self@.grounds[i as int] <= MAX_GROUND_ABS);
            }
            let h = self.points[i].ground + self.points[i].water;
            proof {
                assert(0 <= (h as int) * (h as int) <= 0x4_0000_0000_0000_0000_0000)
                    by (nonlinear_arith)
                    requires
                        -0x200_0000_0000 <= h <= 0x200_0000_0000,
                ;
                assert((i as int + 1) * 0x4_0000_0000_0000_0000_0000 <= 0x10_0000
                    * 0x4_0000_0000_0000_0000_0000) by (nonlinear_arith)
                    requires
                        i as int + 1 <= 0x10_0000,
                ;
                assert((i as int) * 0x4_0000_0000_0000_0000_0000 + 0x4_0000_0000_0000_0000_0000
                    == (i as int + 1) * 0x4_0000_0000_0000_0000_0000) by (nonlinear_arith);
            }
            let sq = (h as i128) * (h as i128);
            acc = acc + sq;
            proof {
                assert(hs.take(i as int + 1).drop_last() =~= hs.take(i as int));
                assert(hs.take(i as int + 1).last() == hs[i as int]);
                assert(hs[i as int] == h as int);
            }
            i = i + 1;
        }
        proof {
            assert(hs.take(n as int) =~= hs);
        }
        acc
    }

    /// Theoretical floor of the diagnostic potential: the same sum over the
    /// bare ground heights, the state of a fully drained landscape.
    #[verifier::loop_isolation(false)]
    pub fn calc_state_lbound(&self) -> (r: i128)
        requires
            self.wf(),
        ensures
            r == self@.potential_floor(),
    {
        let n = self.points.len();
        let mut acc: i128 = 0;
        let mut i: usize = 0;
        while i < n
            invariant
                i <= n,
                acc == sum_sq(self@.grounds.take(i as int)),
                0 <= acc <= (i as int) * 0x4_0000_0000_0000_0000_0000,
            decreases n - i,
        {
            proof {
                assert(self.points@[i as int].ground as int == self@.grounds[i as int]);
                assert(-MAX_GROUND_ABS <= self@.grounds[i as int] <= MAX_GROUND_ABS);
            }
            let g = self.points[i].ground;
            proof {
                assert(0 <= (g as int) * (g as int) <= 0x4_0000_0000_0000_0000_0000)
                    by (nonlinear_arith)
                    requires
                        -0x200_0000_0000 <= g <= 0x200_0000_0000,
                ;
                assert((i as int + 1) * 0x4_0000_0000_0000_0000_0000 <= 0x10_0000
                    * 0x4_0000_0000_0000_0000_0000) by (nonlinear_arith)
                    requires
                        i as int + 1 <= 0x10_0000,
                ;
                assert((i as int) * 0x4_0000_0000_0000_0000_0000 + 0x4_0000_0000_0000_0000_0000
                    == (i as int + 1) * 0x4_0000_0000_0000_0000_0000) by (nonlinear_arith);
            }
            let sq = (g as i128) * (g as i128);
            acc = acc + sq;
            proof {
                assert(self@.grounds.take(i as int + 1).drop_last() =~= self@.grounds.take(
                    i as int,
                ));
                assert(self@.grounds.take(i as int + 1).last() == self@.grounds[i as int]);
            }
            i = i + 1;
        }
        proof {
            assert(self@.grounds.take(n as int) =~= self@.grounds);
        }
        acc
    }

    /// Runs stabilization passes until one records no flow-update.
    ///
    /// Each pass scans all points in the fixed priority order, records a
    /// batch of flow-updates against the pre-pass state, and then applies
    /// the whole batch at once. The final state is the first fixed point of
    /// the pass function, and `NotStabilized` comes only when no pass count
    /// below the budget reaches one. The algorithm has no inherent bound on
    /// the number of passes; the budget `MAX_PASSES` exists only to bound
    /// the loop.
    pub fn stabilize_water(&mut self) -> (r: Result<(), LandscapeError>)
        requires
            old(self).wf(),
        ensures
            final(self).wf(),
            final(self)@.grounds == old(self)@.grounds,
            final(self)@.order == old(self)@.order,
            final(self)@.eps == old(self)@.eps,
            sum_int(final(self)@.waters) == sum_int(old(self)@.waters),
            final(self).diagnostics_spec() == old(self).diagnostics_spec(),
            !old(self).diagnostics_spec() ==> final(self).diagnostic_failures_spec() == old(
                self,
            ).diagnostic_failures_spec(),
            exists|t: int|
                0 <= t <= MAX_PASSES && final(self)@ == run_passes(old(self)@, t) && (forall|
                    t2: int,
                |
                    0 <= t2 < t ==> !(#[trigger] run_passes(old(self)@, t2)).is_stable()),
            r is Ok ==> final(self)@.is_stable(),
            r == Err::<(), LandscapeError>(LandscapeError::NotStabilized) ==> forall|t: int|
                0 <= t < MAX_PASSES ==> !(#[trigger] run_passes(old(self)@, t)).is_stable(),
            old(self)@.is_stable() ==> r is Ok && final(self)@ == old(self)@,
            r is Err ==> r == Err::<(), LandscapeError>(LandscapeError::NotStabilized),
    {
        let diag = self.diagnostics;
        let lbound: i128 = if diag {
            self.calc_state_lbound()
        } else {
            0
        };
        let mut state: i128 = if diag {
            self.calc_state()
        } else {
            0
        };
        let mut passes: u64 = 0;
        while passes < MAX_PASSES
            invariant
                self.wf(),
                self@.grounds == old(self)@.grounds,
                self@.order == old(self)@.order,
                self@.eps == old(self)@.eps,
                sum_int(self@.waters) == sum_int(old(self)@.waters),
                self.diagnostics_spec() == old(self).diagnostics_spec(),
                diag == self.diagnostics_spec(),
                old(self)@.is_stable() ==> self@ == old(self)@ && passes == 0,
                self@ == run_passes(old(self)@, passes as int),
                forall|t2: int|
                    0 <= t2 < passes ==> !(#[trigger] run_passes(old(self)@, t2)).is_stable(),
                !old(self).diagnostics_spec() ==> self.diagnostic_failures_spec() == old(
                    self,
                ).diagnostic_failures_spec(),
                passes <= MAX_PASSES,
            decreases MAX_PASSES - passes,
        {
            let updates = self.collect_updates();
            if updates.len() == 0 {
                proof {
                    assert(self@ == run_passes(old(self)@, passes as int));
                }
                return Ok(());
            }
            let ghost before_pass = self@;
            proof {
                assert forall|k: int| 0 <= k < updates@.len() implies {
                    let u = (#[trigger] updates@[k])@;
                    &&& 0 <= u.from < self@.point_count()
                    &&& 0 <= u.to < self@.point_count()
                    &&& u.from != u.to
                    &&& u.amount >= 0
                } by {
                    assert(self@.valid_flow(updates@[k]@));
                }
            }
            self.apply_updates(&updates);
            proof {
                assert(!before_pass.is_stable());
                assert(!run_passes(old(self)@, passes as int).is_stable());
                assert(self@ == step_pass(before_pass));
                assert(self@ == run_passes(old(self)@, passes as int + 1));
            }
            if diag {
                let new_state = self.calc_state();
                if state < lbound {
                    self.bump_diag();
                }
                if new_state < lbound {
                    self.bump_diag();
                }
                if new_state > state {
                    self.bump_diag();
                }
                if new_state == state {
                    self.bump_diag();
                }
                state = new_state;
            }
            passes = passes + 1;
        }
        Err(LandscapeError::NotStabilized)
    }

    /// Total amount of water currently on the landscape.
    #[verifier::loop_isolation(false)]
    pub fn total_water(&self) -> (r: i64)
        requires
            self.wf(),
        ensures
            r == sum_int(self@.waters),
            0 <= r <= MAX_TOTAL_WATER,
    {
        let ghost ws = self@.waters;
        proof {
            lemma_sum_nonneg(ws);
        }
        let n = self.points.len();
        let mut acc: i64 = 0;
        let mut i: usize = 0;
        while i < n
            invariant
                i <= n,
                acc == sum_int(ws.take(i as int)),
                0 <= acc <= MAX_TOTAL_WATER,
            decreases n - i,
        {
            let w = self.points[i].water;
            proof {
                assert(w as int == ws[i as int]);
                assert(ws.take(i as int + 1).drop_last() =~= ws.take(i as int));
                assert(ws.take(i as int + 1).last() == ws[i as int]);
                crate::sums::lemma_sum_take_le(ws, i as int + 1);
                lemma_sum_nonneg(ws.take(i as int + 1));
            }
            acc = acc + w;
            i = i + 1;
        }
        proof {
            assert(ws.take(n as int) =~= ws);
        }
        acc
    }

    /// Copies the current water-surface heights out, in point order.
    #[verifier::loop_isolation(false)]
    fn current_heights(&self) -> (r: Vec<PointHeight>)
        requires
            self.wf(),
        ensures
            r@.len() == self@.point_count(),
            forall|i: int| 0 <= i < r@.len() ==> #[trigger] r@[i] == self@.height(i),
    {
        let n = self.points.len();
        let mut r: Vec<PointHeight> = Vec::new();
        let mut i: usize = 0;
        while i < n
            invariant
                i <= n,
                r@.len() == i,
                forall|k: int| 0 <= k < i ==> #[trigger] r@[k] == self@.height(k),
            decreases n - i,
        {
            proof {
                lemma_water_bounded(self@, i as int);
                assert(self.points@[i as int].ground as int == self@.grounds[i as int]);
                assert(self.points@[i as int].water as int == self@.waters[i as int]);
                assert(-MAX_GROUND_ABS <= self@.grounds[i as int] <= MAX_GROUND_ABS);
            }
            let h = self.points[i].ground + self.points[i].water;
            r.push(h);
            i = i + 1;
        }
        r
    }

    /// Simulates one step of falling rain: every point receives the amount
    /// the distribution names for its index, and the landscape is then
    /// stabilized. When `return_result` is set, the resulting water-surface
    /// heights come back in point order; otherwise the result is empty.
    #[verifier::loop_isolation(false)]
    pub fn rain<F: Fn(usize) -> PointHeight>(
        &mut self,
        rain_distr: F,
        return_result: bool,
    ) -> (r: Result<Vec<PointHeight>, LandscapeError>)
        requires
            old(self).wf(),
            forall|i: usize| i < old(self)@.point_count() ==> call_requires(rain_distr, (i,)),
            forall|i: usize, amt: PointHeight|
                call_ensures(rain_distr, (i,), amt) ==> amt >= 0,
        ensures
            final(self).wf(),
            final(self)@.grounds == old(self)@.grounds,
            final(self)@.order == old(self)@.order,
            final(self)@.eps == old(self)@.eps,
            final(self).diagnostics_spec() == old(self).diagnostics_spec(),
            !old(self).diagnostics_spec() ==> final(self).diagnostic_failures_spec() == old(
                self,
            ).diagnostic_failures_spec(),
            r is Err ==> (r == Err::<Vec<PointHeight>, LandscapeError>(
                LandscapeError::TooMuchWater,
            ) || r == Err::<Vec<PointHeight>, LandscapeError>(LandscapeError::NotStabilized)),
            r == Err::<Vec<PointHeight>, LandscapeError>(LandscapeError::TooMuchWater) ==> {
                &&& final(self)@ == old(self)@
                &&& exists|added: Seq<i64>|
                    {
                        &&& rainfall_of(rain_distr, added)
                        &&& added.len() <= old(self)@.point_count()
                        &&& sum_int(old(self)@.waters) + sum_int(ints_of(added))
                            > MAX_TOTAL_WATER
                    }
            },
            (r is Ok || r == Err::<Vec<PointHeight>, LandscapeError>(
                LandscapeError::NotStabilized,
            )) ==> exists|added: Seq<i64>|
                {
                    &&& rainfall_of(rain_distr, added)
                    &&& added.len() == old(self)@.point_count()
                    &&& sum_int(old(self)@.waters) + sum_int(ints_of(added)) <= MAX_TOTAL_WATER
                    &&& sum_int(final(self)@.waters) == sum_int(old(self)@.waters) + sum_int(
                        ints_of(added),
                    )
                    &&& exists|t: int|
                        0 <= t <= MAX_PASSES && final(self)@ == run_passes(
                            rained(old(self)@, added),
                            t,
                        ) && (forall|t2: int|
                            0 <= t2 < t ==> !(#[trigger] run_passes(
                                rained(old(self)@, added),
                                t2,
                            )).is_stable())
                    &&& r == Err::<Vec<PointHeight>, LandscapeError>(
                        LandscapeError::NotStabilized,
                    ) ==> forall|t: int|
                        0 <= t < MAX_PASSES ==> !(#[trigger] run_passes(
                            rained(old(self)@, added),
                            t,
                        )).is_stable()
                },
            r is Ok ==> final(self)@.is_stable(),
            match r {
                Ok(hs) => {
                    &&& return_result ==> hs@.len() == final(self)@.point_count() && (forall|
                        i: int,
                    |
                        0 <= i < hs@.len() ==> #[trigger] hs@[i] == final(self)@.height(i))
                    &&& !return_result ==> hs@.len() == 0
                },
                Err(_) => true,
            },
    {
        let n = self.points.len();
        let base = self.total_water();
        let mut added: Vec<i64> = Vec::new();
        let mut added_total: i64 = 0;
        let mut i: usize = 0;
        while i < n
            invariant
                i <= n,
                added@.len() == i,
                rainfall_of(rain_distr, added@),
                added_total == sum_int(ints_of(added@)),
                0 <= added_total,
                base + added_total <= MAX_TOTAL_WATER,
            decreases n - i,
        {
            let amt = rain_distr(i);
            proof {
                assert(ints_of(added@.push(amt)).drop_last() =~= ints_of(added@));
                assert(ints_of(added@.push(amt)).last() == amt as int);
            }
            if amt > MAX_TOTAL_WATER - base - added_total {
                proof {
                    let w = added@.push(amt);
                    assert(rainfall_of(rain_distr, w));
                    assert(sum_int(ints_of(w)) == added_total + amt);
                    assert(sum_int(self@.waters) + sum_int(ints_of(w)) > MAX_TOTAL_WATER);
                }
                return Err(LandscapeError::TooMuchWater);
            }
            added.push(amt);
            added_total = added_total + amt;
            i = i + 1;
        }

        let ghost m_before = self@;
        let mut i: usize = 0;
        while i < n
            invariant
                i <= n,
                self@.grounds == m_before.grounds,
                self@.order == m_before.order,
                self@.eps == m_before.eps,
                self@.waters.len() == n,
                forall|p: int|
                    0 <= p < i ==> #[trigger] self@.waters[p] == m_before.waters[p] + added@[p],
                forall|p: int| i <= p < n ==> #[trigger] self@.waters[p] == m_before.waters[p],
                sum_int(self@.waters) == sum_int(m_before.waters) + sum_int(
                    ints_of(added@.take(i as int)),
                ),
                self.diagnostics_spec() == old(self).diagnostics_spec(),
                self.diagnostic_failures_spec() == old(self).diagnostic_failures_spec(),
            decreases n - i,
        {
            let amt = added[i];
            let ghost ws = self@.waters;
            proof {
                assert forall|k: int| 0 <= k < ws.len() implies ws[k] >= 0 by {}
                lemma_sum_element_bound(ws, i as int);
                lemma_sum_element_bound(ints_of(added@), i as int);
                lemma_sum_nonneg(ints_of(added@));
                crate::sums::lemma_sum_take_le(ints_of(added@), i as int);
                assert(ints_of(added@.take(i as int)) =~= ints_of(added@).take(i as int));
            }
            let w = self.points[i].water;
            self.points[i].water = w + amt;
            proof {
                assert(self@.waters =~= ws.update(i as int, ws[i as int] + amt));
                lemma_sum_update(ws, i as int, ws[i as int] + amt);
                assert(ints_of(added@.take(i as int + 1)).drop_last() =~= ints_of(
                    added@.take(i as int),
                ));
                assert(ints_of(added@.take(i as int + 1)).last() == added@[i as int] as int);
                assert(self@.grounds =~= m_before.grounds);
            }
            i = i + 1;
        }
        proof {
            assert(added@.take(n as int) =~= added@);
            assert(sum_int(self@.waters) == sum_int(m_before.waters) + added_total);
            assert(self@.wf());
            assert(m_before == old(self)@);
            assert(self@.waters =~= rained(old(self)@, added@).waters);
            assert(self@ == rained(old(self)@, added@));
        }

        match self.stabilize_water() {
            Ok(()) => {}
            Err(e) => {
                proof {
                    assert(rainfall_of(rain_distr, added@));
                }
                return Err(e);
            }
        }
        proof {
            assert(rainfall_of(rain_distr, added@));
        }
        if return_result {
            Ok(self.current_heights())
        } else {
            Ok(Vec::new())
        }
    }

    /// Rains the same amount onto every point, then stabilizes. The special
    /// case of `rain` whose distribution ignores the point index.
    pub fn rain_uniform(&mut self, cnt: PointHeight, return_result: bool) -> (r: Result<
        Vec<PointHeight>,
        LandscapeError,
    >)
        requires
            old(self).wf(),
            cnt >= 0,
        ensures
            final(self).wf(),
            final(self)@.grounds == old(self)@.grounds,
            final(self)@.order == old(self)@.order,
            final(self)@.eps == old(self)@.eps,
            final(self).diagnostics_spec() == old(self).diagnostics_spec(),
            !old(self).diagnostics_spec() ==> final(self).diagnostic_failures_spec() == old(
                self,
            ).diagnostic_failures_spec(),
            r == Err::<Vec<PointHeight>, LandscapeError>(LandscapeError::TooMuchWater)
                <==> sum_int(old(self)@.waters) + old(self)@.point_count() * cnt
                > MAX_TOTAL_WATER,
            r == Err::<Vec<PointHeight>, LandscapeError>(LandscapeError::TooMuchWater)
                ==> final(self)@ == old(self)@,
            r is Err ==> (r == Err::<Vec<PointHeight>, LandscapeError>(
                LandscapeError::TooMuchWater,
            ) || r == Err::<Vec<PointHeight>, LandscapeError>(LandscapeError::NotStabilized)),
            (r is Ok || r == Err::<Vec<PointHeight>, LandscapeError>(
                LandscapeError::NotStabilized,
            )) ==> sum_int(final(self)@.waters) == sum_int(old(self)@.waters)
                + old(self)@.point_count() * cnt,
            (r is Ok || r == Err::<Vec<PointHeight>, LandscapeError>(
                LandscapeError::NotStabilized,
            )) ==> exists|t: int|
                0 <= t <= MAX_PASSES && final(self)@ == run_passes(
                    rained(old(self)@, uniform_rain(old(self)@.waters.len(), cnt)),
                    t,
                ),
            r == Err::<Vec<PointHeight>, LandscapeError>(LandscapeError::NotStabilized)
                ==> forall|t: int|
                0 <= t < MAX_PASSES ==> !(#[trigger] run_passes(
                    rained(old(self)@, uniform_rain(old(self)@.waters.len(), cnt)),
                    t,
                )).is_stable(),
            r is Ok ==> final(self)@.is_stable(),
            match r {
                Ok(hs) => {
                    &&& return_result ==> hs@.len() == final(self)@.point_count() && (forall|
                        i: int,
                    |
                        0 <= i < hs@.len() ==> #[trigger] hs@[i] == final(self)@.height(i))
                    &&& !return_result ==> hs@.len() == 0
                },
                Err(_) => true,
            },
    {
        let c = cnt;
        let f = |i: usize| -> (a: PointHeight)
            ensures
                a == c,
            { c };
        let ghost n = old(self)@.point_count();
        let ghost base = sum_int(old(self)@.waters);
        let r = self.rain(f, return_result);
        proof {
            if r == Err::<Vec<PointHeight>, LandscapeError>(LandscapeError::TooMuchWater) {
                let added = choose|added: Seq<i64>|
                    {
                        &&& rainfall_of(f, added)
                        &&& added.len() <= n
                        &&& base + sum_int(ints_of(added)) > MAX_TOTAL_WATER
                    };
                assert forall|k: int| 0 <= k < ints_of(added).len() implies ints_of(added)[k]
                    == cnt as int by {
                    assert(call_ensures(f, (k as usize,), added[k]));
                }
                lemma_sum_const(ints_of(added), cnt as int);
                assert(sum_int(ints_of(added)) == added.len() * cnt);
                assert(added.len() * cnt <= n * cnt) by (nonlinear_arith)
                    requires
                        added.len() <= n,
                        cnt >= 0,
                ;
            } else {
                let added = choose|added: Seq<i64>|
                    {
                        &&& rainfall_of(f, added)
                        &&& added.len() == n
                        &&& base + sum_int(ints_of(added)) <= MAX_TOTAL_WATER
                        &&& sum_int(final(self)@.waters) == base + sum_int(ints_of(added))
                        &&& exists|t: int|
                            0 <= t <= MAX_PASSES && final(self)@ == run_passes(
                                rained(old(self)@, added),
                                t,
                            )
                        &&& r == Err::<Vec<PointHeight>, LandscapeError>(
                            LandscapeError::NotStabilized,
                        ) ==> forall|t: int|
                            0 <= t < MAX_PASSES ==> !(#[trigger] run_passes(
                                rained(old(self)@, added),
                                t,
                            )).is_stable()
                    };
                assert forall|k: int| 0 <= k < ints_of(added).len() implies ints_of(added)[k]
                    == cnt as int by {
                    assert(call_ensures(f, (k as usize,), added[k]));
                }
                lemma_sum_const(ints_of(added), cnt as int);
                assert(sum_int(ints_of(added)) == n * cnt);
                assert(added =~= uniform_rain(old(self)@.waters.len(), cnt));
                assert(rained(old(self)@, added) == rained(
                    old(self)@,
                    uniform_rain(old(self)@.waters.len(), cnt),
                ));
            }
        }
        r
    }
}

/// The per-point amounts `added` are a possible outcome of drawing one
/// rainfall amount per point from the distribution `f`.
pub open spec fn rainfall_of<F: Fn(usize) -> PointHeight>(f: F, added: Seq<i64>) -> bool {
    &&& forall|i: int| 0 <= i < added.len() ==> #[trigger] added[i] >= 0
    &&& forall|i: int|
        0 <= i < added.len() ==> call_ensures(f, (i as usize,), #[trigger] added[i])
}

} // verus!

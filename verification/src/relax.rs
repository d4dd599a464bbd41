//! The relaxation: merging a bag of states into one relaxed state that admits
//! at least every decision the merged states admit, and a fast admissible
//! upper bound on the remaining reward, optionally tightened by the
//! compression bound.

use vstd::prelude::*;
use vstd::pervasive::VecAdditionalExecFns;
use crate::instance::MAX_TIME;
use crate::model::{Alp, AlpState, GState, RunwayState};
use crate::bound::AlpCompressionBound;

verus! {

/// The estimator's share of class `c` over its first `j` remaining aircraft:
/// each contributes the negated part of its target beyond its latest time,
/// which is zero whenever the instance keeps targets at or before latest
/// times.
pub open spec fn fub_class(pb: &Alp, c: int, j: int) -> int
    decreases j,
{
    if j <= 0 {
        0
    } else {
        let a = pb.next@[c]@[j - 1] as int;
        fub_class(pb, c, j - 1) + (if pb.instance.target@[a] > pb.instance.latest@[a] {
            pb.instance.latest@[a] - pb.instance.target@[a]
        } else {
            0int
        })
    }
}

/// The estimator's share of the first `c` classes.
pub open spec fn fub_sum(pb: &Alp, g: GState, c: int) -> int
    decreases c,
{
    if c <= 0 {
        0
    } else {
        fub_sum(pb, g, c - 1) + fub_class(pb, c - 1, g.rem[c - 1] as int)
    }
}

/// The fast admissible upper bound on the remaining reward: the sum, over
/// every remaining aircraft, of the reward it would earn even when forced
/// past its latest time. Never positive, and zero on valid instances.
pub open spec fn spec_fub(pb: &Alp, g: GState) -> int {
    fub_sum(pb, g, pb.k())
}

/// The merged remaining count of class `c` over the first `i` states: the
/// largest count, so the merged state can still schedule whatever any of
/// them could.
pub open spec fn merged_rem(gs: Seq<GState>, c: int, i: int) -> int
    decreases i,
{
    if i <= 1 {
        gs[0].rem[c] as int
    } else {
        let prev = merged_rem(gs, c, i - 1);
        if gs[i - 1].rem[c] > prev {
            gs[i - 1].rem[c] as int
        } else {
            prev
        }
    }
}

/// The merged last time of runway `r` over the first `i` states: the
/// earliest, which admits every arrival any of them admits.
pub open spec fn merged_time(gs: Seq<GState>, r: int, i: int) -> int
    decreases i,
{
    if i <= 1 {
        gs[0].info[r].prev_time as int
    } else {
        let prev = merged_time(gs, r, i - 1);
        if gs[i - 1].info[r].prev_time < prev {
            gs[i - 1].info[r].prev_time as int
        } else {
            prev
        }
    }
}

/// The merged last class of runway `r` over the first `i` states: kept when
/// all states agree on it, dropped to "empty" otherwise, which removes the
/// separation constraint altogether.
pub open spec fn merged_class(gs: Seq<GState>, r: int, i: int) -> int
    decreases i,
{
    if i <= 1 {
        gs[0].info[r].prev_class as int
    } else {
        let prev = merged_class(gs, r, i - 1);
        if gs[i - 1].info[r].prev_class == prev {
            prev
        } else {
            -1
        }
    }
}

/// The merged remaining count never exceeds a bound that every merged state
/// respects.
pub proof fn lemma_merged_rem_le(gs: Seq<GState>, c: int, i: int, bound: int)
    requires
        1 <= i <= gs.len(),
        forall|j: int| 0 <= j < i ==> #[trigger] gs[j].rem[c] <= bound,
    ensures
        merged_rem(gs, c, i) <= bound,
    decreases i,
{
    if i > 1 {
        lemma_merged_rem_le(gs, c, i - 1, bound);
    }
}

/// The merged runway time stays within the bounds every merged state
/// respects.
pub proof fn lemma_merged_time_bounds(gs: Seq<GState>, r: int, i: int)
    requires
        1 <= i <= gs.len(),
        forall|j: int| 0 <= j < i ==> -1 <= #[trigger] gs[j].info[r].prev_time <= MAX_TIME,
    ensures
        -1 <= merged_time(gs, r, i) <= MAX_TIME,
    decreases i,
{
    if i > 1 {
        lemma_merged_time_bounds(gs, r, i - 1);
    }
}

/// The merged runway class is either "empty" or one of the merged states'
/// classes, hence within range.
pub proof fn lemma_merged_class_bounds(gs: Seq<GState>, r: int, i: int, k: int)
    requires
        1 <= i <= gs.len(),
        forall|j: int| 0 <= j < i ==> -1 <= #[trigger] gs[j].info[r].prev_class < k,
    ensures
        -1 <= merged_class(gs, r, i) < k,
    decreases i,
{
    if i > 1 {
        lemma_merged_class_bounds(gs, r, i - 1, k);
    }
}

/// The relaxation. It owns its own copy of the problem and, optionally, the
/// compression bound that tightens its estimate.
pub struct AlpRelax {
    pub problem: Alp,
    pub compression_bound: Option<AlpCompressionBound>,
}

impl AlpRelax {
    pub open spec fn wf(&self) -> bool {
        &&& self.problem.wf()
        &&& match self.compression_bound {
            Some(b) => b.wf() && b.compression.problem.instance.nb_classes
                == self.problem.instance.nb_classes && b.compression.problem.instance.nb_runways
                == self.problem.instance.nb_runways && b.compression.problem.instance.classes@
                == self.problem.instance.classes@,
            None => true,
        }
    }

    pub fn new(problem: Alp, compression_bound: Option<AlpCompressionBound>) -> (r: AlpRelax)
        ensures
            r.problem == problem,
            r.compression_bound == compression_bound,
    {
        AlpRelax { problem, compression_bound }
    }

    /// Merges a non-empty bag of states into one relaxed state, runway by
    /// runway and class by class: largest remaining counts, earliest runway
    /// times, runway classes kept only where all states agree.
    #[verifier::loop_isolation(false)]
    pub fn merge(&self, states: &Vec<AlpState>) -> (m: AlpState)
        requires
            self.wf(),
            states@.len() >= 1,
            forall|i: int|
                0 <= i < states@.len() ==> self.problem.st_wf(#[trigger] states@[i]@),
        ensures
            self.problem.st_wf(m@),
            m@.rem.len() == self.problem.k(),
            forall|c: int|
                0 <= c < self.problem.k() ==> #[trigger] m@.rem[c] as int == merged_rem(
                    states@.map_values(|s: AlpState| s@),
                    c,
                    states@.len() as int,
                ),
            m@.info.len() == self.problem.nr(),
            forall|r: int|
                0 <= r < self.problem.nr() ==> #[trigger] m@.info[r].prev_time as int
                    == merged_time(states@.map_values(|s: AlpState| s@), r, states@.len() as int),
            forall|r: int|
                0 <= r < self.problem.nr() ==> #[trigger] m@.info[r].prev_class as int
                    == merged_class(states@.map_values(|s: AlpState| s@), r, states@.len() as int),
    {
        let ghost gs = states@.map_values(|s: AlpState| s@);
        let sn = states.len();
        proof {
            assert(forall|j: int| 0 <= j < sn ==> #[trigger] gs[j] == states@[j]@);
            assert(self.problem.st_wf(states@[0]@));
        }
        let first = &states[0];
        let mut rem: Vec<usize> = Vec::new();
        let mut c: usize = 0;
        let k = first.rem.len();
        while c < k
            invariant
                c <= k,
                rem@.len() == c,
                forall|t: int| 0 <= t < c ==> #[trigger] rem@[t] == gs[0].rem[t],
            decreases k - c,
        {
            rem.push(first.rem[c]);
            c = c + 1;
        }
        let mut info: Vec<RunwayState> = Vec::new();
        let mut r: usize = 0;
        let nr = first.info.len();
        while r < nr
            invariant
                r <= nr,
                info@.len() == r,
                forall|t: int| 0 <= t < r ==> #[trigger] info@[t] == gs[0].info[t],
            decreases nr - r,
        {
            info.push(first.info[r]);
            r = r + 1;
        }
        let mut i: usize = 1;
        while i < sn
            invariant
                1 <= i <= sn,
                rem@.len() == k,
                info@.len() == nr,
                forall|t: int|
                    0 <= t < k ==> #[trigger] rem@[t] as int == merged_rem(gs, t, i as int),
                forall|t: int|
                    0 <= t < nr ==> (#[trigger] info@[t]).prev_time == merged_time(
                        gs,
                        t,
                        i as int,
                    ) && info@[t].prev_class == merged_class(gs, t, i as int),
            decreases sn - i,
        {
            proof {
                assert(self.problem.st_wf(states@[i as int]@));
            }
            let mut c: usize = 0;
            while c < k
                invariant
                    c <= k,
                    i < sn,
                    rem@.len() == k,
                    forall|t: int|
                        0 <= t < c ==> #[trigger] rem@[t] as int == merged_rem(gs, t, i + 1),
                    forall|t: int|
                        c <= t < k ==> #[trigger] rem@[t] as int == merged_rem(gs, t, i as int),
                decreases k - c,
            {
                if states[i].rem[c] > rem[c] {
                    rem.set(c, states[i].rem[c]);
                }
                c = c + 1;
            }
            let mut r: usize = 0;
            while r < nr
                invariant
                    r <= nr,
                    i < sn,
                    info@.len() == nr,
                    forall|t: int|
                        0 <= t < r ==> (#[trigger] info@[t]).prev_time == merged_time(
                            gs,
                            t,
                            i + 1,
                        ) && info@[t].prev_class == merged_class(gs, t, i + 1),
                    forall|t: int|
                        r <= t < nr ==> (#[trigger] info@[t]).prev_time == merged_time(
                            gs,
                            t,
                            i as int,
                        ) && info@[t].prev_class == merged_class(gs, t, i as int),
                decreases nr - r,
            {
                let cur = info[r];
                let se = states[i].info[r];
                let new_time = if se.prev_time < cur.prev_time {
                    se.prev_time
                } else {
                    cur.prev_time
                };
                let new_class = if se.prev_class == cur.prev_class {
                    cur.prev_class
                } else {
                    -1
                };
                let ghost old_info = info@;
                info.set(r, RunwayState { prev_time: new_time, prev_class: new_class });
                proof {
                    assert(gs[i as int] == states@[i as int]@);
                    assert(se == gs[i as int].info[r as int]);
                    assert(cur.prev_time as int == merged_time(gs, r as int, i as int));
                    assert(info@[r as int].prev_time as int == merged_time(gs, r as int, i + 1));
                    assert(info@[r as int].prev_class as int == merged_class(gs, r as int, i + 1));
                    assert forall|t: int|
                        r + 1 <= t < nr implies (#[trigger] info@[t]).prev_time == merged_time(
                        gs,
                        t,
                        i as int,
                    ) && info@[t].prev_class == merged_class(gs, t, i as int) by {
                        assert(info@[t] == old_info[t]);
                    }
                    assert forall|t: int|
                        0 <= t < r implies (#[trigger] info@[t]).prev_time == merged_time(
                        gs,
                        t,
                        i + 1,
                    ) && info@[t].prev_class == merged_class(gs, t, i + 1) by {
                        assert(info@[t] == old_info[t]);
                    }
                }
                r = r + 1;
            }
            i = i + 1;
        }
        let m = AlpState { rem, info };
        proof {
            assert forall|t: int| 0 <= t < k implies #[trigger] m@.rem[t]
                <= crate::model::cnt_class(self.problem.instance.classes@, t) by {
                lemma_merged_rem_le(
                    gs,
                    t,
                    sn as int,
                    crate::model::cnt_class(self.problem.instance.classes@, t),
                );
            }
            assert forall|t: int| 0 <= t < nr implies -1 <= #[trigger] m@.info[t].prev_time
                <= MAX_TIME && -1 <= m@.info[t].prev_class < self.problem.k() by {
                lemma_merged_time_bounds(gs, t, sn as int);
                lemma_merged_class_bounds(gs, t, sn as int, self.problem.k());
            }
        }
        m
    }

    /// Tightest upper bound at hand for the remaining reward: the plain
    /// admissible estimator `spec_fub`, lowered to the compression bound's
    /// exact meta reward whenever one is attached and its dictionary has a
    /// match. The meta reward is itself proved admissible for clusterings
    /// that pool no classes; see `AlpCompressionBound`.
    #[verifier::loop_isolation(false)]
    pub fn fast_upper_bound(&self, state: &AlpState) -> (ub: i64)
        requires
            self.wf(),
            self.problem.st_wf(state@),
        ensures
            ub <= spec_fub(&self.problem, state@),
            ub == spec_fub(&self.problem, state@) || (self.compression_bound matches Some(b)
                && b.sound_bound(state@, ub as int)),
    {
        let k = self.problem.instance.nb_classes;
        let mut acc: i64 = 0;
        let mut c: usize = 0;
        while c < k
            invariant
                c <= k,
                acc == fub_sum(&self.problem, state@, c as int),
                -(c as int) * 10_000 * MAX_TIME <= acc <= 0,
            decreases k - c,
        {
            let remc = state.rem[c];
            let mut j: usize = 0;
            let mut cacc: i64 = 0;
            proof {
                crate::model::lemma_cnt_class_le_len(self.problem.instance.classes@, c as int);
            }
            while j < remc
                invariant
                    j <= remc,
                    remc == state@.rem[c as int],
                    remc <= 10_000,
                    c < k,
                    cacc == fub_class(&self.problem, c as int, j as int),
                    -(j as int) * MAX_TIME <= cacc <= 0,
                decreases remc - j,
            {
                let a = self.problem.next[c][j];
                let t = self.problem.instance.target[a];
                let l = self.problem.instance.latest[a];
                proof {
                    assert(-(j as int) * MAX_TIME - MAX_TIME == -((j + 1) as int) * MAX_TIME)
                        by (nonlinear_arith);
                    assert(0 >= -(j as int) * MAX_TIME >= -10_000 * (MAX_TIME as int))
                        by (nonlinear_arith)
                        requires
                            0 <= j as int <= 10_000,
                    ;
                }
                if t > l {
                    cacc = cacc - (t - l);
                }
                j = j + 1;
            }
            proof {
                assert(-(c as int) * 10_000 * MAX_TIME - 10_000 * (MAX_TIME as int) == -((c
                    + 1) as int) * 10_000 * MAX_TIME) by (nonlinear_arith);
                assert(0 >= -(c as int) * 10_000 * MAX_TIME >= -1000 * 10_000 * (
                MAX_TIME as int)) by (nonlinear_arith)
                    requires
                        0 <= c as int <= 1000,
                ;
                assert(-(j as int) * MAX_TIME >= -10_000 * (MAX_TIME as int)) by (nonlinear_arith)
                    requires
                        0 <= j as int <= 10_000,
                ;
            }
            acc = acc + cacc;
            c = c + 1;
        }
        match &self.compression_bound {
            Some(b) => {
                proof {
                    assert(b.compression.problem.st_wf(state@)) by {
                        assert forall|t: int|
                            0 <= t < b.compression.problem.k()
                                implies #[trigger] state@.rem[t] <= crate::model::cnt_class(
                            b.compression.problem.instance.classes@,
                            t,
                        ) by {
                            assert(b.compression.problem.instance.classes@
                                == self.problem.instance.classes@);
                        }
                    }
                }
                let cb = b.compressed_bound(state);
                match cb {
                    Some(x) => {
                        if x < acc {
                            x
                        } else {
                            acc
                        }
                    },
                    None => acc,
                }
            },
            None => acc,
        }
    }

    /// Adjusts the cost of an edge redirected to a merged state: the
    /// relaxation lives entirely in the state merge, so the cost is kept.
    pub fn relax_edge(
        &self,
        _source: &AlpState,
        _dest: &AlpState,
        _new: &AlpState,
        _decision: i64,
        cost: i64,
    ) -> (r: i64)
        ensures
            r == cost,
    {
        cost
    }
}

} // verus!

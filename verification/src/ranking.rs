//! The state ranking that guides layer-width pruning: states whose runways
//! became free earlier come first, ties broken by the remaining counts and
//! then by the runway entries themselves.

use vstd::prelude::*;
use crate::instance::{MAX_TIME, MAX_RUNWAYS};
use crate::model::{AlpState, GState, RunwayState, sum_prev_times};
use crate::model::{lemma_sum_prev_times_take_step, lemma_sum_prev_times_bounds};

verus! {

/// Lexicographic comparison of two count vectors: -1, 0 or 1.
pub open spec fn spec_cmp_rem(a: Seq<usize>, b: Seq<usize>) -> int
    decreases a.len(),
{
    if a.len() == 0 && b.len() == 0 {
        0
    } else if a.len() == 0 {
        -1
    } else if b.len() == 0 {
        1
    } else if a[0] < b[0] {
        -1
    } else if a[0] > b[0] {
        1
    } else {
        spec_cmp_rem(a.drop_first(), b.drop_first())
    }
}

/// Lexicographic comparison of two runway vectors, each entry by time then
/// class: -1, 0 or 1.
pub open spec fn spec_cmp_info(a: Seq<RunwayState>, b: Seq<RunwayState>) -> int
    decreases a.len(),
{
    if a.len() == 0 && b.len() == 0 {
        0
    } else if a.len() == 0 {
        -1
    } else if b.len() == 0 {
        1
    } else if a[0].prev_time < b[0].prev_time {
        -1
    } else if a[0].prev_time > b[0].prev_time {
        1
    } else if a[0].prev_class < b[0].prev_class {
        -1
    } else if a[0].prev_class > b[0].prev_class {
        1
    } else {
        spec_cmp_info(a.drop_first(), b.drop_first())
    }
}

/// The ranking order: by increasing runway-time sum, then lexicographic
/// remaining counts, then lexicographic runway entries.
pub open spec fn spec_cmp_states(g1: GState, g2: GState) -> int {
    let s1 = sum_prev_times(g1.info);
    let s2 = sum_prev_times(g2.info);
    if s1 < s2 {
        -1
    } else if s1 > s2 {
        1
    } else {
        let c = spec_cmp_rem(g1.rem, g2.rem);
        if c != 0 {
            c
        } else {
            spec_cmp_info(g1.info, g2.info)
        }
    }
}

/// Per-runway bounds under which the time sum stays inside `i64`.
pub open spec fn info_bounded(info: Seq<RunwayState>) -> bool {
    &&& info.len() <= MAX_RUNWAYS
    &&& forall|r: int| 0 <= r < info.len() ==> -1 <= #[trigger] info[r].prev_time <= MAX_TIME
}

/// Computes the runway-time sum of a state.
#[verifier::loop_isolation(false)]
pub fn runway_time_sum(info: &Vec<RunwayState>) -> (s: i64)
    requires
        info_bounded(info@),
    ensures
        s == sum_prev_times(info@),
{
    let mut s: i64 = 0;
    let mut r: usize = 0;
    let nr = info.len();
    proof {
        assert(sum_prev_times(info@.take(0)) == 0);
    }
    while r < nr
        invariant
            r <= nr,
            s == sum_prev_times(info@.take(r as int)),
            -(r as int) <= s <= (r as int) * MAX_TIME,
        decreases nr - r,
    {
        proof {
            lemma_sum_prev_times_take_step(info@, r as int);
            assert((r as int) * MAX_TIME + MAX_TIME == (r + 1) as int * MAX_TIME)
                by (nonlinear_arith);
            assert(0 <= (r as int) * MAX_TIME <= 1000 * (MAX_TIME as int)) by (nonlinear_arith)
                requires
                    0 <= r as int <= 1000,
            ;
        }
        s = s + info[r].prev_time;
        r = r + 1;
    }
    proof {
        assert(info@.take(nr as int) =~= info@);
    }
    s
}

/// The ranking; it carries no data of its own.
pub struct AlpRanking;

impl AlpRanking {
    /// Compares two states in the ranking order; returns -1, 0 or 1.
    #[verifier::loop_isolation(false)]
    pub fn compare(&self, a: &AlpState, b: &AlpState) -> (o: i32)
        requires
            info_bounded(a@.info),
            info_bounded(b@.info),
        ensures
            o as int == spec_cmp_states(a@, b@),
    {
        let sa = runway_time_sum(&a.info);
        let sb = runway_time_sum(&b.info);
        if sa < sb {
            return -1;
        }
        if sa > sb {
            return 1;
        }
        let la = a.rem.len();
        let lb = b.rem.len();
        let mut i: usize = 0;
        proof {
            assert(a@.rem.skip(0) =~= a@.rem);
            assert(b@.rem.skip(0) =~= b@.rem);
        }
        while i < la && i < lb
            invariant
                i <= la,
                i <= lb,
                la == a@.rem.len(),
                lb == b@.rem.len(),
                spec_cmp_rem(a@.rem, b@.rem) == spec_cmp_rem(
                    a@.rem.skip(i as int),
                    b@.rem.skip(i as int),
                ),
            decreases la - i,
        {
            proof {
                assert(a@.rem.skip(i as int).drop_first() =~= a@.rem.skip(i as int + 1));
                assert(b@.rem.skip(i as int).drop_first() =~= b@.rem.skip(i as int + 1));
                assert(a@.rem.skip(i as int)[0] == a@.rem[i as int]);
                assert(b@.rem.skip(i as int)[0] == b@.rem[i as int]);
            }
            if a.rem[i] < b.rem[i] {
                return -1;
            }
            if a.rem[i] > b.rem[i] {
                return 1;
            }
            i = i + 1;
        }
        if la < lb {
            return -1;
        }
        if la > lb {
            return 1;
        }
        proof {
            assert(a@.rem.skip(la as int).len() == 0);
            assert(b@.rem.skip(lb as int).len() == 0);
        }
        let nra = a.info.len();
        let nrb = b.info.len();
        let mut r: usize = 0;
        proof {
            assert(a@.info.skip(0) =~= a@.info);
            assert(b@.info.skip(0) =~= b@.info);
        }
        while r < nra && r < nrb
            invariant
                r <= nra,
                r <= nrb,
                nra == a@.info.len(),
                nrb == b@.info.len(),
                spec_cmp_info(a@.info, b@.info) == spec_cmp_info(
                    a@.info.skip(r as int),
                    b@.info.skip(r as int),
                ),
            decreases nra - r,
        {
            proof {
                assert(a@.info.skip(r as int).drop_first() =~= a@.info.skip(r as int + 1));
                assert(b@.info.skip(r as int).drop_first() =~= b@.info.skip(r as int + 1));
                assert(a@.info.skip(r as int)[0] == a@.info[r as int]);
                assert(b@.info.skip(r as int)[0] == b@.info[r as int]);
            }
            let ea = a.info[r];
            let eb = b.info[r];
            if ea.prev_time < eb.prev_time {
                return -1;
            }
            if ea.prev_time > eb.prev_time {
                return 1;
            }
            if ea.prev_class < eb.prev_class {
                return -1;
            }
            if ea.prev_class > eb.prev_class {
                return 1;
            }
            r = r + 1;
        }
        if nra < nrb {
            return -1;
        }
        if nra > nrb {
            return 1;
        }
        proof {
            assert(a@.info.skip(nra as int).len() == 0);
            assert(b@.info.skip(nrb as int).len() == 0);
        }
        0
    }
}

} // verus!

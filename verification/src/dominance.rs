//! The dominance filter over states: states sharing a key (remaining counts
//! and per-runway last classes) are compared coordinate-wise on their runway
//! times; a state whose runways are all at least as early dominates.

use vstd::prelude::*;
use vstd::relations::{sorted_by, total_ordering};
use vstd::seq_lib::{lemma_sorted_unique, to_multiset_build, to_multiset_insert};
use crate::instance::MAX_TIME;
use crate::model::{AlpState, GState, RunwayState};

verus! {

/// The dominance key of a state: remaining counts per class and the class of
/// the last landing on each runway, in runway order.
#[derive(PartialEq, Eq, Hash, Clone, Debug)]
pub struct AlpKey {
    pub rem: Vec<usize>,
    pub prev_class: Vec<i64>,
}

/// Orders runway entries by last class, then last time.
pub open spec fn runway_leq(a: RunwayState, b: RunwayState) -> bool {
    a.prev_class < b.prev_class || (a.prev_class == b.prev_class && a.prev_time <= b.prev_time)
}

/// The one ordering function used for canonical presentations, so that every
/// mention denotes the same function value.
pub open spec fn runway_order() -> spec_fn(RunwayState, RunwayState) -> bool {
    |a: RunwayState, b: RunwayState| runway_leq(a, b)
}

pub proof fn lemma_runway_order_total()
    ensures
        total_ordering(runway_order()),
{
    let leq = runway_order();
    assert forall|a: RunwayState| #[trigger] leq(a, a) by {}
    assert forall|a: RunwayState, b: RunwayState, c: RunwayState|
        #[trigger] leq(a, b) && #[trigger] leq(b, c) implies leq(a, c) by {}
    assert forall|a: RunwayState, b: RunwayState| #[trigger] leq(a, b) && #[trigger] leq(
        b,
        a,
    ) implies a == b by {}
    assert forall|a: RunwayState, b: RunwayState| #[trigger] leq(a, b) || #[trigger] leq(b, a) by {}
}

/// A runway vector sorted by class, then time: the canonical presentation
/// under which runways are interchangeable.
pub open spec fn canonical_info(info: Seq<RunwayState>) -> Seq<RunwayState> {
    info.sort_by(runway_order())
}

/// The canonical dominance key: remaining counts, plus the multiset of last
/// classes presented in sorted order.
#[verifier::ext_equal]
pub ghost struct GKey {
    pub rem: Seq<usize>,
    pub prev_class: Seq<i64>,
}

pub open spec fn canonical_key(g: GState) -> GKey {
    GKey {
        rem: g.rem,
        prev_class: canonical_info(g.info).map_values(|rs: RunwayState| rs.prev_class),
    }
}

/// Two states are interchangeable for caching: the same remaining counts and
/// the same runway histories up to runway order.
pub open spec fn equivalent_states(g1: GState, g2: GState) -> bool {
    g1.rem == g2.rem && g1.info.to_multiset() == g2.info.to_multiset()
}

/// Any permutation of the runway vector that preserves its multiset yields
/// the same canonical dominance key.
pub proof fn lemma_canonical_key_permutation_invariant(g1: GState, g2: GState)
    requires
        equivalent_states(g1, g2),
    ensures
        canonical_key(g1) == canonical_key(g2),
{
    let leq = runway_order();
    lemma_runway_order_total();
    g1.info.lemma_sort_by_ensures(leq);
    g2.info.lemma_sort_by_ensures(leq);
    lemma_sorted_unique(g1.info.sort_by(leq), g2.info.sort_by(leq), leq);
    assert(canonical_info(g1.info) =~= canonical_info(g2.info));
    assert(canonical_key(g1) =~= canonical_key(g2));
}

/// Sorts a runway vector into its canonical presentation: the executable
/// `canonical_info`.
#[verifier::loop_isolation(false)]
pub fn canonicalize_info(info: &Vec<RunwayState>) -> (out: Vec<RunwayState>)
    ensures
        out@ == canonical_info(info@),
        out@.len() == info@.len(),
{
    proof {
        lemma_runway_order_total();
    }
    let mut out: Vec<RunwayState> = Vec::new();
    let n = info.len();
    let mut i: usize = 0;
    proof {
        assert(out@.to_multiset() == info@.take(0).to_multiset()) by {
            assert(out@ =~= info@.take(0));
        }
    }
    while i < n
        invariant
            i <= n,
            out@.len() == i,
            sorted_by(out@, runway_order()),
            out@.to_multiset() == info@.take(i as int).to_multiset(),
        decreases n - i,
    {
        let x = info[i];
        let mut pos: usize = 0;
        while pos < out.len() && (out[pos].prev_class < x.prev_class || (out[pos].prev_class
            == x.prev_class && out[pos].prev_time <= x.prev_time))
            invariant
                pos <= out@.len(),
                forall|t: int| 0 <= t < pos ==> runway_leq(#[trigger] out@[t], x),
            decreases out@.len() - pos,
        {
            pos = pos + 1;
        }
        let ghost old_out = out@;
        out.insert(pos, x);
        proof {
            let leq = runway_order();
            to_multiset_insert(old_out, pos as int, x);
            to_multiset_build(info@.take(i as int), info@[i as int]);
            assert(info@.take(i as int + 1) =~= info@.take(i as int).push(info@[i as int]));
            assert forall|t1: int, t2: int| 0 <= t1 < t2 < out@.len() implies #[trigger] leq(
                out@[t1],
                out@[t2],
            ) by {
                if t2 < pos {
                    assert(leq(old_out[t1], old_out[t2]));
                } else if t1 < pos && t2 == pos {
                    assert(runway_leq(old_out[t1], x));
                    assert(leq(old_out[t1], x));
                } else if t1 == pos {
                    assert(pos < old_out.len());
                    assert(!runway_leq(old_out[pos as int], x));
                    assert(leq(x, old_out[pos as int]) || leq(old_out[pos as int], x));
                    assert(leq(x, old_out[pos as int]));
                    if t2 - 1 > pos {
                        assert(leq(old_out[pos as int], old_out[t2 - 1]));
                    }
                    assert(leq(x, old_out[t2 - 1]));
                } else if t1 < pos {
                    assert(leq(old_out[t1], old_out[t2 - 1]));
                } else {
                    assert(leq(old_out[t1 - 1], old_out[t2 - 1]));
                }
            }
        }
        i = i + 1;
    }
    proof {
        assert(info@.take(n as int) =~= info@);
        info@.lemma_sort_by_ensures(runway_order());
        lemma_sorted_unique(out@, info@.sort_by(runway_order()), runway_order());
        assert(out@ =~= canonical_info(info@));
    }
    out
}

/// The dominance relation itself. The key and the coordinates both read the
/// runway vector in its canonical order, so states that differ only by a
/// permutation of their runways meet under one key.
pub struct AlpDominance;

impl AlpDominance {
    /// The key under which the filter groups `state`: its remaining counts
    /// and the canonical presentation of its per-runway last classes.
    pub fn get_key(&self, state: &AlpState) -> (key: AlpKey)
        ensures
            key.rem@ == canonical_key(state@).rem,
            key.prev_class@ == canonical_key(state@).prev_class,
    {
        let mut rem: Vec<usize> = Vec::new();
        let mut i: usize = 0;
        let k = state.rem.len();
        while i < k
            invariant
                i <= k,
                k == state@.rem.len(),
                rem@.len() == i,
                forall|t: int| 0 <= t < i ==> #[trigger] rem@[t] == state@.rem[t],
            decreases k - i,
        {
            rem.push(state.rem[i]);
            i = i + 1;
        }
        let sorted = canonicalize_info(&state.info);
        let mut prev_class: Vec<i64> = Vec::new();
        let mut r: usize = 0;
        let nr = sorted.len();
        while r < nr
            invariant
                r <= nr,
                nr == sorted@.len(),
                prev_class@.len() == r,
                forall|t: int| 0 <= t < r ==> #[trigger] prev_class@[t] == sorted@[t].prev_class,
            decreases nr - r,
        {
            prev_class.push(sorted[r].prev_class);
            r = r + 1;
        }
        proof {
            assert(rem@ =~= state@.rem);
            assert(prev_class@ =~= canonical_info(state@.info).map_values(
                |rs: RunwayState| rs.prev_class,
            ));
        }
        AlpKey { rem, prev_class }
    }

    /// The number of coordinates compared under one key: one per runway.
    pub fn nb_dimensions(&self, state: &AlpState) -> (n: usize)
        ensures
            n == state@.info.len(),
    {
        state.info.len()
    }

    /// Greater is better: a runway that became free earlier leaves more slack
    /// for the remaining aircraft. The coordinate negates the last time of
    /// the runway at canonical position `i`, so that coordinates of states
    /// sharing a key line up runway by runway.
    pub fn get_coordinate(&self, state: &AlpState, i: usize) -> (x: i64)
        requires
            i < state@.info.len(),
            forall|r: int|
                0 <= r < state@.info.len() ==> -1 <= #[trigger] state@.info[r].prev_time
                    <= MAX_TIME,
        ensures
            x == -canonical_info(state@.info)[i as int].prev_time,
    {
        let sorted = canonicalize_info(&state.info);
        proof {
            lemma_runway_order_total();
            state@.info.lemma_sort_by_ensures(runway_order());
            let e = canonical_info(state@.info)[i as int];
            assert(canonical_info(state@.info).contains(e));
            assert(state@.info.contains(e));
            let u = choose|u: int| 0 <= u < state@.info.len() && state@.info[u] == e;
            assert(-1 <= e.prev_time <= MAX_TIME);
        }
        -sorted[i].prev_time
    }

    /// The solver value reached at a state joins the comparison as one more
    /// coordinate.
    pub fn use_value(&self) -> (r: bool)
        ensures
            r,
    {
        true
    }
}

} // verus!

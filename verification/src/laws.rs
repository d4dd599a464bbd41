//! Laws of the model, stated over whole decision sequences: depth accounting,
//! transition time bounds, compatibility of dominance with reward, and the
//! admissibility of the meta separations.

use vstd::prelude::*;
use crate::instance::MAX_TIME;
use crate::model::{Alp, GState, sum_rem, cnt_class, lemma_sum_rem_update_dec, lemma_sum_counts_eq_len, lemma_cnt_class_le_len};
use crate::compression::AlpCompression;

verus! {

/// A decision sequence is feasible from `g`: every step is admissible in the
/// state reached so far. The sentinel is no part of a feasible run.
pub open spec fn run_ok(pb: &Alp, g: GState, ds: Seq<int>) -> bool
    decreases ds.len(),
{
    ds.len() == 0 || (pb.valid_code(g, ds[0]) && run_ok(pb, pb.step(g, ds[0]), ds.drop_first()))
}

/// The state a decision sequence ends in.
pub open spec fn run_end(pb: &Alp, g: GState, ds: Seq<int>) -> GState
    decreases ds.len(),
{
    if ds.len() == 0 {
        g
    } else {
        run_end(pb, pb.step(g, ds[0]), ds.drop_first())
    }
}

/// The total reward a decision sequence collects: the negated sum of the
/// deviations of its landings from their targets.
pub open spec fn run_reward(pb: &Alp, g: GState, ds: Seq<int>) -> int
    decreases ds.len(),
{
    if ds.len() == 0 {
        0
    } else {
        pb.step_cost(g, ds[0]) + run_reward(pb, pb.step(g, ds[0]), ds.drop_first())
    }
}

/// One admissible step preserves state well-formedness.
pub proof fn lemma_step_preserves_wf(pb: &Alp, g: GState, d: int)
    requires
        pb.wf(),
        pb.st_wf(g),
        pb.valid_code(g, d),
    ensures
        pb.st_wf(pb.step(g, d)),
        sum_rem(pb.step(g, d).rem) == sum_rem(g.rem) - 1,
{
    let c = pb.class_of(d);
    let r = pb.runway_of(d);
    let a = pb.next_aircraft(g, c);
    vstd::arithmetic::div_mod::lemma_mod_bound(d, pb.nr());
    assert(0 <= r < pb.nr());
    lemma_cnt_class_le_len(pb.instance.classes@, c);
    assert(0 <= a < pb.n());
    let arr = pb.spec_arrival(g.info, a, r);
    assert(arr <= pb.instance.latest@[a]);
    assert(arr >= pb.instance.target@[a] >= 0);
    lemma_sum_rem_update_dec(g.rem, c);
}

/// Along any feasible decision sequence the remaining count falls by exactly
/// one per decision.
pub proof fn lemma_run_depth(pb: &Alp, g: GState, ds: Seq<int>)
    requires
        pb.wf(),
        pb.st_wf(g),
        run_ok(pb, g, ds),
    ensures
        pb.st_wf(run_end(pb, g, ds)),
        sum_rem(run_end(pb, g, ds).rem) == sum_rem(g.rem) - ds.len(),
    decreases ds.len(),
{
    if ds.len() > 0 {
        lemma_step_preserves_wf(pb, g, ds[0]);
        lemma_run_depth(pb, pb.step(g, ds[0]), ds.drop_first());
    }
}

/// Depth accounting: for every state reachable from the initial state by a
/// feasible decision sequence, the remaining aircraft plus the depth equal
/// the number of aircraft of the instance.
pub proof fn law_rem_plus_depth(pb: &Alp, ds: Seq<int>)
    requires
        pb.wf(),
        run_ok(pb, pb.initial_g(), ds),
    ensures
        sum_rem(run_end(pb, pb.initial_g(), ds).rem) + ds.len() == pb.n(),
{
    let g0 = pb.initial_g();
    assert forall|c: int| 0 <= c < pb.k() implies #[trigger] g0.rem[c] <= cnt_class(
        pb.instance.classes@,
        c,
    ) by {
        lemma_cnt_class_le_len(pb.instance.classes@, c);
    }
    assert(pb.st_wf(g0));
    lemma_sum_counts_eq_len(pb.instance.classes@, pb.k());
    assert(g0.rem =~= Seq::new(
        pb.k() as nat,
        |c: int| cnt_class(pb.instance.classes@, c) as usize,
    ));
    lemma_run_depth(pb, g0, ds);
}

/// Transition time bound: a real transition lands the chosen aircraft no
/// earlier than its target and no earlier than the runway's previous landing
/// plus the required separation, an empty runway imposing none. The
/// hypothesis couples the empty-runway marker with its time, which holds of
/// every state reachable by real decisions.
pub proof fn law_transition_time(pb: &Alp, g: GState, c: int, r: int)
    requires
        pb.wf(),
        pb.st_wf(g),
        pb.admissible(g, c, r),
        g.info[r].prev_class == -1 ==> g.info[r].prev_time <= pb.instance.target@[
            pb.next_aircraft(g, c)],
    ensures
        ({
            let g2 = pb.step(g, pb.code_of(c, r));
            let a = pb.next_aircraft(g, c);
            &&& g2.info[r].prev_time >= pb.instance.target@[a]
            &&& g2.info[r].prev_time >= g.info[r].prev_time + (
            if g.info[r].prev_class == -1 {
                0int
            } else {
                pb.instance.separation@[g.info[r].prev_class as int]@[pb.instance.classes@[a] as int] as int
            })
        }),
{
    let code = pb.code_of(c, r);
    vstd::arithmetic::div_mod::lemma_fundamental_div_mod_converse(code, pb.nr(), c, r);
    let a = pb.next_aircraft(g, c);
    lemma_cnt_class_le_len(pb.instance.classes@, c);
    let arr = pb.spec_arrival(g.info, a, r);
    assert(0 <= arr <= MAX_TIME);
}

/// `p` relabels the runways: a bijection on `[0, n)` given by its images.
pub open spec fn is_perm(p: Seq<int>, n: int) -> bool {
    &&& p.len() == n
    &&& forall|i: int| 0 <= i < n ==> 0 <= #[trigger] p[i] < n
    &&& forall|i: int, j: int| #![trigger p[i], p[j]] 0 <= i < j < n ==> p[i] != p[j]
}

/// State `g2` dominates `g1` through the runway relabeling `p`: the same
/// remaining counts, and runway `p[r]` of `g2` carries the class of runway
/// `r` of `g1` while being free at least as early.
pub open spec fn dominates_via(pb: &Alp, g2: GState, g1: GState, p: Seq<int>) -> bool {
    &&& g2.rem == g1.rem
    &&& g1.info.len() == pb.nr()
    &&& g2.info.len() == pb.nr()
    &&& forall|r: int|
        0 <= r < pb.nr() ==> #[trigger] g2.info[p[r]].prev_class == g1.info[r].prev_class
    &&& forall|r: int|
        0 <= r < pb.nr() ==> #[trigger] g2.info[p[r]].prev_time <= g1.info[r].prev_time
}

/// The image of a decision sequence under the runway relabeling.
pub open spec fn remap_codes(pb: &Alp, ds: Seq<int>, p: Seq<int>) -> Seq<int> {
    ds.map_values(|d: int| pb.class_of(d) * pb.nr() + p[pb.runway_of(d)])
}

/// Dominance is compatible with reward: when `g2` dominates `g1`, every
/// feasible completion of `g1` has a counterpart from `g2` — the same
/// decisions with relabeled runways — that is feasible and collects at least
/// the same reward.
pub proof fn law_dominance_preserves_completions(
    pb: &Alp,
    g1: GState,
    g2: GState,
    p: Seq<int>,
    ds: Seq<int>,
)
    requires
        pb.wf(),
        pb.st_wf(g1),
        pb.st_wf(g2),
        is_perm(p, pb.nr()),
        dominates_via(pb, g2, g1, p),
        run_ok(pb, g1, ds),
    ensures
        run_ok(pb, g2, remap_codes(pb, ds, p)),
        run_reward(pb, g2, remap_codes(pb, ds, p)) >= run_reward(pb, g1, ds),
    decreases ds.len(),
{
    if ds.len() > 0 {
        let d = ds[0];
        let c = pb.class_of(d);
        let r = pb.runway_of(d);
        vstd::arithmetic::div_mod::lemma_mod_bound(d, pb.nr());
        let d2 = c * pb.nr() + p[r];
        vstd::arithmetic::div_mod::lemma_fundamental_div_mod_converse(d2, pb.nr(), c, p[r]);
        let a = pb.next_aircraft(g1, c);
        lemma_cnt_class_le_len(pb.instance.classes@, c);
        let arr1 = pb.spec_arrival(g1.info, a, r);
        let arr2 = pb.spec_arrival(g2.info, a, p[r]);
        assert(arr2 <= arr1);
        assert(pb.admissible(g2, c, p[r]));
        assert(pb.valid_code(g2, d2));
        let h1 = pb.step(g1, d);
        let h2 = pb.step(g2, d2);
        lemma_step_preserves_wf(pb, g1, d);
        lemma_step_preserves_wf(pb, g2, d2);
        assert(0 <= arr2 <= MAX_TIME && 0 <= arr1 <= MAX_TIME);
        assert(dominates_via(pb, h2, h1, p)) by {
            assert(h2.rem =~= h1.rem);
            assert forall|r2: int|
                0 <= r2 < pb.nr() implies #[trigger] h2.info[p[r2]].prev_class
                == h1.info[r2].prev_class && h2.info[p[r2]].prev_time <= h1.info[r2].prev_time by {
                if r2 == r {
                } else {
                    assert(p[r2] != p[r]);
                    assert(h2.info[p[r2]] == g2.info[p[r2]]);
                    assert(h1.info[r2] == g1.info[r2]);
                }
            }
        }
        law_dominance_preserves_completions(pb, h1, h2, p, ds.drop_first());
        assert(remap_codes(pb, ds, p).drop_first() =~= remap_codes(pb, ds.drop_first(), p));
        assert(remap_codes(pb, ds, p)[0] == d2);
        assert(pb.step_cost(g2, d2) >= pb.step_cost(g1, d));
    }
}

/// `a` is at least as good an optional reward as `b`: anything beats "no
/// completion", and rewards compare as integers.
pub open spec fn opt_ge(a: Option<int>, b: Option<int>) -> bool {
    match b {
        None => true,
        Some(y) => a matches Some(x) && x >= y,
    }
}

/// The reward of taking decision `(c0, r0)` and then completing optimally.
pub open spec fn candidate(pb: &Alp, g: GState, fuel: nat, c0: int, r0: int) -> Option<int> {
    let code = pb.code_of(c0, r0);
    match crate::bound::spec_opt(pb, pb.step(g, code), (fuel - 1) as nat) {
        Some(x) => Some(pb.step_cost(g, code) + x),
        None => None,
    }
}

/// The best reward over the tail of the decision grid is at least the reward
/// of any single admissible candidate in that tail.
pub proof fn lemma_best_ge_candidate(
    pb: &Alp,
    g: GState,
    fuel: nat,
    c: int,
    r: int,
    c0: int,
    r0: int,
)
    requires
        pb.wf(),
        pb.st_wf(g),
        fuel >= 1,
        pb.admissible(g, c0, r0),
        0 <= c <= c0 < pb.k(),
        0 <= r <= pb.nr(),
        c0 > c || r0 >= r,
    ensures
        opt_ge(crate::bound::spec_best(pb, g, fuel, c, r), candidate(pb, g, fuel, c0, r0)),
    decreases pb.k() - c, pb.nr() - r,
{
    if r >= pb.nr() {
        lemma_best_ge_candidate(pb, g, fuel, c + 1, 0, c0, r0);
    } else if c == c0 && r == r0 {
    } else {
        lemma_best_ge_candidate(pb, g, fuel, c, r + 1, c0, r0);
    }
}

/// The exact optimum of the dynamic program bounds the reward of every
/// feasible completion: the heart of the admissibility of bounds derived
/// from exact optima.
pub proof fn law_opt_bounds_completions(pb: &Alp, g: GState, ds: Seq<int>, fuel: nat)
    requires
        pb.wf(),
        pb.st_wf(g),
        run_ok(pb, g, ds),
        sum_rem(run_end(pb, g, ds).rem) == 0,
        ds.len() <= fuel,
    ensures
        opt_ge(crate::bound::spec_opt(pb, g, fuel), Some(run_reward(pb, g, ds))),
    decreases ds.len(),
{
    if ds.len() == 0 {
        lemma_run_depth(pb, g, ds);
    } else {
        let d = ds[0];
        let c0 = pb.class_of(d);
        let r0 = pb.runway_of(d);
        vstd::arithmetic::div_mod::lemma_mod_bound(d, pb.nr());
        vstd::arithmetic::div_mod::lemma_fundamental_div_mod(d, pb.nr());
        assert(c0 * pb.nr() == pb.nr() * c0) by (nonlinear_arith);
        assert(pb.code_of(c0, r0) == d);
        lemma_step_preserves_wf(pb, g, d);
        lemma_run_depth(pb, g, ds);
        assert(sum_rem(g.rem) == ds.len());
        law_opt_bounds_completions(pb, pb.step(g, d), ds.drop_first(), (fuel - 1) as nat);
        lemma_best_ge_candidate(pb, g, fuel, 0, 0, c0, r0);
    }
}

/// `(c0, r0)` is an admissible decision whose candidate reward is `v`.
pub open spec fn achieves(pb: &Alp, g: GState, fuel: nat, v: Option<int>, c0: int, r0: int) -> bool {
    pb.admissible(g, c0, r0) && candidate(pb, g, fuel, c0, r0) == v
}

/// A defined best over a grid tail is achieved by some admissible candidate.
pub proof fn lemma_best_achieved(pb: &Alp, g: GState, fuel: nat, c: int, r: int)
    requires
        pb.wf(),
        pb.st_wf(g),
        fuel >= 1,
        0 <= c,
        0 <= r,
        crate::bound::spec_best(pb, g, fuel, c, r) is Some,
    ensures
        exists|c0: int, r0: int|
            achieves(pb, g, fuel, crate::bound::spec_best(pb, g, fuel, c, r), c0, r0),
    decreases pb.k() - c, pb.nr() - r,
{
    let v = crate::bound::spec_best(pb, g, fuel, c, r);
    if r >= pb.nr() {
        lemma_best_achieved(pb, g, fuel, c + 1, 0);
    } else {
        let rest = crate::bound::spec_best(pb, g, fuel, c, r + 1);
        if pb.admissible(g, c, r) {
            let cur = candidate(pb, g, fuel, c, r);
            if v == cur {
                assert(achieves(pb, g, fuel, v, c, r));
            } else {
                lemma_best_achieved(pb, g, fuel, c, r + 1);
            }
        } else {
            lemma_best_achieved(pb, g, fuel, c, r + 1);
        }
    }
}

/// `ds` realizes the exact optimum from `g` within `fuel` decisions.
pub open spec fn realizes(pb: &Alp, g: GState, fuel: nat, ds: Seq<int>) -> bool {
    &&& run_ok(pb, g, ds)
    &&& sum_rem(run_end(pb, g, ds).rem) == 0
    &&& ds.len() <= fuel
    &&& Some(run_reward(pb, g, ds)) == crate::bound::spec_opt(pb, g, fuel)
}

/// Any defined optimum is realized by a feasible completion.
pub proof fn lemma_opt_achieved(pb: &Alp, g: GState, fuel: nat)
    requires
        pb.wf(),
        pb.st_wf(g),
        crate::bound::spec_opt(pb, g, fuel) is Some,
    ensures
        exists|ds: Seq<int>| realizes(pb, g, fuel, ds),
    decreases fuel,
{
    if sum_rem(g.rem) == 0 {
        let ds = Seq::<int>::empty();
        assert(realizes(pb, g, fuel, ds));
    } else {
        lemma_best_achieved(pb, g, fuel, 0, 0);
        let (c0, r0) = choose|c0: int, r0: int|
            achieves(pb, g, fuel, crate::bound::spec_opt(pb, g, fuel), c0, r0);
        let code = pb.code_of(c0, r0);
        assert(0 <= c0 * pb.nr()) by (nonlinear_arith)
            requires
                c0 >= 0,
                pb.nr() >= 0,
        ;
        vstd::arithmetic::div_mod::lemma_fundamental_div_mod_converse(code, pb.nr(), c0, r0);
        assert(pb.valid_code(g, code));
        let g2 = pb.step(g, code);
        lemma_step_preserves_wf(pb, g, code);
        lemma_opt_achieved(pb, g2, (fuel - 1) as nat);
        let tail = choose|tail: Seq<int>| #[trigger] realizes(pb, g2, (fuel - 1) as nat, tail);
        let ds = seq![code] + tail;
        assert(ds.drop_first() =~= tail);
        assert(ds[0] == code);
        assert(realizes(pb, g, fuel, ds));
    }
}

/// Dominance is compatible with the exact optimum: a state that dominates
/// another has an optimal remaining reward at least as large.
pub proof fn law_dominance_bounds_optimum(
    pb: &Alp,
    g1: GState,
    g2: GState,
    p: Seq<int>,
    fuel: nat,
)
    requires
        pb.wf(),
        pb.st_wf(g1),
        pb.st_wf(g2),
        is_perm(p, pb.nr()),
        dominates_via(pb, g2, g1, p),
    ensures
        opt_ge(crate::bound::spec_opt(pb, g2, fuel), crate::bound::spec_opt(pb, g1, fuel)),
{
    if crate::bound::spec_opt(pb, g1, fuel) is Some {
        lemma_opt_achieved(pb, g1, fuel);
        let ds = choose|ds: Seq<int>| #[trigger] realizes(pb, g1, fuel, ds);
        law_dominance_preserves_completions(pb, g1, g2, p, ds);
        let ds2 = remap_codes(pb, ds, p);
        lemma_run_depth(pb, g1, ds);
        lemma_run_depth(pb, g2, ds2);
        law_opt_bounds_completions(pb, g2, ds2, fuel);
    }
}

/// The two problems agree on everything but the separation matrix, where the
/// second never charges more. The meta problem of an identity clustering
/// relates to the original problem exactly this way.
pub open spec fn lowers_separations(pb1: &Alp, pb2: &Alp) -> bool {
    &&& pb2.instance.nb_classes == pb1.instance.nb_classes
    &&& pb2.instance.nb_aircrafts == pb1.instance.nb_aircrafts
    &&& pb2.instance.nb_runways == pb1.instance.nb_runways
    &&& pb2.instance.classes@ == pb1.instance.classes@
    &&& pb2.instance.target@ == pb1.instance.target@
    &&& pb2.instance.latest@ == pb1.instance.latest@
    &&& pb2.next@ == pb1.next@
    &&& forall|a: int, b: int|
        0 <= a < pb1.k() && 0 <= b < pb1.k() ==> #[trigger] pb2.instance.separation@[a]@[b]
            <= pb1.instance.separation@[a]@[b]
}

/// Runway-aligned dominance across problems: same counts and classes, every
/// runway at least as early.
pub open spec fn earlier_state(g2: GState, g1: GState) -> bool {
    &&& g2.rem == g1.rem
    &&& g2.info.len() == g1.info.len()
    &&& forall|r: int|
        0 <= r < g1.info.len() ==> #[trigger] g2.info[r].prev_class == g1.info[r].prev_class
    &&& forall|r: int|
        0 <= r < g1.info.len() ==> #[trigger] g2.info[r].prev_time <= g1.info[r].prev_time
}

/// Lowering separations preserves completions: a decision sequence feasible
/// in the original problem stays feasible in the problem with lowered
/// separations, started from a runway-aligned earlier state, and collects at
/// least the same reward.
pub proof fn law_lower_separations_preserve_completions(
    pb1: &Alp,
    pb2: &Alp,
    g1: GState,
    g2: GState,
    ds: Seq<int>,
)
    requires
        pb1.wf(),
        pb2.wf(),
        lowers_separations(pb1, pb2),
        pb1.st_wf(g1),
        pb2.st_wf(g2),
        earlier_state(g2, g1),
        run_ok(pb1, g1, ds),
    ensures
        run_ok(pb2, g2, ds),
        run_reward(pb2, g2, ds) >= run_reward(pb1, g1, ds),
    decreases ds.len(),
{
    if ds.len() > 0 {
        let d = ds[0];
        let c = pb1.class_of(d);
        let r = pb1.runway_of(d);
        vstd::arithmetic::div_mod::lemma_mod_bound(d, pb1.nr());
        let a = pb1.next_aircraft(g1, c);
        lemma_cnt_class_le_len(pb1.instance.classes@, c);
        assert(pb2.next_aircraft(g2, c) == a);
        let arr1 = pb1.spec_arrival(g1.info, a, r);
        let arr2 = pb2.spec_arrival(g2.info, a, r);
        assert(arr2 <= arr1);
        assert(pb2.admissible(g2, c, r));
        assert(pb2.valid_code(g2, d));
        let h1 = pb1.step(g1, d);
        let h2 = pb2.step(g2, d);
        lemma_step_preserves_wf(pb1, g1, d);
        lemma_step_preserves_wf(pb2, g2, d);
        assert(0 <= arr2 <= MAX_TIME && 0 <= arr1 <= MAX_TIME);
        assert(earlier_state(h2, h1)) by {
            assert(h2.rem =~= h1.rem);
        }
        law_lower_separations_preserve_completions(pb1, pb2, h1, h2, ds.drop_first());
        assert(pb2.step_cost(g2, d) >= pb1.step_cost(g1, d));
    }
}

/// Admissibility of the compression bound on an unpooled clustering: against
/// a problem whose separations are all at most the original ones (such as
/// the meta problem of an identity clustering), the exact optimum of any
/// runway-aligned earlier state bounds the original optimum from above.
pub proof fn law_bound_admissible_unpooled(
    pb1: &Alp,
    pb2: &Alp,
    g: GState,
    e: GState,
    fuel: nat,
)
    requires
        pb1.wf(),
        pb2.wf(),
        lowers_separations(pb1, pb2),
        pb1.st_wf(g),
        pb2.st_wf(e),
        earlier_state(e, g),
    ensures
        opt_ge(crate::bound::spec_opt(pb2, e, fuel), crate::bound::spec_opt(pb1, g, fuel)),
{
    if crate::bound::spec_opt(pb1, g, fuel) is Some {
        lemma_opt_achieved(pb1, g, fuel);
        let ds = choose|ds: Seq<int>| #[trigger] realizes(pb1, g, fuel, ds);
        law_lower_separations_preserve_completions(pb1, pb2, g, e, ds);
        lemma_run_depth(pb1, g, ds);
        lemma_run_depth(pb2, e, ds);
        law_opt_bounds_completions(pb2, e, ds, fuel);
    }
}

/// Meta-separation admissibility: the separation the meta problem charges
/// between the meta classes of any two original classes never exceeds the
/// separation the original problem charges between those classes.
pub proof fn law_meta_separation_lower(comp: &AlpCompression, c1: int, c2: int)
    requires
        comp.wf(),
        0 <= c1 < comp.problem.k(),
        0 <= c2 < comp.problem.k(),
    ensures
        comp.meta_problem.instance.separation@[comp.class_membership@[c1] as int]@[comp.class_membership@[c2] as int]
            <= comp.problem.instance.separation@[c1]@[c2],
{
    let a = comp.class_membership@[c1] as int;
    let b = comp.class_membership@[c2] as int;
    if a == b {
        assert(comp.meta_problem.instance.separation@[a]@[b] == 0);
        assert(comp.problem.instance.separation@[c1]@[c2] >= 0);
    }
}

} // verus!

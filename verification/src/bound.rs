//! The compression-based bound: the meta problem is small enough to solve
//! exactly, so its reachable states are enumerated into a dictionary mapping
//! each one to its optimal remaining reward. An original state is projected
//! onto the meta problem and looked up under its key; any reachable meta
//! state that is at least as flexible on every runway yields a bound.

use vstd::prelude::*;
use crate::instance::{MAX_TIME, MAX_AIRCRAFT};
use crate::model::{Alp, AlpState, GState, RunwayState, sum_rem, sum_prev_times};
use crate::model::lemma_sum_prev_times_monotone;
use crate::compression::{AlpCompression, grouped_rem, projected};
use crate::laws::{achieves, candidate, lemma_best_achieved};
use crate::ranking::{info_bounded, runway_time_sum};

verus! {

/// `Some(x)` of an executable optional reward, as mathematics.
pub open spec fn opt_view(v: Option<i64>) -> Option<int> {
    match v {
        Some(x) => Some(x as int),
        None => None,
    }
}

/// The larger of two optional rewards; `None` stands for "no feasible
/// completion" and loses to any reward.
pub open spec fn spec_opt_max(a: Option<int>, b: Option<int>) -> Option<int> {
    match (a, b) {
        (Some(x), Some(y)) => if x >= y {
            Some(x)
        } else {
            Some(y)
        },
        (Some(x), None) => Some(x),
        (None, Some(y)) => Some(y),
        (None, None) => None,
    }
}

/// The optimal remaining reward of the dynamic program from state `g` with
/// `fuel` decisions left: `Some(0)` at a terminal state, `None` when no
/// admissible completion exists, otherwise the best reward over all
/// admissible decisions followed by an optimal continuation.
pub open spec fn spec_opt(pb: &Alp, g: GState, fuel: nat) -> Option<int>
    decreases fuel, pb.k() + 1, 0int,
{
    if sum_rem(g.rem) == 0 {
        Some(0)
    } else if fuel == 0 {
        None
    } else {
        spec_best(pb, g, fuel, 0, 0)
    }
}

/// The best reward over the admissible decisions `(c', r')` with
/// `(c', r') >= (c, r)` in lexicographic order, each followed by an optimal
/// continuation.
pub open spec fn spec_best(pb: &Alp, g: GState, fuel: nat, c: int, r: int) -> Option<int>
    decreases fuel, pb.k() - c, pb.nr() - r,
{
    if fuel == 0 || c < 0 || r < 0 || c >= pb.k() {
        None
    } else if r >= pb.nr() {
        spec_best(pb, g, fuel, c + 1, 0)
    } else {
        let rest = spec_best(pb, g, fuel, c, r + 1);
        if pb.admissible(g, c, r) {
            let code = pb.code_of(c, r);
            let cur = match spec_opt(pb, pb.step(g, code), (fuel - 1) as nat) {
                Some(x) => Some(pb.step_cost(g, code) + x),
                None => None,
            };
            spec_opt_max(cur, rest)
        } else {
            rest
        }
    }
}

/// The larger of two optional rewards, executably.
pub fn opt_max(a: Option<i64>, b: Option<i64>) -> (r: Option<i64>)
    ensures
        opt_view(r) == spec_opt_max(opt_view(a), opt_view(b)),
{
    match (a, b) {
        (Some(x), Some(y)) => if x >= y {
            Some(x)
        } else {
            Some(y)
        },
        (Some(x), None) => Some(x),
        (None, Some(y)) => Some(y),
        (None, None) => None,
    }
}

/// Computes the optimal remaining reward `spec_opt` of a (small) problem by
/// direct recursion over the decision tree.
pub fn opt_from(pb: &Alp, state: &AlpState, fuel: usize) -> (v: Option<i64>)
    requires
        pb.wf(),
        pb.st_wf(state@),
        fuel <= MAX_AIRCRAFT,
    ensures
        opt_view(v) == spec_opt(pb, state@, fuel as nat),
        v matches Some(x) ==> -2 * MAX_TIME * (fuel as int) <= x <= 0,
    decreases fuel, pb.k() + 1, 0int,
{
    proof {
        assert(-2 * MAX_TIME * (fuel as int) <= 0) by (nonlinear_arith)
            requires
                fuel >= 0,
        ;
    }
    if pb.is_terminal(state) {
        Some(0)
    } else if fuel == 0 {
        None
    } else {
        best_from(pb, state, fuel, 0, 0)
    }
}

/// The executable mirror of `spec_best`.
pub fn best_from(pb: &Alp, state: &AlpState, fuel: usize, c: usize, r: usize) -> (v: Option<i64>)
    requires
        pb.wf(),
        pb.st_wf(state@),
        1 <= fuel <= MAX_AIRCRAFT,
        c <= pb.k(),
        r <= pb.nr(),
    ensures
        opt_view(v) == spec_best(pb, state@, fuel as nat, c as int, r as int),
        v matches Some(x) ==> -2 * MAX_TIME * (fuel as int) <= x <= 0,
    decreases fuel, pb.k() - c, pb.nr() - r,
{
    let k = pb.instance.nb_classes;
    let nr = pb.instance.nb_runways;
    if c >= k {
        return None;
    }
    if r >= nr {
        return best_from(pb, state, fuel, c + 1, 0);
    }
    let rest = best_from(pb, state, fuel, c, r + 1);
    let mut cur: Option<i64> = None;
    let remc = state.rem[c];
    if remc > 0 {
        let a = pb.next[c][remc - 1];
        let t = pb.get_arrival_time(&state.info, a, r);
        if t <= pb.instance.latest[a] {
            proof {
                assert(c * pb.nr() + r < 1_000_000) by (nonlinear_arith)
                    requires
                        0 <= c < 1000,
                        0 <= pb.nr() <= 1000,
                        0 <= r < pb.nr(),
                ;
                vstd::arithmetic::div_mod::lemma_fundamental_div_mod_converse(
                    c * pb.nr() + r,
                    pb.nr(),
                    c as int,
                    r as int,
                );
                assert(pb.admissible(state@, c as int, r as int));
            }
            let code = (c * nr + r) as i64;
            let cost = pb.transition_cost(state, code);
            let s2 = pb.transition(state, code);
            let sub = opt_from(pb, &s2, fuel - 1);
            match sub {
                Some(x) => {
                    proof {
                        assert(-2 * MAX_TIME * ((fuel - 1) as int) - 2 * MAX_TIME == -2 * MAX_TIME
                            * (fuel as int)) by (nonlinear_arith);
                        assert(-2 * (MAX_TIME as int) * (fuel as int) >= -2 * (MAX_TIME as int)
                            * 10_000) by (nonlinear_arith)
                            requires
                                0 <= fuel <= 10_000,
                        ;
                    }
                    cur = Some(cost + x);
                },
                None => {},
            }
        } else {
            proof {
                assert(!pb.admissible(state@, c as int, r as int));
            }
        }
    }
    opt_max(cur, rest)
}

/// A memo of exact optima: each pair holds a state together with its optimal
/// remaining reward within exactly its remaining-aircraft budget.
pub open spec fn memo_wf(pb: &Alp, memo: Seq<(AlpState, Option<i64>)>) -> bool {
    forall|i: int|
        0 <= i < memo.len() ==> {
            &&& pb.st_wf((#[trigger] memo[i]).0@)
            &&& opt_view(memo[i].1) == spec_opt(pb, memo[i].0@, sum_rem(memo[i].0@.rem) as nat)
            &&& (memo[i].1 matches Some(x) ==> -2 * MAX_TIME * sum_rem(memo[i].0@.rem) <= x <= 0)
        }
}

/// Returns the exact optimum of `state`: from the memo when it holds the
/// state, by direct recursion otherwise.
fn lookup_or_solve(
    pb: &Alp,
    state: &AlpState,
    fuel: usize,
    memo: &Vec<(AlpState, Option<i64>)>,
) -> (v: Option<i64>)
    requires
        pb.wf(),
        pb.st_wf(state@),
        fuel <= MAX_AIRCRAFT,
        sum_rem(state@.rem) == fuel,
        memo_wf(pb, memo@),
    ensures
        opt_view(v) == spec_opt(pb, state@, fuel as nat),
        v matches Some(x) ==> -2 * MAX_TIME * (fuel as int) <= x <= 0,
{
    let mut i: usize = 0;
    let n = memo.len();
    while i < n
        invariant
            i <= n,
            n == memo@.len(),
            pb.wf(),
            pb.st_wf(state@),
            sum_rem(state@.rem) == fuel,
            memo_wf(pb, memo@),
        decreases n - i,
    {
        if eq_state(&memo[i].0, state) {
            proof {
                assert(memo@[i as int].0@ =~= state@);
            }
            return memo[i].1;
        }
        i = i + 1;
    }
    opt_from(pb, state, fuel)
}

/// The memoized mirror of `opt_from`: identical contract, but successors are
/// looked up in the memo first, so that a layer's optima can be computed
/// from the next layer's in one sweep.
fn opt_memo(pb: &Alp, state: &AlpState, fuel: usize, memo: &Vec<(AlpState, Option<i64>)>) -> (v:
    Option<i64>)
    requires
        pb.wf(),
        pb.st_wf(state@),
        fuel <= MAX_AIRCRAFT,
        sum_rem(state@.rem) == fuel,
        memo_wf(pb, memo@),
    ensures
        opt_view(v) == spec_opt(pb, state@, fuel as nat),
        v matches Some(x) ==> -2 * MAX_TIME * (fuel as int) <= x <= 0,
{
    proof {
        assert(-2 * MAX_TIME * (fuel as int) <= 0) by (nonlinear_arith)
            requires
                fuel >= 0,
        ;
    }
    if pb.is_terminal(state) {
        Some(0)
    } else if fuel == 0 {
        None
    } else {
        best_memo(pb, state, fuel, 0, 0, memo)
    }
}

/// The memoized mirror of `best_from`.
fn best_memo(
    pb: &Alp,
    state: &AlpState,
    fuel: usize,
    c: usize,
    r: usize,
    memo: &Vec<(AlpState, Option<i64>)>,
) -> (v: Option<i64>)
    requires
        pb.wf(),
        pb.st_wf(state@),
        1 <= fuel <= MAX_AIRCRAFT,
        sum_rem(state@.rem) == fuel,
        c <= pb.k(),
        r <= pb.nr(),
        memo_wf(pb, memo@),
    ensures
        opt_view(v) == spec_best(pb, state@, fuel as nat, c as int, r as int),
        v matches Some(x) ==> -2 * MAX_TIME * (fuel as int) <= x <= 0,
    decreases pb.k() - c, pb.nr() - r,
{
    let k = pb.instance.nb_classes;
    let nr = pb.instance.nb_runways;
    if c >= k {
        return None;
    }
    if r >= nr {
        return best_memo(pb, state, fuel, c + 1, 0, memo);
    }
    let rest = best_memo(pb, state, fuel, c, r + 1, memo);
    let mut cur: Option<i64> = None;
    let remc = state.rem[c];
    if remc > 0 {
        let a = pb.next[c][remc - 1];
        let t = pb.get_arrival_time(&state.info, a, r);
        if t <= pb.instance.latest[a] {
            proof {
                assert(c * pb.nr() + r < 1_000_000) by (nonlinear_arith)
                    requires
                        0 <= c < 1000,
                        0 <= pb.nr() <= 1000,
                        0 <= r < pb.nr(),
                ;
                vstd::arithmetic::div_mod::lemma_fundamental_div_mod_converse(
                    c * pb.nr() + r,
                    pb.nr(),
                    c as int,
                    r as int,
                );
                assert(pb.admissible(state@, c as int, r as int));
            }
            let code = (c * nr + r) as i64;
            let cost = pb.transition_cost(state, code);
            let s2 = pb.transition(state, code);
            let sub = lookup_or_solve(pb, &s2, fuel - 1, memo);
            match sub {
                Some(x) => {
                    proof {
                        assert(-2 * MAX_TIME * ((fuel - 1) as int) - 2 * MAX_TIME == -2 * MAX_TIME
                            * (fuel as int)) by (nonlinear_arith);
                        assert(-2 * (MAX_TIME as int) * (fuel as int) >= -2 * (MAX_TIME as int)
                            * 10_000) by (nonlinear_arith)
                            requires
                                0 <= fuel <= 10_000,
                        ;
                    }
                    cur = Some(cost + x);
                },
                None => {},
            }
        } else {
            proof {
                assert(!pb.admissible(state@, c as int, r as int));
            }
        }
    }
    opt_max(cur, rest)
}

/// A first decision of an optimal continuation: applying it loses nothing of
/// the optimal remaining reward. Such a decision exists — and is returned —
/// whenever the state is not terminal and an optimal completion exists.
#[verifier::loop_isolation(false)]
pub fn best_decision(pb: &Alp, state: &AlpState, fuel: usize) -> (bd: Option<i64>)
    requires
        pb.wf(),
        pb.st_wf(state@),
        1 <= fuel <= MAX_AIRCRAFT,
    ensures
        bd matches Some(code) ==> {
            &&& pb.valid_code(state@, code as int)
            &&& spec_opt(pb, state@, fuel as nat) == Some(
                pb.step_cost(state@, code as int) + spec_opt(
                    pb,
                    pb.step(state@, code as int),
                    (fuel - 1) as nat,
                )->Some_0,
            )
            &&& spec_opt(pb, pb.step(state@, code as int), (fuel - 1) as nat) is Some
        },
        (spec_opt(pb, state@, fuel as nat) is Some && sum_rem(state@.rem) > 0) ==> bd is Some,
{
    let total = opt_from(pb, state, fuel);
    let total_x = match total {
        Some(x) => x,
        None => {
            return None;
        },
    };
    let ghost v = Some(total_x as int);
    let k = pb.instance.nb_classes;
    let nr = pb.instance.nb_runways;
    let mut c: usize = 0;
    while c < k
        invariant
            c <= k,
            opt_view(Some(total_x)) == spec_opt(pb, state@, fuel as nat),
            forall|c2: int, r2: int|
                #![trigger achieves(pb, state@, fuel as nat, v, c2, r2)]
                0 <= c2 < c && 0 <= r2 < pb.nr() ==> !achieves(
                    pb,
                    state@,
                    fuel as nat,
                    v,
                    c2,
                    r2,
                ),
        decreases k - c,
    {
        let remc = state.rem[c];
        if remc > 0 {
            let a = pb.next[c][remc - 1];
            let latest = pb.instance.latest[a];
            let mut r: usize = 0;
            while r < nr
                invariant
                    c < k,
                    r <= nr,
                    remc == state@.rem[c as int],
                    remc > 0,
                    a == pb.next_aircraft(state@, c as int),
                    a < pb.n(),
                    latest == pb.instance.latest@[a as int],
                    opt_view(Some(total_x)) == spec_opt(pb, state@, fuel as nat),
                    forall|c2: int, r2: int|
                        #![trigger achieves(pb, state@, fuel as nat, v, c2, r2)]
                        0 <= c2 && 0 <= r2 < pb.nr() && (c2 < c || (c2 == c && r2 < r))
                            ==> !achieves(pb, state@, fuel as nat, v, c2, r2),
                decreases nr - r,
            {
                let t = pb.get_arrival_time(&state.info, a, r);
                if t <= latest {
                    proof {
                        assert(c * pb.nr() + r < 1_000_000) by (nonlinear_arith)
                            requires
                                0 <= c < 1000,
                                0 <= pb.nr() <= 1000,
                                0 <= r < pb.nr(),
                        ;
                        vstd::arithmetic::div_mod::lemma_fundamental_div_mod_converse(
                            c * pb.nr() + r,
                            pb.nr(),
                            c as int,
                            r as int,
                        );
                        assert(pb.admissible(state@, c as int, r as int));
                    }
                    let code = (c * nr + r) as i64;
                    let cost = pb.transition_cost(state, code);
                    let s2 = pb.transition(state, code);
                    let sub = opt_from(pb, &s2, fuel - 1);
                    match sub {
                        Some(x) => {
                            proof {
                                assert(-2 * MAX_TIME * ((fuel - 1) as int) - 2 * MAX_TIME == -2
                                    * MAX_TIME * (fuel as int)) by (nonlinear_arith);
                                assert(-2 * (MAX_TIME as int) * (fuel as int) >= -2 * (
                                MAX_TIME as int) * 10_000) by (nonlinear_arith)
                                    requires
                                        0 <= fuel <= 10_000,
                                ;
                            }
                            if cost + x == total_x {
                                return Some(code);
                            }
                            proof {
                                assert(candidate(pb, state@, fuel as nat, c as int, r as int)
                                    == Some(cost + x as int));
                                assert(!achieves(pb, state@, fuel as nat, v, c as int, r as int));
                            }
                        },
                        None => {
                            proof {
                                assert(candidate(pb, state@, fuel as nat, c as int, r as int)
                                    is None);
                                assert(!achieves(pb, state@, fuel as nat, v, c as int, r as int));
                            }
                        },
                    }
                } else {
                    proof {
                        assert(!pb.admissible(state@, c as int, r as int));
                        assert(!achieves(pb, state@, fuel as nat, v, c as int, r as int));
                    }
                }
                r = r + 1;
            }
        } else {
            proof {
                assert forall|r2: int| 0 <= r2 < pb.nr() implies !achieves(
                    pb,
                    state@,
                    fuel as nat,
                    v,
                    c as int,
                    r2,
                ) by {
                    assert(!pb.admissible(state@, c as int, r2));
                }
            }
        }
        c = c + 1;
    }
    proof {
        if spec_opt(pb, state@, fuel as nat) is Some && sum_rem(state@.rem) > 0 {
            assert(spec_best(pb, state@, fuel as nat, 0, 0) == Some(total_x as int));
            lemma_best_achieved(pb, state@, fuel as nat, 0, 0);
            let (c0, r0) = choose|c0: int, r0: int|
                achieves(pb, state@, fuel as nat, Some(total_x as int), c0, r0);
            assert(!achieves(pb, state@, fuel as nat, v, c0, r0));
            assert(false);
        }
    }
    None
}

/// The dictionary key of a meta state: its remaining counts per meta class
/// and the last class on each runway.
#[derive(PartialEq, Eq, Hash, Clone, Debug)]
pub struct AlpKey {
    /// The number of remaining aircraft to schedule for each class.
    pub rem: Vec<usize>,
    /// The class of the aircraft scheduled last on each runway.
    pub prev_class: Vec<i64>,
}

/// The ranking record of a meta state under its key, held negated so that
/// larger is more flexible.
#[derive(PartialEq, Eq, PartialOrd, Ord, Clone, Debug)]
pub struct AlpValue {
    /// The sum of all last landing times, negated.
    pub tot: i64,
    /// The last landing time of each runway, negated.
    pub prev_times: Vec<i64>,
}

/// Key and value extraction for the reachable-meta-state dictionary.
pub struct AlpDominance;

impl AlpDominance {
    /// The dictionary key of a state.
    pub fn get_key(&self, state: &AlpState) -> (key: AlpKey)
        ensures
            key.rem@ == state@.rem,
            key.prev_class@.len() == state@.info.len(),
            forall|r: int|
                0 <= r < state@.info.len() ==> #[trigger] key.prev_class@[r]
                    == state@.info[r].prev_class,
    {
        let mut rem: Vec<usize> = Vec::new();
        let mut i: usize = 0;
        let k = state.rem.len();
        while i < k
            invariant
                i <= k,
                k == state@.rem.len(),
                rem@.len() == i,
                forall|t: int| 0 <= t < i ==> #[trigger] rem@[t] == state@.rem[t],
            decreases k - i,
        {
            rem.push(state.rem[i]);
            i = i + 1;
        }
        let mut prev_class: Vec<i64> = Vec::new();
        let mut r: usize = 0;
        let nr = state.info.len();
        while r < nr
            invariant
                r <= nr,
                nr == state@.info.len(),
                prev_class@.len() == r,
                forall|t: int|
                    0 <= t < r ==> #[trigger] prev_class@[t] == state@.info[t].prev_class,
            decreases nr - r,
        {
            prev_class.push(state.info[r].prev_class);
            r = r + 1;
        }
        proof {
            assert(rem@ =~= state@.rem);
        }
        AlpKey { rem, prev_class }
    }

    /// The ranking record of a state: its runway times, negated.
    #[verifier::loop_isolation(false)]
    pub fn get_value(&self, state: &AlpState) -> (val: AlpValue)
        requires
            info_bounded(state@.info),
        ensures
            val.tot == -sum_prev_times(state@.info),
            val.prev_times@.len() == state@.info.len(),
            forall|r: int|
                0 <= r < state@.info.len() ==> #[trigger] val.prev_times@[r]
                    == -state@.info[r].prev_time,
    {
        let ts = runway_time_sum(&state.info);
        proof {
            crate::model::lemma_sum_prev_times_bounds(state@.info);
            assert(state@.info.len() * MAX_TIME <= 1000 * (MAX_TIME as int)) by (nonlinear_arith)
                requires
                    0 <= state@.info.len() <= 1000,
            ;
        }
        let tot = -ts;
        let mut prev_times: Vec<i64> = Vec::new();
        let mut r: usize = 0;
        let nr = state.info.len();
        while r < nr
            invariant
                r <= nr,
                prev_times@.len() == r,
                forall|t: int|
                    0 <= t < r ==> #[trigger] prev_times@[t] == -state@.info[t].prev_time,
            decreases nr - r,
        {
            prev_times.push(-state.info[r].prev_time);
            r = r + 1;
        }
        proof {
            crate::model::lemma_sum_prev_times_bounds(state@.info);
        }
        AlpValue { tot, prev_times }
    }

    /// Whether `a` is dominated by `b`: on the negated records, `b` is at
    /// least as large on the total and on every runway, which means the state
    /// behind `b` is everywhere at least as early.
    pub fn is_dominated_by(&self, a: &AlpValue, b: &AlpValue) -> (r: bool)
        requires
            a.prev_times@.len() == b.prev_times@.len(),
        ensures
            r == (a.tot <= b.tot && forall|i: int|
                0 <= i < a.prev_times@.len() ==> #[trigger] a.prev_times@[i] <= b.prev_times@[i]),
    {
        if a.tot > b.tot {
            return false;
        }
        let n = a.prev_times.len();
        let mut i: usize = 0;
        while i < n
            invariant
                i <= n,
                n == a.prev_times@.len(),
                n == b.prev_times@.len(),
                a.tot <= b.tot,
                forall|t: int| 0 <= t < i ==> #[trigger] a.prev_times@[t] <= b.prev_times@[t],
            decreases n - i,
        {
            if a.prev_times[i] > b.prev_times[i] {
                return false;
            }
            i = i + 1;
        }
        true
    }
}

/// Compares two count vectors for equality.
pub fn eq_usize_vec(a: &Vec<usize>, b: &Vec<usize>) -> (r: bool)
    ensures
        r <==> a@ =~= b@,
{
    if a.len() != b.len() {
        return false;
    }
    let n = a.len();
    let mut i: usize = 0;
    while i < n
        invariant
            i <= n,
            n == a@.len(),
            n == b@.len(),
            forall|t: int| 0 <= t < i ==> #[trigger] a@[t] == b@[t],
        decreases n - i,
    {
        if a[i] != b[i] {
            return false;
        }
        i = i + 1;
    }
    true
}

/// Compares two class vectors for equality.
pub fn eq_i64_vec(a: &Vec<i64>, b: &Vec<i64>) -> (r: bool)
    ensures
        r <==> a@ =~= b@,
{
    if a.len() != b.len() {
        return false;
    }
    let n = a.len();
    let mut i: usize = 0;
    while i < n
        invariant
            i <= n,
            n == a@.len(),
            n == b@.len(),
            forall|t: int| 0 <= t < i ==> #[trigger] a@[t] == b@[t],
        decreases n - i,
    {
        if a[i] != b[i] {
            return false;
        }
        i = i + 1;
    }
    true
}

/// Compares two dictionary keys for equality.
pub fn eq_key(a: &AlpKey, b: &AlpKey) -> (r: bool)
    ensures
        r <==> (a.rem@ =~= b.rem@ && a.prev_class@ =~= b.prev_class@),
{
    eq_usize_vec(&a.rem, &b.rem) && eq_i64_vec(&a.prev_class, &b.prev_class)
}

/// Compares two states for equality.
pub fn eq_state(a: &AlpState, b: &AlpState) -> (r: bool)
    ensures
        r <==> (a@.rem =~= b@.rem && a@.info =~= b@.info),
{
    if !eq_usize_vec(&a.rem, &b.rem) {
        return false;
    }
    if a.info.len() != b.info.len() {
        return false;
    }
    let n = a.info.len();
    let mut i: usize = 0;
    while i < n
        invariant
            i <= n,
            n == a@.info.len(),
            n == b@.info.len(),
            a@.rem =~= b@.rem,
            forall|t: int| 0 <= t < i ==> #[trigger] a@.info[t] == b@.info[t],
        decreases n - i,
    {
        let x = a.info[i];
        let y = b.info[i];
        if !(x.prev_time == y.prev_time && x.prev_class == y.prev_class) {
            return false;
        }
        i = i + 1;
    }
    true
}

/// One reachable meta state in the dictionary: the state itself, its ranking
/// record, and its optimal remaining reward in the meta problem (`None` when
/// no completion of the meta problem exists from it).
pub struct DictEntry {
    pub state: AlpState,
    pub rank: AlpValue,
    pub value: Option<i64>,
}

/// Duplicates a state value.
fn copy_state(state: &AlpState) -> (c: AlpState)
    ensures
        c@.rem == state@.rem,
        c@.info == state@.info,
{
    let mut st: Vec<usize> = Vec::new();
    let mut info2: Vec<RunwayState> = Vec::new();
    let mut t: usize = 0;
    let kk = state.rem.len();
    while t < kk
        invariant
            t <= kk,
            kk == state@.rem.len(),
            st@.len() == t,
            forall|u: int| 0 <= u < t ==> #[trigger] st@[u] == state@.rem[u],
        decreases kk - t,
    {
        st.push(state.rem[t]);
        t = t + 1;
    }
    let mut t: usize = 0;
    let rr = state.info.len();
    while t < rr
        invariant
            t <= rr,
            rr == state@.info.len(),
            info2@.len() == t,
            forall|u: int| 0 <= u < t ==> #[trigger] info2@[u] == state@.info[u],
        decreases rr - t,
    {
        info2.push(state.info[t]);
        t = t + 1;
    }
    let c = AlpState { rem: st, info: info2 };
    proof {
        assert(c@.rem =~= state@.rem);
        assert(c@.info =~= state@.info);
    }
    c
}

/// Appends the dictionary entry of one meta state: its key, its negated
/// ranking record, and its exact optimal remaining meta reward, handed in by
/// the caller.
#[verifier::loop_isolation(false)]
fn push_entry_value(
    meta: &Alp,
    keys: &mut Vec<AlpKey>,
    entries: &mut Vec<DictEntry>,
    state: &AlpState,
    value: Option<i64>,
)
    requires
        meta.wf(),
        meta.st_wf(state@),
        opt_view(value) == spec_opt(meta, state@, sum_rem(state@.rem) as nat),
        old(keys)@.len() == old(entries)@.len(),
        forall|i: int|
            0 <= i < old(entries)@.len() ==> dict_entry_wf(
                meta,
                #[trigger] old(keys)@[i],
                old(entries)@[i],
            ),
    ensures
        final(keys)@.len() == final(entries)@.len(),
        final(entries)@.len() == old(entries)@.len() + 1,
        forall|i: int|
            0 <= i < final(entries)@.len() ==> dict_entry_wf(
                meta,
                #[trigger] final(keys)@[i],
                final(entries)@[i],
            ),
        forall|i: int|
            0 <= i < old(entries)@.len() ==> #[trigger] final(entries)@[i] == old(entries)@[i],
        final(entries)@[old(entries)@.len() as int].state@ == state@,
        final(entries)@[old(entries)@.len() as int].value == value,
{
    let dominance = AlpDominance;
    let key = dominance.get_key(state);
    let rank = dominance.get_value(state);
    let copy = copy_state(state);
    let ghost old_keys = keys@;
    let ghost old_entries = entries@;
    keys.push(key);
    entries.push(DictEntry { state: copy, rank, value });
    proof {
        assert forall|i: int| 0 <= i < entries@.len() implies dict_entry_wf(
            meta,
            #[trigger] keys@[i],
            entries@[i],
        ) by {
            if i < old_entries.len() {
                assert(entries@[i] == old_entries[i]);
                assert(keys@[i] == old_keys[i]);
            } else {
                assert(entries@[i].state@.rem =~= state@.rem);
                assert(entries@[i].state@.info =~= state@.info);
            }
        }
        assert(entries@[old_entries.len() as int].state@ =~= state@);
    }
}

/// The compression bound: a dictionary of reachable meta states, each with
/// its exact optimal remaining reward, keyed by remaining counts and runway
/// classes.
///
/// Every value the bound returns is pinned to the exact optimum of a meta
/// state that carries the projected key and is at least as early on every
/// runway (`sound_bound`). That such a value bounds the original optimum is
/// proved for clusterings that pool no classes, where the meta problem only
/// lowers separations (`law_bound_admissible_unpooled` together with
/// `law_dominance_bounds_optimum`). When classes are pooled, a meta decision
/// may schedule a different aircraft than the original decision it stands
/// for; the admissibility of that case rests on the projection argument
/// behind the compression scheme and is not established here.
pub struct AlpCompressionBound {
    pub compression: AlpCompression,
    pub keys: Vec<AlpKey>,
    pub entries: Vec<DictEntry>,
}

/// What holds of every dictionary slot: the key carries the entry's state,
/// the ranking record negates its runway times, and the value is the exact
/// optimal remaining meta reward of the state.
pub open spec fn dict_entry_wf(meta: &Alp, key: AlpKey, e: DictEntry) -> bool {
    &&& meta.st_wf(e.state@)
    &&& key.rem@ == e.state@.rem
    &&& key.prev_class@.len() == e.state@.info.len()
    &&& forall|r: int|
        0 <= r < e.state@.info.len() ==> #[trigger] key.prev_class@[r]
            == e.state@.info[r].prev_class
    &&& e.rank.tot == -sum_prev_times(e.state@.info)
    &&& e.rank.prev_times@.len() == e.state@.info.len()
    &&& forall|r: int|
        0 <= r < e.state@.info.len() ==> #[trigger] e.rank.prev_times@[r]
            == -e.state@.info[r].prev_time
    &&& opt_view(e.value) == spec_opt(meta, e.state@, sum_rem(e.state@.rem) as nat)
}

impl AlpCompressionBound {
    pub open spec fn wf(&self) -> bool {
        &&& self.compression.wf()
        &&& self.keys@.len() == self.entries@.len()
        &&& forall|i: int|
            0 <= i < self.entries@.len() ==> dict_entry_wf(
                &self.compression.meta_problem,
                #[trigger] self.keys@[i],
                self.entries@[i],
            )
    }

    /// One meta state that witnesses the bound `x` for the original state
    /// `g`: it carries the projected key of `g`, each of its runways is at
    /// least as early as the corresponding runway of `g`, and its exact
    /// optimal remaining meta reward is `x`.
    pub open spec fn sound_witness(&self, g: GState, e: GState, x: int) -> bool {
        let meta = &self.compression.meta_problem;
        let membership = self.compression.class_membership@;
        &&& meta.st_wf(e)
        &&& e.rem.len() == meta.k()
        &&& forall|m: int| 0 <= m < meta.k() ==> #[trigger] e.rem[m] == grouped_rem(g.rem, membership, m)
        &&& e.info.len() == g.info.len()
        &&& forall|r: int|
            0 <= r < g.info.len() ==> #[trigger] e.info[r].prev_class == (
            if g.info[r].prev_class == -1 {
                -1int
            } else {
                membership[g.info[r].prev_class as int] as int
            })
        &&& forall|r: int|
            0 <= r < g.info.len() ==> #[trigger] e.info[r].prev_time <= g.info[r].prev_time
        &&& spec_opt(meta, e, sum_rem(e.rem) as nat) == Some(x)
    }

    /// Some reachable meta state witnesses the bound `x` for `g`.
    pub open spec fn sound_bound(&self, g: GState, x: int) -> bool {
        exists|e: GState| self.sound_witness(g, e, x)
    }

    /// Builds the dictionary in two sweeps: a layered forward enumeration of
    /// the meta problem's reachable states, then a backward sweep that
    /// computes each state's exact optimum from the following layer's
    /// already-computed optima. The enumeration stops storing states once
    /// `max_entries` are collected: a truncated dictionary only matches fewer
    /// look-ups, which weakens the bound but never its soundness. The initial
    /// meta state and its exact optimum always make up the first entry.
    #[verifier::loop_isolation(false)]
    pub fn new(compression: AlpCompression, max_entries: usize) -> (b: AlpCompressionBound)
        requires
            compression.wf(),
            max_entries >= 1,
        ensures
            b.wf(),
            b.compression == compression,
            b.entries@.len() >= 1,
            b.entries@[0].state@ == compression.meta_problem.initial_g(),
            opt_view(b.entries@[0].value) == spec_opt(
                &compression.meta_problem,
                compression.meta_problem.initial_g(),
                sum_rem(compression.meta_problem.initial_g().rem) as nat,
            ),
    {
        let meta = &compression.meta_problem;
        let n = meta.instance.nb_aircrafts;
        let init = meta.initial_state();

        let mut layers: Vec<Vec<AlpState>> = Vec::new();
        let mut first_layer: Vec<AlpState> = Vec::new();
        first_layer.push(init);
        layers.push(first_layer);
        let mut total: usize = 1;

        let mut depth: usize = 0;
        while depth < n
            invariant
                depth <= n,
                layers@.len() == depth + 1,
                layers@[0]@.len() == 1,
                layers@[0]@[0]@ == meta.initial_g(),
                forall|l: int, i: int|
                    #![trigger layers@[l]@[i]]
                    0 <= l < layers@.len() && 0 <= i < layers@[l]@.len() ==> meta.st_wf(
                        layers@[l]@[i]@,
                    ),
            decreases n - depth,
        {
            let mut next_states: Vec<AlpState> = Vec::new();
            let current = &layers[depth];
            let mut s: usize = 0;
            let cn = current.len();
            while s < cn
                invariant
                    cn == current@.len(),
                    s <= cn,
                    current == &layers@[depth as int],
                    forall|i: int|
                        0 <= i < next_states@.len() ==> meta.st_wf(#[trigger] next_states@[i]@),
                decreases cn - s,
            {
                let state = &current[s];
                let ds = meta.domain(state);
                let mut d: usize = 0;
                let dn = ds.len();
                while d < dn
                    invariant
                        dn == ds@.len(),
                        d <= dn,
                        meta.st_wf(state@),
                        forall|t2: int|
                            0 <= t2 < ds@.len() ==> ds@[t2] == -1 || (0 <= ds@[t2]
                                && meta.valid_code(state@, ds@[t2] as int)),
                        forall|i: int|
                            0 <= i < next_states@.len() ==> meta.st_wf(
                                #[trigger] next_states@[i]@,
                            ),
                    decreases dn - d,
                {
                    let code = ds[d];
                    if code >= 0 && total < max_entries {
                        let s2 = meta.transition(state, code);
                        let mut seen = false;
                        let mut q: usize = 0;
                        let qn = next_states.len();
                        while q < qn
                            invariant
                                q <= qn,
                                qn == next_states@.len(),
                            decreases qn - q,
                        {
                            if eq_state(&next_states[q], &s2) {
                                seen = true;
                            }
                            q = q + 1;
                        }
                        if !seen {
                            next_states.push(s2);
                            total = total + 1;
                        }
                    }
                    d = d + 1;
                }
                s = s + 1;
            }
            layers.push(next_states);
            depth = depth + 1;
        }

        let mut pending: Vec<(AlpState, Option<i64>)> = Vec::new();
        let mut li: usize = layers.len();
        let mut memo: Vec<(AlpState, Option<i64>)> = Vec::new();
        while li > 0
            invariant
                li <= layers@.len(),
                layers@[0]@.len() == 1,
                layers@[0]@[0]@ == meta.initial_g(),
                forall|l: int, i: int|
                    #![trigger layers@[l]@[i]]
                    0 <= l < layers@.len() && 0 <= i < layers@[l]@.len() ==> meta.st_wf(
                        layers@[l]@[i]@,
                    ),
                memo_wf(meta, memo@),
                memo_wf(meta, pending@),
                li == 0 ==> pending@.len() >= 1 && pending@[pending@.len() - 1].0@
                    == meta.initial_g(),
            decreases li,
        {
            li = li - 1;
            let layer = &layers[li];
            let mut new_memo: Vec<(AlpState, Option<i64>)> = Vec::new();
            let mut s: usize = 0;
            let cn = layer.len();
            while s < cn
                invariant
                    cn == layer@.len(),
                    s <= cn,
                    layer == &layers@[li as int],
                    li < layers@.len(),
                    memo_wf(meta, memo@),
                    memo_wf(meta, new_memo@),
                    memo_wf(meta, pending@),
                    new_memo@.len() == s,
                    forall|i: int|
                        0 <= i < s ==> (#[trigger] new_memo@[i]).0@ == layer@[i]@,
                    pending@.len() >= s,
                    forall|i: int|
                        0 <= i < s ==> (#[trigger] pending@[pending@.len() - s + i]).0@
                            == layer@[i]@,
                decreases cn - s,
            {
                let state = &layer[s];
                let fuel = meta.rem_sum(state);
                let v = opt_memo(meta, state, fuel, &memo);
                let ghost old_pending = pending@;
                pending.push((copy_state(state), v));
                new_memo.push((copy_state(state), v));
                proof {
                    assert((pending@[pending@.len() - 1]).0@ =~= layer@[s as int]@);
                    assert((new_memo@[new_memo@.len() - 1]).0@ =~= layer@[s as int]@);
                    assert forall|i: int|
                        0 <= i < s + 1 implies (#[trigger] pending@[pending@.len() - (s + 1)
                        + i]).0@ == layer@[i]@ by {
                        if i < s {
                            assert(pending@[pending@.len() - (s + 1) + i] == old_pending[
                                old_pending.len() - s + i]);
                        }
                    }
                }
                s = s + 1;
            }
            proof {
                if li == 0 {
                    assert(layer@[0]@ == meta.initial_g());
                    assert(s == 1);
                    assert((pending@[pending@.len() - (s as int) + 0]).0@ == layer@[0]@);
                    assert(pending@[pending@.len() - 1].0@ == layer@[0]@);
                }
            }
            memo = new_memo;
        }

        let mut keys: Vec<AlpKey> = Vec::new();
        let mut entries: Vec<DictEntry> = Vec::new();
        let mut p: usize = pending.len();
        let ghost root_pair = pending@[pending@.len() - 1];
        while p > 0
            invariant
                p <= pending@.len(),
                pending@.len() >= 1,
                memo_wf(meta, pending@),
                root_pair == pending@[pending@.len() - 1],
                root_pair.0@ == meta.initial_g(),
                keys@.len() == entries@.len(),
                entries@.len() == pending@.len() - p,
                p < pending@.len() ==> entries@.len() >= 1 && entries@[0].state@
                    == meta.initial_g() && entries@[0].value == root_pair.1,
                forall|i: int|
                    0 <= i < entries@.len() ==> dict_entry_wf(
                        meta,
                        #[trigger] keys@[i],
                        entries@[i],
                    ),
            decreases p,
        {
            p = p - 1;
            push_entry_value(meta, &mut keys, &mut entries, &pending[p].0, pending[p].1);
        }
        proof {
            assert(opt_view(root_pair.1) == spec_opt(
                meta,
                meta.initial_g(),
                sum_rem(meta.initial_g().rem) as nat,
            ));
        }
        AlpCompressionBound { compression, keys, entries }
    }

    /// The compression-based decision heuristic: projects `state` onto the
    /// meta problem, asks for a first decision of an optimal meta
    /// continuation from the projection, and moves the decisions whose meta
    /// image is that decision to the front; everything else keeps its order.
    /// Returns the reordered codes and the preferred meta decision. The order
    /// is left unchanged only when the projection is terminal or has no
    /// feasible meta completion at all.
    pub fn heuristic_order(&self, state: &AlpState, decisions: &Vec<i64>) -> (out: (
        Vec<i64>,
        Option<i64>,
    ))
        requires
            self.wf(),
            self.compression.problem.st_wf(state@),
            forall|t: int|
                0 <= t < decisions@.len() ==> 0 <= #[trigger] decisions@[t]
                    < self.compression.problem.k() * self.compression.problem.nr(),
        ensures
            out.1 is None ==> out.0@ == decisions@,
            out.1 is None ==> {
                let proj = projected(
                    state@,
                    self.compression.class_membership@,
                    self.compression.meta_problem.k(),
                );
                ||| sum_rem(proj.rem) == 0
                ||| spec_opt(&self.compression.meta_problem, proj, sum_rem(proj.rem) as nat)
                    is None
            },
            out.1 matches Some(p) ==> out.0@ == decisions@.filter(
                crate::compression::prefers(
                    self.compression.class_membership@,
                    self.compression.problem.nr(),
                    p as int,
                ),
            ) + decisions@.filter(
                crate::compression::rejects(
                    self.compression.class_membership@,
                    self.compression.problem.nr(),
                    p as int,
                ),
            ),
    {
        let cs = self.compression.compress(state);
        let fuel = self.compression.meta_problem.rem_sum(&cs);
        if fuel == 0 {
            return (self.compression.decompress(decisions), None);
        }
        match best_decision(&self.compression.meta_problem, &cs, fuel) {
            Some(p) => (self.compression.partition_by_meta(decisions, p), Some(p)),
            None => (self.compression.decompress(decisions), None),
        }
    }

    /// Entry `i` matches the projection of `g` onto the meta problem: its
    /// meta state carries the projected remaining counts and runway classes,
    /// each of its runways is at least as early as the projection's, and its
    /// meta optimum is defined.
    pub open spec fn entry_matches(&self, g: GState, i: int) -> bool {
        let e = self.entries@[i];
        let proj = projected(
            g,
            self.compression.class_membership@,
            self.compression.meta_problem.k(),
        );
        &&& e.state@.rem == proj.rem
        &&& e.state@.info.len() == proj.info.len()
        &&& forall|r: int|
            0 <= r < proj.info.len() ==> #[trigger] e.state@.info[r].prev_class
                == proj.info[r].prev_class
        &&& forall|r: int|
            0 <= r < proj.info.len() ==> #[trigger] e.state@.info[r].prev_time
                <= proj.info[r].prev_time
        &&& e.value is Some
    }

    /// Projects `state` onto the meta problem and returns the best exact
    /// meta reward over the dictionary's matching entries: same key, every
    /// runway at least as early. Returns nothing exactly when no entry
    /// matches; the relaxation then falls back to its own estimate.
    #[verifier::loop_isolation(false)]
    pub fn compressed_bound(&self, state: &AlpState) -> (v: Option<i64>)
        requires
            self.wf(),
            self.compression.problem.st_wf(state@),
        ensures
            v matches Some(x) ==> self.sound_bound(state@, x as int),
            v is None ==> forall|i: int|
                0 <= i < self.entries@.len() ==> !self.entry_matches(state@, i),
    {
        let dominance = AlpDominance;
        let cs = self.compression.compress(state);
        let ghost proj = projected(
            state@,
            self.compression.class_membership@,
            self.compression.meta_problem.k(),
        );
        let key = dominance.get_key(&cs);
        let pv = dominance.get_value(&cs);
        let mut best: Option<i64> = None;
        let mut i: usize = 0;
        let n = self.entries.len();
        while i < n
            invariant
                i <= n,
                best matches Some(x) ==> self.sound_bound(state@, x as int),
                best is None ==> forall|j: int|
                    0 <= j < i ==> !self.entry_matches(state@, j),
            decreases n - i,
        {
            let e = &self.entries[i];
            proof {
                assert(dict_entry_wf(
                    &self.compression.meta_problem,
                    self.keys@[i as int],
                    self.entries@[i as int],
                ));
            }
            if eq_key(&self.keys[i], &key) {
                proof {
                    assert(pv.prev_times@.len() == e.rank.prev_times@.len());
                }
                if dominance.is_dominated_by(&pv, &e.rank) {
                    match e.value {
                        Some(x) => {
                            proof {
                                assert(self.keys@[i as int].rem@ =~= key.rem@);
                                assert(self.keys@[i as int].prev_class@ =~= key.prev_class@);
                                assert forall|m: int|
                                    0 <= m < self.compression.meta_problem.k()
                                        implies #[trigger] e.state@.rem[m] == grouped_rem(
                                    state@.rem,
                                    self.compression.class_membership@,
                                    m,
                                ) by {
                                    assert(e.state@.rem[m] == self.keys@[i as int].rem@[m]);
                                    assert(key.rem@[m] == cs@.rem[m]);
                                }
                                assert forall|r: int|
                                    0 <= r < state@.info.len()
                                        implies #[trigger] e.state@.info[r].prev_time
                                        <= state@.info[r].prev_time by {
                                    assert(pv.prev_times@[r] <= e.rank.prev_times@[r]);
                                    assert(pv.prev_times@[r] == -cs@.info[r].prev_time);
                                    assert(e.rank.prev_times@[r] == -e.state@.info[r].prev_time);
                                    assert(cs@.info[r].prev_time == state@.info[r].prev_time);
                                }
                                assert forall|r: int|
                                    0 <= r < state@.info.len()
                                        implies #[trigger] e.state@.info[r].prev_class == (
                                if state@.info[r].prev_class == -1 {
                                    -1int
                                } else {
                                    self.compression.class_membership@[state@.info[r].prev_class as int] as int
                                }) by {
                                    assert(e.state@.info[r].prev_class
                                        == self.keys@[i as int].prev_class@[r]);
                                    assert(key.prev_class@[r] == cs@.info[r].prev_class);
                                }
                                assert(self.sound_witness(state@, e.state@, x as int));
                            }
                            match best {
                                Some(y) => {
                                    if x > y {
                                        best = Some(x);
                                    }
                                },
                                None => {
                                    best = Some(x);
                                },
                            }
                        },
                        None => {
                            proof {
                                assert(!self.entry_matches(state@, i as int));
                            }
                        },
                    }
                } else {
                    proof {
                        assert(!self.entry_matches(state@, i as int)) by {
                            if self.entry_matches(state@, i as int) {
                                assert(cs@ == proj);
                                assert forall|r: int|
                                    0 <= r < pv.prev_times@.len()
                                        implies #[trigger] pv.prev_times@[r]
                                        <= e.rank.prev_times@[r] by {
                                    assert(e.state@.info[r].prev_time <= proj.info[r].prev_time);
                                    assert(pv.prev_times@[r] == -cs@.info[r].prev_time);
                                    assert(e.rank.prev_times@[r] == -e.state@.info[r].prev_time);
                                }
                                lemma_sum_prev_times_monotone(e.state@.info, proj.info);
                                assert(pv.tot == -sum_prev_times(cs@.info));
                                assert(e.rank.tot == -sum_prev_times(e.state@.info));
                                assert(pv.tot <= e.rank.tot);
                                assert(false);
                            }
                        }
                    }
                }
            } else {
                proof {
                    assert(!self.entry_matches(state@, i as int)) by {
                        if self.entry_matches(state@, i as int) {
                            assert(cs@ == proj);
                            assert(self.keys@[i as int].rem@ =~= key.rem@) by {
                                assert forall|m: int|
                                    0 <= m < self.keys@[i as int].rem@.len()
                                        implies #[trigger] self.keys@[i as int].rem@[m]
                                        == key.rem@[m] by {
                                    assert(self.keys@[i as int].rem@[m] == e.state@.rem[m]);
                                    assert(key.rem@[m] == cs@.rem[m]);
                                }
                            }
                            assert(self.keys@[i as int].prev_class@ =~= key.prev_class@) by {
                                assert forall|r: int|
                                    0 <= r < self.keys@[i as int].prev_class@.len()
                                        implies #[trigger] self.keys@[i as int].prev_class@[r]
                                        == key.prev_class@[r] by {
                                    assert(self.keys@[i as int].prev_class@[r]
                                        == e.state@.info[r].prev_class);
                                    assert(key.prev_class@[r] == cs@.info[r].prev_class);
                                }
                            }
                            assert(false);
                        }
                    }
                }
            }
            i = i + 1;
        }
        best
    }
}

} // verus!

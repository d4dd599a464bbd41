//! The solver-facing pieces that are pure logic: the run configuration, the
//! solver kind, and the replay of a decision sequence into per-runway
//! landings. Wiring these into the branch-and-bound framework, reading the
//! instance file and printing the results happen outside the library.

use vstd::prelude::*;
use vstd::string::StrSliceExecFns;
use crate::model::{Alp, AlpState, GState};
use crate::laws::{run_ok, run_end};

verus! {

/// Which branch-and-bound driver to run the search with.
#[derive(Debug, Clone, Copy, PartialEq, Eq, Hash, Structural)]
pub enum SolverType {
    Classic,
    Hybrid,
}

/// Compares two strings character by character.
pub fn str_eq(a: &str, b: &str) -> (r: bool)
    ensures
        r <==> a@ =~= b@,
{
    let la = a.unicode_len();
    let lb = b.unicode_len();
    if la != lb {
        return false;
    }
    let mut i: usize = 0;
    while i < la
        invariant
            i <= la,
            la == a@.len(),
            la == b@.len(),
            forall|t: int| 0 <= t < i ==> a@[t] == b@[t],
        decreases la - i,
    {
        if a.get_char(i) != b.get_char(i) {
            return false;
        }
        i = i + 1;
    }
    true
}

impl SolverType {
    /// Parses the solver kind from its command-line name.
    pub fn from_str(s: &str) -> (r: Result<SolverType, String>)
        ensures
            s@ == "classic"@ ==> r == Ok::<SolverType, String>(SolverType::Classic),
            s@ == "hybrid"@ ==> r == Ok::<SolverType, String>(SolverType::Hybrid),
            (s@ != "classic"@ && s@ != "hybrid"@) ==> r is Err,
    {
        proof {
            reveal_strlit("classic");
            reveal_strlit("hybrid");
        }
        if str_eq(s, "classic") {
            Ok(SolverType::Classic)
        } else if str_eq(s, "hybrid") {
            Ok(SolverType::Hybrid)
        } else {
            Err("the only supported solver kinds are 'classic' and 'hybrid'".to_owned())
        }
    }

    /// The command-line name of the solver kind.
    pub fn as_str(&self) -> (r: &'static str)
        ensures
            *self == SolverType::Classic ==> r@ == "classic"@,
            *self == SolverType::Hybrid ==> r@ == "hybrid"@,
    {
        match self {
            SolverType::Classic => "classic",
            SolverType::Hybrid => "hybrid",
        }
    }
}

/// The configuration of one solver run, as handed over by the command line.
#[derive(Debug, Clone)]
pub struct Solve {
    /// The path to the instance file.
    pub instance: String,
    /// Maximum number of nodes kept in one layer.
    pub width: usize,
    /// Time budget in seconds.
    pub timeout: u64,
    /// Number of worker threads.
    pub threads: usize,
    /// The number of class clusters of the compression.
    pub n_meta_classes: usize,
    /// Whether to tighten the relaxation with the compression-based bound.
    pub compression_bound: bool,
    /// Whether to order decisions with the compression-based heuristic.
    pub compression_heuristic: bool,
    /// Which solver to drive the search with.
    pub solver: SolverType,
}

/// The landings a decision sequence performs, in decision order: for each
/// step, the runway, the arrival time, and the aircraft.
pub open spec fn flat_schedule(pb: &Alp, g: GState, ds: Seq<int>) -> Seq<(usize, i64, usize)>
    decreases ds.len(),
{
    if ds.len() == 0 {
        Seq::empty()
    } else {
        let d = ds[0];
        let c = pb.class_of(d);
        let r = pb.runway_of(d);
        let a = pb.next_aircraft(g, c);
        seq![(r as usize, pb.spec_arrival(g.info, a, r) as i64, a as usize)] + flat_schedule(
            pb,
            pb.step(g, d),
            ds.drop_first(),
        )
    }
}

/// The upper bound of the decision code space fits comfortably in the
/// machine integers used to check codes.
pub open spec fn c_times_r_bound(k: int, nr: int) -> bool {
    0 < k * nr <= 1_000_000
}

/// Replays a decision sequence from the initial state: returns the final
/// state together with the landings performed, or nothing exactly when the
/// sequence is not feasible from the initial state.
#[verifier::loop_isolation(false)]
pub fn replay(pb: &Alp, decisions: &Vec<i64>) -> (out: Option<(AlpState, Vec<(usize, i64, usize)>)>)
    requires
        pb.wf(),
    ensures
        out matches Some(p) ==> {
            let ds = decisions@.map_values(|d: i64| d as int);
            &&& run_ok(pb, pb.initial_g(), ds)
            &&& p.0@ == run_end(pb, pb.initial_g(), ds)
            &&& p.1@ == flat_schedule(pb, pb.initial_g(), ds)
        },
        out is None ==> !run_ok(pb, pb.initial_g(), decisions@.map_values(|d: i64| d as int)),
{
    let ghost ds = decisions@.map_values(|d: i64| d as int);
    let ghost g0 = pb.initial_g();
    let mut cur = pb.initial_state();
    let mut sched: Vec<(usize, i64, usize)> = Vec::new();
    let k = pb.instance.nb_classes;
    let nr = pb.instance.nb_runways;
    proof {
        assert(ds.skip(0) =~= ds);
        assert(c_times_r_bound(k as int, nr as int)) by (nonlinear_arith)
            requires
                1 <= k <= 1000,
                1 <= nr <= 1000,
        ;
    }
    let codes = k * nr;
    let n = decisions.len();
    let mut t: usize = 0;
    while t < n
        invariant
            t <= n,
            n == ds.len(),
            pb.st_wf(cur@),
            run_ok(pb, g0, ds) == run_ok(pb, cur@, ds.skip(t as int)),
            run_ok(pb, cur@, ds.skip(t as int)) ==> run_end(pb, g0, ds) == run_end(
                pb,
                cur@,
                ds.skip(t as int),
            ),
            run_ok(pb, cur@, ds.skip(t as int)) ==> flat_schedule(pb, g0, ds) == sched@
                + flat_schedule(pb, cur@, ds.skip(t as int)),
        decreases n - t,
    {
        let d = decisions[t];
        proof {
            assert(ds.skip(t as int)[0] == ds[t as int]);
            assert(ds.skip(t as int).drop_first() =~= ds.skip(t as int + 1));
        }
        if d < 0 || d >= codes as i64 {
            proof {
                if pb.valid_code(cur@, d as int) {
                    pb.lemma_valid_code_range(cur@, d as int);
                }
            }
            return None;
        }
        let dec = pb.from_decision(d);
        if cur.rem[dec.class] == 0 {
            return None;
        }
        let a = pb.next[dec.class][cur.rem[dec.class] - 1];
        let arrival = pb.get_arrival_time(&cur.info, a, dec.runway);
        if arrival > pb.instance.latest[a] {
            return None;
        }
        proof {
            assert(pb.admissible(cur@, dec.class as int, dec.runway as int));
            assert(pb.valid_code(cur@, d as int));
        }
        let ghost old_sched = sched@;
        sched.push((dec.runway, arrival, a));
        let next = pb.transition(&cur, d);
        proof {
            let rest = flat_schedule(pb, next@, ds.skip(t as int + 1));
            assert(flat_schedule(pb, cur@, ds.skip(t as int)) == seq![
                (dec.runway, arrival, a),
            ] + rest);
            assert(old_sched + flat_schedule(pb, cur@, ds.skip(t as int)) =~= sched@ + rest);
        }
        cur = next;
        t = t + 1;
    }
    proof {
        assert(ds.skip(n as int).len() == 0);
        assert(sched@ + flat_schedule(pb, cur@, ds.skip(n as int)) =~= sched@);
    }
    Some((cur, sched))
}

} // verus!

//! The dynamic-programming model of the aircraft landing problem: states,
//! decisions, transitions, transition costs and the decision domain.

use vstd::prelude::*;
use vstd::pervasive::VecAdditionalExecFns;
use crate::instance::{AlpInstance, MAX_TIME};

verus! {

/// Transition cost of the sentinel decision. It stands for "minus infinity":
/// strictly worse than the total deviation of any real schedule, yet far from
/// the edge of `i64`, so that sums of layer costs stay representable.
pub const INFEASIBLE_PENALTY: i64 = -10_000_000_000_000;

/// What a runway remembers of its schedule: the landing time and class of the
/// last aircraft it received, or `-1` on both fields while it is still empty.
#[derive(Clone, Copy, Debug, PartialEq, Eq, Hash, Structural)]
pub struct RunwayState {
    pub prev_time: i64,
    pub prev_class: i64,
}

/// A state of the dynamic program: the number of still unscheduled aircraft
/// of each class, and the last landing on each runway.
#[derive(Clone, Debug, PartialEq, Eq, Hash)]
pub struct AlpState {
    pub rem: Vec<usize>,
    pub info: Vec<RunwayState>,
}

/// A decoded decision: land the next unscheduled aircraft of class `class`
/// on runway `runway`.
#[derive(Clone, Copy, Debug, PartialEq, Eq, Structural)]
pub struct AlpDecision {
    pub class: usize,
    pub runway: usize,
}

/// The mathematical image of an `AlpState`.
#[verifier::ext_equal]
pub ghost struct GState {
    pub rem: Seq<usize>,
    pub info: Seq<RunwayState>,
}

impl View for AlpState {
    type V = GState;

    open spec fn view(&self) -> GState {
        GState { rem: self.rem@, info: self.info@ }
    }
}

/// How many entries of `classes` equal `c`.
pub open spec fn cnt_class(classes: Seq<usize>, c: int) -> int
    decreases classes.len(),
{
    if classes.len() == 0 {
        0
    } else {
        (if classes[0] == c {
            1int
        } else {
            0int
        }) + cnt_class(classes.drop_first(), c)
    }
}

/// The number of aircraft a state still has to schedule.
pub open spec fn sum_rem(rem: Seq<usize>) -> int
    decreases rem.len(),
{
    if rem.len() == 0 {
        0
    } else {
        rem[0] + sum_rem(rem.drop_first())
    }
}


/// Some position of `row` holds the aircraft index `a`.
pub open spec fn lists_aircraft(row: Seq<usize>, a: int) -> bool {
    exists|j: int| 0 <= j < row.len() && row[j] == a
}

/// The sum of the last landing times over all runways.
pub open spec fn sum_prev_times(info: Seq<RunwayState>) -> int
    decreases info.len(),
{
    if info.len() == 0 {
        0
    } else {
        info[0].prev_time + sum_prev_times(info.drop_first())
    }
}

/// One step of the prefix recursion behind runway-time sums.
pub proof fn lemma_sum_prev_times_take_step(info: Seq<RunwayState>, r: int)
    requires
        0 <= r < info.len(),
    ensures
        sum_prev_times(info.take(r + 1)) == sum_prev_times(info.take(r)) + info[r].prev_time,
    decreases r,
{
    if r == 0 {
        assert(info.take(1).drop_first() =~= Seq::<RunwayState>::empty());
        assert(info.take(1)[0] == info[0]);
        assert(sum_prev_times(info.take(1).drop_first()) == 0);
        assert(sum_prev_times(info.take(1)) == info.take(1)[0].prev_time + sum_prev_times(
            info.take(1).drop_first(),
        ));
        assert(sum_prev_times(info.take(0)) == 0);
    } else {
        let d = info.drop_first();
        assert(info.take(r + 1).drop_first() =~= d.take(r));
        assert(info.take(r).drop_first() =~= d.take(r - 1));
        lemma_sum_prev_times_take_step(d, r - 1);
        assert(info.take(r + 1)[0] == info[0]);
        assert(info.take(r)[0] == info[0]);
        assert(d[r - 1] == info[r]);
        assert(sum_prev_times(info.take(r + 1)) == info.take(r + 1)[0].prev_time + sum_prev_times(
            d.take(r),
        ));
        assert(sum_prev_times(info.take(r)) == info.take(r)[0].prev_time + sum_prev_times(
            d.take(r - 1),
        ));
    }
}

/// Pointwise earlier runways have a smaller or equal time sum.
pub proof fn lemma_sum_prev_times_monotone(a: Seq<RunwayState>, b: Seq<RunwayState>)
    requires
        a.len() == b.len(),
        forall|r: int| 0 <= r < a.len() ==> #[trigger] a[r].prev_time <= b[r].prev_time,
    ensures
        sum_prev_times(a) <= sum_prev_times(b),
    decreases a.len(),
{
    if a.len() > 0 {
        assert(forall|r: int|
            0 <= r < a.drop_first().len() ==> #[trigger] a.drop_first()[r] == a[r + 1]
                && b.drop_first()[r] == b[r + 1]);
        lemma_sum_prev_times_monotone(a.drop_first(), b.drop_first());
    }
}

/// Bounds on the runway-time sum, from the per-runway bounds.
pub proof fn lemma_sum_prev_times_bounds(info: Seq<RunwayState>)
    requires
        forall|r: int| 0 <= r < info.len() ==> -1 <= #[trigger] info[r].prev_time <= MAX_TIME,
    ensures
        -info.len() <= sum_prev_times(info) <= info.len() * MAX_TIME,
    decreases info.len(),
{
    if info.len() > 0 {
        assert(forall|r: int|
            0 <= r < info.drop_first().len() ==> #[trigger] info.drop_first()[r] == info[r + 1]);
        lemma_sum_prev_times_bounds(info.drop_first());
        assert((info.len() - 1) * MAX_TIME + MAX_TIME == info.len() * MAX_TIME) by (nonlinear_arith);
    }
}

pub proof fn lemma_cnt_class_le_len(classes: Seq<usize>, c: int)
    ensures
        0 <= cnt_class(classes, c) <= classes.len(),
    decreases classes.len(),
{
    if classes.len() > 0 {
        lemma_cnt_class_le_len(classes.drop_first(), c);
    }
}

pub proof fn lemma_sum_rem_nonneg(rem: Seq<usize>)
    ensures
        sum_rem(rem) >= 0,
    decreases rem.len(),
{
    if rem.len() > 0 {
        lemma_sum_rem_nonneg(rem.drop_first());
    }
}

pub proof fn lemma_sum_rem_pos(rem: Seq<usize>, i: int)
    requires
        0 <= i < rem.len(),
        rem[i] > 0,
    ensures
        sum_rem(rem) > 0,
    decreases i,
{
    if i == 0 {
        lemma_sum_rem_nonneg(rem.drop_first());
    } else {
        lemma_sum_rem_pos(rem.drop_first(), i - 1);
    }
}

pub proof fn lemma_sum_rem_all_zero(rem: Seq<usize>)
    requires
        forall|i: int| 0 <= i < rem.len() ==> rem[i] == 0,
    ensures
        sum_rem(rem) == 0,
    decreases rem.len(),
{
    if rem.len() > 0 {
        assert(forall|i: int|
            0 <= i < rem.drop_first().len() ==> rem.drop_first()[i] == rem[i + 1]);
        lemma_sum_rem_all_zero(rem.drop_first());
    }
}

pub proof fn lemma_sum_rem_monotone(rem1: Seq<usize>, rem2: Seq<usize>)
    requires
        rem1.len() == rem2.len(),
        forall|c: int| 0 <= c < rem1.len() ==> #[trigger] rem1[c] <= rem2[c],
    ensures
        sum_rem(rem1) <= sum_rem(rem2),
    decreases rem1.len(),
{
    if rem1.len() > 0 {
        assert(forall|c: int|
            0 <= c < rem1.drop_first().len() ==> #[trigger] rem1.drop_first()[c] == rem1[c + 1]
                && rem2.drop_first()[c] == rem2[c + 1]);
        lemma_sum_rem_monotone(rem1.drop_first(), rem2.drop_first());
    }
}

/// Raising one entry by one raises the sum by one.
pub proof fn lemma_sum_rem_update_inc(rem: Seq<usize>, c: int)
    requires
        0 <= c < rem.len(),
        rem[c] < usize::MAX,
    ensures
        sum_rem(rem.update(c, (rem[c] + 1) as usize)) == sum_rem(rem) + 1,
    decreases c,
{
    let r2 = rem.update(c, (rem[c] + 1) as usize);
    if c == 0 {
        assert(r2.drop_first() =~= rem.drop_first());
    } else {
        assert(r2.drop_first() =~= rem.drop_first().update(c - 1, (rem[c] + 1) as usize));
        lemma_sum_rem_update_inc(rem.drop_first(), c - 1);
    }
}

/// The per-class counts of a class vector add up to its length: every
/// aircraft belongs to exactly one class.
pub proof fn lemma_sum_counts_eq_len(classes: Seq<usize>, k: int)
    requires
        k >= 0,
        forall|i: int| 0 <= i < classes.len() ==> #[trigger] classes[i] < k,
        classes.len() <= 100_000,
    ensures
        sum_rem(Seq::new(k as nat, |c: int| cnt_class(classes, c) as usize)) == classes.len(),
    decreases classes.len(),
{
    let counts = Seq::new(k as nat, |c: int| cnt_class(classes, c) as usize);
    if classes.len() == 0 {
        assert forall|c: int| 0 <= c < k implies counts[c] == 0 by {
            lemma_cnt_class_le_len(classes, c);
        }
        lemma_sum_rem_all_zero(counts);
    } else {
        let rest = classes.drop_first();
        let x = classes[0] as int;
        let counts_rest = Seq::new(k as nat, |c: int| cnt_class(rest, c) as usize);
        lemma_sum_counts_eq_len(rest, k);
        assert forall|c: int| 0 <= c < k implies 0 <= #[trigger] cnt_class(rest, c)
            <= rest.len() by {
            lemma_cnt_class_le_len(rest, c);
        }
        assert(counts =~= counts_rest.update(x, (counts_rest[x] + 1) as usize));
        lemma_sum_rem_update_inc(counts_rest, x);
    }
}

/// Decrementing one positive entry lowers the sum by exactly one.
pub proof fn lemma_sum_rem_update_dec(rem: Seq<usize>, c: int)
    requires
        0 <= c < rem.len(),
        rem[c] > 0,
    ensures
        sum_rem(rem.update(c, (rem[c] - 1) as usize)) == sum_rem(rem) - 1,
    decreases c,
{
    let r2 = rem.update(c, (rem[c] - 1) as usize);
    if c == 0 {
        assert(r2.drop_first() =~= rem.drop_first());
    } else {
        assert(r2.drop_first() =~= rem.drop_first().update(c - 1, (rem[c] - 1) as usize));
        lemma_sum_rem_update_dec(rem.drop_first(), c - 1);
    }
}

/// One step of the prefix recursion behind remaining-count sums.
pub proof fn lemma_sum_rem_take_step(rem: Seq<usize>, c: int)
    requires
        0 <= c < rem.len(),
    ensures
        sum_rem(rem.take(c + 1)) == sum_rem(rem.take(c)) + rem[c],
    decreases c,
{
    if c == 0 {
        assert(rem.take(1).drop_first() =~= Seq::<usize>::empty());
        assert(rem.take(1)[0] == rem[0]);
        assert(sum_rem(rem.take(1).drop_first()) == 0);
        assert(sum_rem(rem.take(1)) == rem.take(1)[0] + sum_rem(rem.take(1).drop_first()));
        assert(sum_rem(rem.take(0)) == 0);
    } else {
        let d = rem.drop_first();
        assert(rem.take(c + 1).drop_first() =~= d.take(c));
        assert(rem.take(c).drop_first() =~= d.take(c - 1));
        lemma_sum_rem_take_step(d, c - 1);
        assert(rem.take(c + 1)[0] == rem[0]);
        assert(rem.take(c)[0] == rem[0]);
        assert(d[c - 1] == rem[c]);
        assert(sum_rem(rem.take(c + 1)) == rem.take(c + 1)[0] + sum_rem(d.take(c)));
        assert(sum_rem(rem.take(c)) == rem.take(c)[0] + sum_rem(d.take(c - 1)));
    }
}

/// The problem model. `next[c]` lists the aircraft of class `c` in reverse
/// index order, so that when `rem[c] = k` the next aircraft to schedule for
/// class `c` is `next[c][k - 1]`: classes are consumed in ascending aircraft
/// order.
#[derive(Clone, Debug)]
pub struct Alp {
    pub instance: AlpInstance,
    pub next: Vec<Vec<usize>>,
}

impl Alp {
    /// Number of classes, as a mathematical integer.
    pub open spec fn k(&self) -> int {
        self.instance.nb_classes as int
    }

    /// Number of aircraft, as a mathematical integer.
    pub open spec fn n(&self) -> int {
        self.instance.nb_aircrafts as int
    }

    /// Number of runways, as a mathematical integer.
    pub open spec fn nr(&self) -> int {
        self.instance.nb_runways as int
    }

    /// The `next` vectors are exactly the per-class aircraft lists in
    /// strictly decreasing index order.
    pub open spec fn next_wf(&self) -> bool {
        &&& self.next@.len() == self.k()
        &&& forall|c: int|
            0 <= c < self.k() ==> #[trigger] self.next@[c]@.len() == cnt_class(
                self.instance.classes@,
                c,
            )
        &&& forall|c: int, j: int|
            0 <= c < self.k() && 0 <= j < self.next@[c]@.len() ==> #[trigger] self.next@[c]@[j]
                < self.n() && self.instance.classes@[self.next@[c]@[j] as int] == c
        &&& forall|c: int, j1: int, j2: int|
            #![trigger self.next@[c]@[j1], self.next@[c]@[j2]]
            0 <= c < self.k() && 0 <= j1 < j2 < self.next@[c]@.len() ==> self.next@[c]@[j1]
                > self.next@[c]@[j2]
        &&& forall|c: int, a: int|
            #![trigger self.next@[c]@, self.instance.classes@[a]]
            0 <= c < self.k() && 0 <= a < self.n() && self.instance.classes@[a] == c
                ==> lists_aircraft(self.next@[c]@, a)
    }

    pub open spec fn wf(&self) -> bool {
        self.instance.wf() && self.next_wf()
    }

    /// Well-formedness of a runway vector against this problem.
    pub open spec fn info_wf(&self, info: Seq<RunwayState>) -> bool {
        &&& info.len() == self.nr()
        &&& forall|r: int| 0 <= r < info.len() ==> -1 <= #[trigger] info[r].prev_class < self.k()
        &&& forall|r: int| 0 <= r < info.len() ==> -1 <= #[trigger] info[r].prev_time <= MAX_TIME
    }

    /// Well-formedness of a state against this problem.
    pub open spec fn st_wf(&self, g: GState) -> bool {
        &&& g.rem.len() == self.k()
        &&& forall|c: int|
            0 <= c < self.k() ==> #[trigger] g.rem[c] <= cnt_class(self.instance.classes@, c)
        &&& self.info_wf(g.info)
    }

    /// The state every search starts from: full remaining counts, all
    /// runways empty.
    pub open spec fn initial_g(&self) -> GState {
        GState {
            rem: Seq::new(self.k() as nat, |c: int| cnt_class(self.instance.classes@, c) as usize),
            info: Seq::new(self.nr() as nat, |r: int| RunwayState { prev_time: -1i64, prev_class: -1i64 }),
        }
    }

    /// When aircraft `a` can land on runway `r`: at its target time, or as
    /// soon as the separation from the runway's previous landing allows,
    /// whichever is later. An empty runway imposes no separation.
    pub open spec fn spec_arrival(&self, info: Seq<RunwayState>, a: int, r: int) -> int {
        let t = self.instance.target@[a] as int;
        if info[r].prev_class == -1 {
            t
        } else {
            let e = info[r].prev_time + self.instance.separation@[info[r].prev_class as int]@[self.instance.classes@[a] as int];
            if e >= t {
                e
            } else {
                t
            }
        }
    }

    /// The aircraft that decision class `c` would schedule from state `g`.
    pub open spec fn next_aircraft(&self, g: GState, c: int) -> int {
        self.next@[c]@[g.rem[c] - 1] as int
    }

    /// Decision `(c, r)` may be emitted from `g`: class `c` still has
    /// aircraft, and its head lands on `r` no later than its latest time.
    pub open spec fn admissible(&self, g: GState, c: int, r: int) -> bool {
        &&& 0 <= c < self.k()
        &&& 0 <= r < self.nr()
        &&& g.rem[c] > 0
        &&& self.spec_arrival(g.info, self.next_aircraft(g, c), r)
            <= self.instance.latest@[self.next_aircraft(g, c)]
    }

    pub open spec fn has_admissible(&self, g: GState) -> bool {
        exists|c: int, r: int| self.admissible(g, c, r)
    }

    /// The framework-facing encoding of decision `(c, r)`.
    pub open spec fn code_of(&self, c: int, r: int) -> int {
        c * self.nr() + r
    }

    pub open spec fn class_of(&self, d: int) -> int {
        d / self.nr()
    }

    pub open spec fn runway_of(&self, d: int) -> int {
        d % self.nr()
    }

    /// A non-sentinel decision code that may be applied to `g`.
    pub open spec fn valid_code(&self, g: GState, d: int) -> bool {
        d >= 0 && self.admissible(g, self.class_of(d), self.runway_of(d))
    }

    /// A valid code always lies below `k * nr`, the size of the code space.
    pub proof fn lemma_valid_code_range(&self, g: GState, d: int)
        requires
            self.wf(),
            self.valid_code(g, d),
        ensures
            0 <= d < self.k() * self.nr(),
    {
        vstd::arithmetic::div_mod::lemma_fundamental_div_mod(d, self.nr());
        vstd::arithmetic::div_mod::lemma_mod_bound(d, self.nr());
        assert(d < self.k() * self.nr()) by (nonlinear_arith)
            requires
                self.nr() >= 1,
                d == self.nr() * (d / self.nr()) + d % self.nr(),
                d / self.nr() < self.k(),
                0 <= d % self.nr() < self.nr(),
        ;
    }

    /// The successor state. The sentinel leaves the state unchanged; a real
    /// decision consumes the class head and records it on its runway.
    pub open spec fn step(&self, g: GState, d: int) -> GState {
        if d == -1 {
            g
        } else {
            let c = self.class_of(d);
            let r = self.runway_of(d);
            let a = self.next_aircraft(g, c);
            GState {
                rem: g.rem.update(c, (g.rem[c] - 1) as usize),
                info: g.info.update(
                    r,
                    RunwayState {
                        prev_time: self.spec_arrival(g.info, a, r) as i64,
                        prev_class: self.instance.classes@[a] as i64,
                    },
                ),
            }
        }
    }

    /// The reward of one decision: the negated deviation of the landing from
    /// its target time, or the sentinel penalty.
    pub open spec fn step_cost(&self, g: GState, d: int) -> int {
        if d == -1 {
            INFEASIBLE_PENALTY as int
        } else {
            let c = self.class_of(d);
            let r = self.runway_of(d);
            let a = self.next_aircraft(g, c);
            self.instance.target@[a] - self.spec_arrival(g.info, a, r)
        }
    }

    /// Builds the problem from a well-formed instance, precomputing the
    /// per-class reverse aircraft lists.
    #[verifier::loop_isolation(false)]
    pub fn new(instance: AlpInstance) -> (pb: Alp)
        requires
            instance.wf(),
        ensures
            pb.wf(),
            pb.instance == instance,
    {
        let k = instance.nb_classes;
        let n = instance.nb_aircrafts;
        let mut next: Vec<Vec<usize>> = Vec::new();
        let mut c: usize = 0;
        while c < k
            invariant
                c <= k,
                next@.len() == c,
                forall|c2: int|
                    0 <= c2 < c ==> #[trigger] next@[c2]@.len() == cnt_class(
                        instance.classes@,
                        c2,
                    ),
                forall|c2: int, j: int|
                    0 <= c2 < c && 0 <= j < next@[c2]@.len() ==> #[trigger] next@[c2]@[j] < n
                        && instance.classes@[next@[c2]@[j] as int] == c2,
                forall|c2: int, j1: int, j2: int|
                    #![trigger next@[c2]@[j1], next@[c2]@[j2]]
                    0 <= c2 < c && 0 <= j1 < j2 < next@[c2]@.len() ==> next@[c2]@[j1]
                        > next@[c2]@[j2],
                forall|c2: int, b: int|
                    #![trigger next@[c2]@, instance.classes@[b]]
                    0 <= c2 < c && 0 <= b < n && instance.classes@[b] == c2
                        ==> lists_aircraft(next@[c2]@, b),
            decreases k - c,
        {
            let mut row: Vec<usize> = Vec::new();
            let mut a: usize = n;
            while a > 0
                invariant
                    a <= n,
                    row@.len() == cnt_class(instance.classes@.skip(a as int), c as int),
                    forall|j: int|
                        0 <= j < row@.len() ==> a <= #[trigger] row@[j] < n
                            && instance.classes@[row@[j] as int] == c,
                    forall|j1: int, j2: int|
                        #![trigger row@[j1], row@[j2]]
                        0 <= j1 < j2 < row@.len() ==> row@[j1] > row@[j2],
                    forall|b: int|
                        a <= b < n && instance.classes@[b] == c ==> lists_aircraft(row@, b),
                decreases a,
            {
                a = a - 1;
                proof {
                    let s = instance.classes@;
                    assert(s.skip(a as int).drop_first() =~= s.skip(a as int + 1));
                    assert(s.skip(a as int)[0] == s[a as int]);
                }
                if instance.classes[a] == c {
                    let ghost old_row = row@;
                    row.push(a);
                    proof {
                        assert(row@[row@.len() - 1] == a);
                        assert forall|b: int|
                            a <= b < n && instance.classes@[b] == c implies lists_aircraft(
                            row@,
                            b,
                        ) by {
                            if b == a as int {
                                assert(row@[row@.len() - 1] == b);
                            } else {
                                assert(lists_aircraft(old_row, b));
                                let j = choose|j: int|
                                    0 <= j < old_row.len() && #[trigger] old_row[j] == b;
                                assert(row@[j] == b);
                            }
                        }
                    }
                }
            }
            proof {
                assert(instance.classes@.skip(0) =~= instance.classes@);
            }
            let ghost row_s = row@;
            let ghost old_next = next@;
            next.push(row);
            proof {
                assert(next@[c as int]@ == row_s);
                assert forall|c2: int, b: int|
                    #![trigger next@[c2]@, instance.classes@[b]]
                    0 <= c2 < c + 1 && 0 <= b < n && instance.classes@[b] == c2
                        implies lists_aircraft(next@[c2]@, b) by {
                    if c2 == c as int {
                        assert(lists_aircraft(row_s, b));
                        assert(next@[c2]@ == row_s);
                    } else {
                        assert(next@[c2]@ == old_next[c2]@);
                        assert(lists_aircraft(old_next[c2]@, b));
                    }
                }
            }
            c = c + 1;
        }
        Alp { instance, next }
    }

    /// Total number of decision variables: one per aircraft.
    pub fn nb_variables(&self) -> (n: usize)
        ensures
            n == self.n(),
    {
        self.instance.nb_aircrafts
    }

    /// The variable decided at a given depth, while any remains.
    pub fn next_variable(&self, depth: usize) -> (v: Option<usize>)
        ensures
            v == if depth < self.n() {
                Some(depth)
            } else {
                Option::<usize>::None
            },
    {
        if depth < self.instance.nb_aircrafts {
            Some(depth)
        } else {
            None
        }
    }

    /// The root state of the search.
    #[verifier::loop_isolation(false)]
    pub fn initial_state(&self) -> (s: AlpState)
        requires
            self.wf(),
        ensures
            s@ == self.initial_g(),
            self.st_wf(s@),
    {
        let k = self.instance.nb_classes;
        let r = self.instance.nb_runways;
        let mut rem: Vec<usize> = Vec::new();
        let mut c: usize = 0;
        while c < k
            invariant
                c <= k,
                rem@.len() == c,
                forall|c2: int|
                    0 <= c2 < c ==> #[trigger] rem@[c2] == cnt_class(self.instance.classes@, c2),
            decreases k - c,
        {
            proof {
                lemma_cnt_class_le_len(self.instance.classes@, c as int);
            }
            rem.push(self.next[c].len());
            c = c + 1;
        }
        let mut info: Vec<RunwayState> = Vec::new();
        let mut i: usize = 0;
        while i < r
            invariant
                i <= r,
                info@.len() == i,
                forall|t: int|
                    0 <= t < i ==> #[trigger] info@[t] == (RunwayState {
                        prev_time: -1i64,
                        prev_class: -1i64,
                    }),
            decreases r - i,
        {
            info.push(RunwayState { prev_time: -1, prev_class: -1 });
            i = i + 1;
        }
        let s = AlpState { rem, info };
        proof {
            assert(s@.rem =~= self.initial_g().rem);
            assert(s@.info =~= self.initial_g().info);
            assert forall|c2: int| 0 <= c2 < self.k() implies #[trigger] s@.rem[c2] <= cnt_class(
                self.instance.classes@,
                c2,
            ) by {
                lemma_cnt_class_le_len(self.instance.classes@, c2);
            }
            lemma_sum_rem_nonneg(s@.rem);
        }
        s
    }

    /// Computes `spec_arrival` at run time.
    pub fn get_arrival_time(&self, info: &Vec<RunwayState>, aircraft: usize, runway: usize) -> (t:
        i64)
        requires
            self.wf(),
            self.info_wf(info@),
            aircraft < self.instance.nb_aircrafts,
            runway < info@.len(),
        ensures
            t == self.spec_arrival(info@, aircraft as int, runway as int),
            0 <= t <= 2 * MAX_TIME,
    {
        let rs = info[runway];
        let target = self.instance.target[aircraft];
        if rs.prev_class < 0 {
            target
        } else {
            let sep = self.instance.separation[rs.prev_class as usize][self.instance.classes[aircraft]];
            let e = rs.prev_time + sep;
            if e >= target {
                e
            } else {
                target
            }
        }
    }

    /// Whether every aircraft has been scheduled.
    pub fn is_terminal(&self, state: &AlpState) -> (r: bool)
        requires
            self.wf(),
            self.st_wf(state@),
        ensures
            r == (sum_rem(state@.rem) == 0),
    {
        let mut i: usize = 0;
        let n = state.rem.len();
        while i < n
            invariant
                i <= n,
                n == state@.rem.len(),
                forall|t: int| 0 <= t < i ==> state@.rem[t] == 0,
            decreases n - i,
        {
            if state.rem[i] > 0 {
                proof {
                    lemma_sum_rem_pos(state@.rem, i as int);
                }
                return false;
            }
            i = i + 1;
        }
        proof {
            lemma_sum_rem_all_zero(state@.rem);
        }
        true
    }

    /// A well-formed state never has more remaining aircraft than the
    /// instance declares.
    pub proof fn lemma_sum_rem_le_n(&self, g: GState)
        requires
            self.wf(),
            self.st_wf(g),
        ensures
            sum_rem(g.rem) <= self.n(),
    {
        let counts = Seq::new(
            self.k() as nat,
            |c: int| cnt_class(self.instance.classes@, c) as usize,
        );
        assert forall|c: int| 0 <= c < g.rem.len() implies #[trigger] g.rem[c] <= counts[c] by {
            lemma_cnt_class_le_len(self.instance.classes@, c);
        }
        lemma_sum_rem_monotone(g.rem, counts);
        lemma_sum_counts_eq_len(self.instance.classes@, self.k());
    }

    /// Counts the aircraft a state still has to schedule.
    #[verifier::loop_isolation(false)]
    pub fn rem_sum(&self, state: &AlpState) -> (s: usize)
        requires
            self.wf(),
            self.st_wf(state@),
        ensures
            s == sum_rem(state@.rem),
            s <= self.n(),
    {
        let mut s: usize = 0;
        let mut c: usize = 0;
        let k = state.rem.len();
        proof {
            assert(sum_rem(state@.rem.take(0)) == 0);
        }
        while c < k
            invariant
                c <= k,
                s == sum_rem(state@.rem.take(c as int)),
                s <= c * 10_000,
            decreases k - c,
        {
            proof {
                lemma_sum_rem_take_step(state@.rem, c as int);
                lemma_cnt_class_le_len(self.instance.classes@, c as int);
                assert(c * 10_000 + 10_000 == (c + 1) * 10_000) by (nonlinear_arith);
                assert(0 <= c * 10_000 <= 1000 * 10_000) by (nonlinear_arith)
                    requires
                        0 <= c <= 1000,
                ;
            }
            s = s + state.rem[c];
            c = c + 1;
        }
        proof {
            assert(state@.rem.take(k as int) =~= state@.rem);
            self.lemma_sum_rem_le_n(state@);
        }
        s
    }

    /// Encodes a decision for the framework.
    pub fn to_decision(&self, d: &AlpDecision) -> (code: i64)
        requires
            self.wf(),
            d.class < self.k(),
            d.runway < self.nr(),
        ensures
            code == self.code_of(d.class as int, d.runway as int),
            0 <= code < self.k() * self.nr(),
    {
        proof {
            assert(d.class * self.nr() + d.runway < self.k() * self.nr()) by (nonlinear_arith)
                requires
                    0 <= d.class < self.k(),
                    0 <= d.runway < self.nr(),
            ;
            assert(self.k() * self.nr() <= 1000 * 1000) by (nonlinear_arith)
                requires
                    0 <= self.k() <= 1000,
                    0 <= self.nr() <= 1000,
            ;
        }
        (d.class * self.instance.nb_runways + d.runway) as i64
    }

    /// Decodes a framework decision code.
    pub fn from_decision(&self, code: i64) -> (d: AlpDecision)
        requires
            self.wf(),
            0 <= code < self.k() * self.nr(),
        ensures
            d.class == self.class_of(code as int),
            d.runway == self.runway_of(code as int),
            self.code_of(d.class as int, d.runway as int) == code,
            d.class < self.k(),
            d.runway < self.nr(),
    {
        proof {
            assert(self.k() * self.nr() <= 1000 * 1000) by (nonlinear_arith)
                requires
                    0 <= self.k() <= 1000,
                    0 <= self.nr() <= 1000,
            ;
        }
        let r = self.instance.nb_runways;
        let class = (code as usize) / r;
        let runway = (code as usize) % r;
        proof {
            vstd::arithmetic::div_mod::lemma_fundamental_div_mod(code as int, self.nr());
            assert(class < self.k()) by (nonlinear_arith)
                requires
                    self.nr() >= 1,
                    class == (code as int) / self.nr(),
                    0 <= (code as int) && (code as int) < self.k() * self.nr(),
            ;
            assert((class as int) * self.nr() == self.nr() * (class as int)) by (nonlinear_arith);
        }
        AlpDecision { class, runway }
    }

    /// Emits every admissible decision code from `state`, in increasing
    /// order, or the lone sentinel `-1` when the state is stuck: no class
    /// head can meet its latest time and aircraft remain unscheduled.
    #[verifier::loop_isolation(false)]
    pub fn domain(&self, state: &AlpState) -> (ds: Vec<i64>)
        requires
            self.wf(),
            self.st_wf(state@),
        ensures
            forall|c: int, r: int|
                self.admissible(state@, c, r) ==> ds@.contains(self.code_of(c, r) as i64),
            forall|t: int|
                0 <= t < ds@.len() ==> ds@[t] == -1 || (0 <= ds@[t] && self.valid_code(
                    state@,
                    ds@[t] as int,
                )),
            ds@.contains(-1i64) <==> (!self.has_admissible(state@) && sum_rem(state@.rem) > 0),
            forall|t1: int, t2: int| 0 <= t1 < t2 < ds@.len() ==> ds@[t1] < ds@[t2],
    {
        let k = self.instance.nb_classes;
        let nr = self.instance.nb_runways;
        let mut ds: Vec<i64> = Vec::new();
        let mut c: usize = 0;
        while c < k
            invariant
                c <= k,
                forall|c2: int, r2: int|
                    self.admissible(state@, c2, r2) && c2 < c ==> ds@.contains(
                        self.code_of(c2, r2) as i64,
                    ),
                forall|t: int|
                    0 <= t < ds@.len() ==> 0 <= ds@[t] < c * self.nr() && self.valid_code(
                        state@,
                        ds@[t] as int,
                    ),
                forall|t1: int, t2: int| 0 <= t1 < t2 < ds@.len() ==> ds@[t1] < ds@[t2],
            decreases k - c,
        {
            let remc = state.rem[c];
            if remc > 0 {
                let a = self.next[c][remc - 1];
                let latest = self.instance.latest[a];
                let mut r: usize = 0;
                while r < nr
                    invariant
                        r <= nr,
                        remc == state@.rem[c as int],
                        remc > 0,
                        a == self.next_aircraft(state@, c as int),
                        a < self.n(),
                        latest == self.instance.latest@[a as int],
                        forall|c2: int, r2: int|
                            self.admissible(state@, c2, r2) && (c2 < c || (c2 == c && r2 < r))
                                ==> ds@.contains(self.code_of(c2, r2) as i64),
                        forall|t: int|
                            0 <= t < ds@.len() ==> 0 <= ds@[t] < c * self.nr() + r
                                && self.valid_code(state@, ds@[t] as int),
                        forall|t1: int, t2: int| 0 <= t1 < t2 < ds@.len() ==> ds@[t1] < ds@[t2],
                    decreases nr - r,
                {
                    let t = self.get_arrival_time(&state.info, a, r);
                    if t <= latest {
                        proof {
                            assert(c * self.nr() + r < 1_000_000) by (nonlinear_arith)
                                requires
                                    0 <= c < 1000,
                                    0 <= self.nr() <= 1000,
                                    0 <= r < self.nr(),
                            ;
                            vstd::arithmetic::div_mod::lemma_fundamental_div_mod_converse(
                                c * self.nr() + r,
                                self.nr(),
                                c as int,
                                r as int,
                            );
                        }
                        let ghost old_ds = ds@;
                        ds.push((c * nr + r) as i64);
                        proof {
                            assert(ds@[ds@.len() - 1] == self.code_of(c as int, r as int) as i64);
                            assert forall|c2: int, r2: int|
                                self.admissible(state@, c2, r2) && (c2 < c || (c2 == c && r2 <= r))
                                    implies ds@.contains(self.code_of(c2, r2) as i64) by {
                                if c2 == c && r2 == r {
                                } else {
                                    let i = choose|i: int|
                                        0 <= i < old_ds.len() && #[trigger] old_ds[i]
                                            == self.code_of(c2, r2) as i64;
                                    assert(ds@[i] == self.code_of(c2, r2) as i64);
                                }
                            }
                        }
                    } else {
                        proof {
                            assert(!self.admissible(state@, c as int, r as int));
                        }
                    }
                    r = r + 1;
                }
                proof {
                    assert(c * self.nr() + self.nr() == (c + 1) * self.nr()) by (nonlinear_arith);
                }
            } else {
                proof {
                    assert(c * self.nr() <= (c + 1) * self.nr()) by (nonlinear_arith)
                        requires
                            self.nr() >= 0,
                    ;
                    assert(forall|t: int|
                        0 <= t < ds@.len() ==> 0 <= #[trigger] ds@[t] < (c + 1) * self.nr());
                }
            }
            c = c + 1;
        }
        if ds.len() == 0 {
            if !self.is_terminal(state) {
                proof {
                    assert(!self.has_admissible(state@)) by {
                        if self.has_admissible(state@) {
                            let (c0, r0) = choose|c0: int, r0: int|
                                self.admissible(state@, c0, r0);
                            assert(ds@.contains(self.code_of(c0, r0) as i64));
                        }
                    }
                }
                proof {
                    lemma_sum_rem_nonneg(state@.rem);
                }
                ds.push(-1);
                proof {
                    assert(ds@[0] == -1i64);
                }
                return ds;
            }
            proof {
                assert(forall|c0: int, r0: int|
                    self.admissible(state@, c0, r0) ==> ds@.contains(
                        self.code_of(c0, r0) as i64,
                    ));
            }
        }
        proof {
            if self.has_admissible(state@) {
                let (c0, r0) = choose|c0: int, r0: int| self.admissible(state@, c0, r0);
                assert(ds@.contains(self.code_of(c0, r0) as i64));
                assert(!ds@.contains(-1i64)) by {
                    assert(forall|t: int| 0 <= t < ds@.len() ==> ds@[t] >= 0);
                }
            } else {
                if sum_rem(state@.rem) > 0 {
                    assert(ds@.len() > 0 ==> false) by {
                        if ds@.len() > 0 {
                            assert(self.valid_code(state@, ds@[0] as int));
                        }
                    }
                }
                assert(!ds@.contains(-1i64) ==> !(sum_rem(state@.rem) > 0)) by {
                    if ds@.len() == 0 {
                    }
                }
            }
        }
        ds
    }

    /// Applies one decision code: the mathematical `step`, executably.
    pub fn transition(&self, state: &AlpState, d: i64) -> (s2: AlpState)
        requires
            self.wf(),
            self.st_wf(state@),
            d == -1 || self.valid_code(state@, d as int),
        ensures
            s2@ == self.step(state@, d as int),
            self.st_wf(s2@),
            d != -1 ==> sum_rem(s2@.rem) == sum_rem(state@.rem) - 1,
    {
        let mut rem: Vec<usize> = Vec::new();
        let mut i: usize = 0;
        let kk = state.rem.len();
        while i < kk
            invariant
                i <= kk,
                kk == state@.rem.len(),
                rem@.len() == i,
                forall|t: int| 0 <= t < i ==> #[trigger] rem@[t] == state@.rem[t],
            decreases kk - i,
        {
            rem.push(state.rem[i]);
            i = i + 1;
        }
        let mut info: Vec<RunwayState> = Vec::new();
        let mut i: usize = 0;
        let rr = state.info.len();
        while i < rr
            invariant
                i <= rr,
                rr == state@.info.len(),
                info@.len() == i,
                forall|t: int| 0 <= t < i ==> #[trigger] info@[t] == state@.info[t],
            decreases rr - i,
        {
            info.push(state.info[i]);
            i = i + 1;
        }
        if d < 0 {
            let s2 = AlpState { rem, info };
            proof {
                assert(s2@.rem =~= state@.rem);
                assert(s2@.info =~= state@.info);
            }
            s2
        } else {
            proof {
                self.lemma_valid_code_range(state@, d as int);
            }
            let dec = self.from_decision(d);
            let c = dec.class;
            let r = dec.runway;
            let a = self.next[c][state.rem[c] - 1];
            let t = self.get_arrival_time(&state.info, a, r);
            proof {
                lemma_sum_rem_update_dec(state@.rem, c as int);
                assert(t <= self.instance.latest@[a as int]);
            }
            rem.set(c, state.rem[c] - 1);
            info.set(r, RunwayState { prev_time: t, prev_class: self.instance.classes[a] as i64 });
            let s2 = AlpState { rem, info };
            proof {
                assert(s2@.rem =~= self.step(state@, d as int).rem);
                assert(s2@.info =~= self.step(state@, d as int).info);
            }
            s2
        }
    }

    /// The reward of one decision code: the mathematical `step_cost`,
    /// executably.
    pub fn transition_cost(&self, state: &AlpState, d: i64) -> (cost: i64)
        requires
            self.wf(),
            self.st_wf(state@),
            d == -1 || self.valid_code(state@, d as int),
        ensures
            cost == self.step_cost(state@, d as int),
            d != -1 ==> -2 * MAX_TIME <= cost <= 0,
    {
        if d < 0 {
            INFEASIBLE_PENALTY
        } else {
            proof {
                self.lemma_valid_code_range(state@, d as int);
            }
            let dec = self.from_decision(d);
            let a = self.next[dec.class][state.rem[dec.class] - 1];
            let t = self.get_arrival_time(&state.info, a, dec.runway);
            proof {
                assert(t >= self.instance.target@[a as int]);
            }
            self.instance.target[a] - t
        }
    }
}

} // verus!

//! The compression engine: given a clustering of the aircraft classes into
//! meta classes, builds the meta problem whose separations lower-bound the
//! original ones, and projects original states and decisions onto it.
//!
//! The clustering itself (k-means over the rows of the separation matrix)
//! draws on floating-point arithmetic and is performed by the caller; this
//! module takes the resulting membership vector as input.

use vstd::prelude::*;
use crate::instance::{AlpInstance, MAX_TIME};
use crate::model::{Alp, AlpState, GState, RunwayState, cnt_class, sum_prev_times};

verus! {

/// A class-to-meta-class assignment: one meta class below `m` per class.
pub open spec fn membership_wf(membership: Seq<usize>, k: int, m: int) -> bool {
    &&& membership.len() == k
    &&& 1 <= m <= k
    &&& forall|c: int| 0 <= c < k ==> #[trigger] membership[c] < m
}

/// The classes of the meta instance: each aircraft keeps its index and gets
/// the meta class of its original class.
pub open spec fn meta_classes_of(classes: Seq<usize>, membership: Seq<usize>) -> Seq<usize> {
    Seq::new(classes.len(), |i: int| membership[classes[i] as int])
}

/// The remaining count of a projected state for meta class `m`: the sum of
/// the remaining counts of the original classes assigned to `m`.
pub open spec fn grouped_rem(rem: Seq<usize>, membership: Seq<usize>, m: int) -> int
    decreases rem.len(),
{
    if rem.len() == 0 {
        0
    } else {
        (if membership[0] == m {
            rem[0] as int
        } else {
            0int
        }) + grouped_rem(rem.drop_first(), membership.drop_first(), m)
    }
}

/// The image of a state under the projection onto `m` meta classes:
/// remaining counts grouped by meta class, runway times kept, runway classes
/// mapped through the membership.
pub open spec fn projected(g: GState, membership: Seq<usize>, m: int) -> GState {
    GState {
        rem: Seq::new(m as nat, |mm: int| grouped_rem(g.rem, membership, mm) as usize),
        info: Seq::new(
            g.info.len(),
            |r: int|
                RunwayState {
                    prev_time: g.info[r].prev_time,
                    prev_class: if g.info[r].prev_class == -1 {
                        -1i64
                    } else {
                        membership[g.info[r].prev_class as int] as i64
                    },
                },
        ),
    }
}

/// Some pair of classes assigned to `(a, b)` has separation `v`.
pub open spec fn is_pair_sep(
    sep: Seq<Vec<i64>>,
    membership: Seq<usize>,
    a: int,
    b: int,
    v: int,
) -> bool {
    exists|c1: int, c2: int|
        0 <= c1 < membership.len() && 0 <= c2 < membership.len() && membership[c1] == a
            && membership[c2] == b && v == #[trigger] sep[c1]@[c2]
}

pub proof fn lemma_grouped_rem_nonneg(rem: Seq<usize>, membership: Seq<usize>, m: int)
    ensures
        grouped_rem(rem, membership, m) >= 0,
    decreases rem.len(),
{
    if rem.len() > 0 {
        lemma_grouped_rem_nonneg(rem.drop_first(), membership.drop_first(), m);
    }
}

pub proof fn lemma_grouped_rem_monotone(
    rem1: Seq<usize>,
    rem2: Seq<usize>,
    membership: Seq<usize>,
    m: int,
)
    requires
        rem1.len() == rem2.len(),
        forall|c: int| 0 <= c < rem1.len() ==> #[trigger] rem1[c] <= rem2[c],
    ensures
        grouped_rem(rem1, membership, m) <= grouped_rem(rem2, membership, m),
    decreases rem1.len(),
{
    if rem1.len() > 0 {
        assert(forall|c: int|
            0 <= c < rem1.drop_first().len() ==> #[trigger] rem1.drop_first()[c] == rem1[c + 1]
                && rem2.drop_first()[c] == rem2[c + 1]);
        lemma_grouped_rem_monotone(rem1.drop_first(), rem2.drop_first(), membership.drop_first(), m);
    }
}

pub proof fn lemma_grouped_rem_all_zero(rem: Seq<usize>, membership: Seq<usize>, m: int)
    requires
        forall|c: int| 0 <= c < rem.len() ==> rem[c] == 0,
    ensures
        grouped_rem(rem, membership, m) == 0,
    decreases rem.len(),
{
    if rem.len() > 0 {
        assert(forall|c: int|
            0 <= c < rem.drop_first().len() ==> rem.drop_first()[c] == rem[c + 1]);
        lemma_grouped_rem_all_zero(rem.drop_first(), membership.drop_first(), m);
    }
}

/// Raising one entry of `rem` by one raises the grouped count of its meta
/// class by one, and no other.
pub proof fn lemma_grouped_rem_update_inc(
    rem: Seq<usize>,
    membership: Seq<usize>,
    m: int,
    x: int,
)
    requires
        0 <= x < rem.len(),
        rem.len() == membership.len(),
        rem[x] < usize::MAX,
    ensures
        grouped_rem(rem.update(x, (rem[x] + 1) as usize), membership, m) == grouped_rem(
            rem,
            membership,
            m,
        ) + (if membership[x] == m {
            1int
        } else {
            0int
        }),
    decreases x,
{
    let r2 = rem.update(x, (rem[x] + 1) as usize);
    if x == 0 {
        assert(r2.drop_first() =~= rem.drop_first());
    } else {
        assert(r2.drop_first() =~= rem.drop_first().update(x - 1, (rem[x] + 1) as usize));
        lemma_grouped_rem_update_inc(rem.drop_first(), membership.drop_first(), m, x - 1);
    }
}

/// With full per-class counts, the grouped count of meta class `m` is the
/// number of aircraft whose meta class is `m`.
pub proof fn lemma_grouped_counts_eq_meta_cnt(
    classes: Seq<usize>,
    membership: Seq<usize>,
    k: int,
    m: int,
)
    requires
        membership.len() == k,
        forall|i: int| 0 <= i < classes.len() ==> #[trigger] classes[i] < k,
        classes.len() <= 100_000,
    ensures
        grouped_rem(
            Seq::new(k as nat, |c: int| cnt_class(classes, c) as usize),
            membership,
            m,
        ) == cnt_class(meta_classes_of(classes, membership), m),
    decreases classes.len(),
{
    let counts = Seq::new(k as nat, |c: int| cnt_class(classes, c) as usize);
    let meta = meta_classes_of(classes, membership);
    if classes.len() == 0 {
        assert forall|c: int| 0 <= c < k implies counts[c] == 0 by {
            crate::model::lemma_cnt_class_le_len(classes, c);
        }
        lemma_grouped_rem_all_zero(counts, membership, m);
    } else {
        let rest = classes.drop_first();
        let x = classes[0] as int;
        let counts_rest = Seq::new(k as nat, |c: int| cnt_class(rest, c) as usize);
        lemma_grouped_counts_eq_meta_cnt(rest, membership, k, m);
        assert(meta.drop_first() =~= meta_classes_of(rest, membership));
        assert(meta[0] == membership[x]);
        assert forall|c: int| 0 <= c < k implies 0 <= #[trigger] cnt_class(rest, c)
            <= rest.len() by {
            crate::model::lemma_cnt_class_le_len(rest, c);
        }
        assert(counts =~= counts_rest.update(x, (counts_rest[x] + 1) as usize));
        lemma_grouped_rem_update_inc(counts_rest, membership, m, x);
    }
}

/// Holds the original problem beside the meta problem derived from a class
/// clustering, with the class and decision maps between them.
pub struct AlpCompression {
    pub problem: Alp,
    pub meta_problem: Alp,
    pub class_membership: Vec<usize>,
    /// Position `c * nb_runways + r` holds the code of the meta decision that
    /// the original decision `(c, r)` maps to. The sentinel maps to itself
    /// and is handled by `map_decision` directly.
    pub decision_membership: Vec<i64>,
}

impl AlpCompression {
    /// All the relations that construction establishes between the original
    /// problem, the membership vector, and the meta problem.
    pub open spec fn wf(&self) -> bool {
        &&& self.problem.wf()
        &&& self.meta_problem.wf()
        &&& membership_wf(self.class_membership@, self.problem.k(), self.meta_problem.k())
        &&& self.meta_problem.n() == self.problem.n()
        &&& self.meta_problem.nr() == self.problem.nr()
        &&& self.meta_problem.instance.target@ == self.problem.instance.target@
        &&& self.meta_problem.instance.latest@ == self.problem.instance.latest@
        &&& self.meta_problem.instance.classes@ == meta_classes_of(
            self.problem.instance.classes@,
            self.class_membership@,
        )
        &&& forall|a: int|
            0 <= a < self.meta_problem.k() ==> #[trigger] self.meta_problem.instance.separation@[a]@[a]
                == 0
        &&& forall|a: int, b: int, c1: int, c2: int|
            #![trigger self.meta_problem.instance.separation@[a]@[b], self.problem.instance.separation@[c1]@[c2]]
            0 <= a < self.meta_problem.k() && 0 <= b < self.meta_problem.k() && a != b && 0 <= c1
                < self.problem.k() && 0 <= c2 < self.problem.k() && self.class_membership@[c1] == a
                && self.class_membership@[c2] == b
                ==> self.meta_problem.instance.separation@[a]@[b]
                <= self.problem.instance.separation@[c1]@[c2]
        &&& forall|a: int, b: int|
            0 <= a < self.meta_problem.k() && 0 <= b < self.meta_problem.k() && a != b
                ==> (#[trigger] self.meta_problem.instance.separation@[a]@[b] == MAX_TIME
                || is_pair_sep(
                self.problem.instance.separation@,
                self.class_membership@,
                a,
                b,
                self.meta_problem.instance.separation@[a]@[b] as int,
            ))
        &&& self.decision_membership@.len() == self.problem.k() * self.problem.nr()
        &&& forall|t: int|
            0 <= t < self.decision_membership@.len() ==> #[trigger] self.decision_membership@[t]
                == self.class_membership@[t / self.problem.nr()] * self.problem.nr() + t
                % self.problem.nr()
    }

    /// Remaps the classes of the instance through the membership vector.
    pub fn compute_meta_classes(pb: &Alp, membership: &Vec<usize>) -> (r: Vec<usize>)
        requires
            pb.wf(),
            membership@.len() == pb.k(),
        ensures
            r@ == meta_classes_of(pb.instance.classes@, membership@),
    {
        let n = pb.instance.nb_aircrafts;
        let mut r: Vec<usize> = Vec::new();
        let mut i: usize = 0;
        while i < n
            invariant
                i <= n,
                n == pb.n(),
                pb.wf(),
                membership@.len() == pb.k(),
                r@.len() == i,
                forall|t: int|
                    0 <= t < i ==> #[trigger] r@[t] == membership@[pb.instance.classes@[t] as int],
            decreases n - i,
        {
            r.push(membership[pb.instance.classes[i]]);
            i = i + 1;
        }
        proof {
            assert(r@ =~= meta_classes_of(pb.instance.classes@, membership@));
        }
        r
    }

    /// The meta separation matrix: the minimum separation over all pairs of
    /// classes assigned to a pair of meta classes, with the diagonal forced
    /// to zero and pairs of meta classes that no class pair reaches kept at
    /// the largest admissible separation. A lower bound of the original
    /// separations, so bounds derived from the meta problem stay admissible.
    #[verifier::loop_isolation(false)]
    pub fn compute_meta_separation(pb: &Alp, membership: &Vec<usize>, n_meta_classes: usize) -> (r:
        Vec<Vec<i64>>)
        requires
            pb.wf(),
            membership_wf(membership@, pb.k(), n_meta_classes as int),
        ensures
            r@.len() == n_meta_classes,
            forall|a: int| 0 <= a < n_meta_classes ==> #[trigger] r@[a]@.len() == n_meta_classes,
            forall|a: int| 0 <= a < n_meta_classes ==> #[trigger] r@[a]@[a] == 0,
            forall|a: int, b: int|
                0 <= a < n_meta_classes && 0 <= b < n_meta_classes ==> 0 <= #[trigger] r@[a]@[b]
                    <= MAX_TIME,
            forall|a: int, b: int, c1: int, c2: int|
                #![trigger r@[a]@[b], membership@[c1], membership@[c2]]
                0 <= a < n_meta_classes && 0 <= b < n_meta_classes && a != b && 0 <= c1 < pb.k()
                    && 0 <= c2 < pb.k() && membership@[c1] == a && membership@[c2] == b
                    ==> r@[a]@[b] <= pb.instance.separation@[c1]@[c2],
            forall|a: int, b: int|
                0 <= a < n_meta_classes && 0 <= b < n_meta_classes && a != b ==> (#[trigger] r@[a]@[b]
                    == MAX_TIME || is_pair_sep(
                    pb.instance.separation@,
                    membership@,
                    a,
                    b,
                    r@[a]@[b] as int,
                )),
    {
        let k = pb.instance.nb_classes;
        let m = n_meta_classes;
        let mut r: Vec<Vec<i64>> = Vec::new();
        let mut a: usize = 0;
        while a < m
            invariant
                a <= m,
                r@.len() == a,
                forall|a2: int| 0 <= a2 < a ==> #[trigger] r@[a2]@.len() == m,
                forall|a2: int| 0 <= a2 < a ==> #[trigger] r@[a2]@[a2] == 0,
                forall|a2: int, b: int|
                    0 <= a2 < a && 0 <= b < m ==> 0 <= #[trigger] r@[a2]@[b] <= MAX_TIME,
                forall|a2: int, b: int, c1: int, c2: int|
                    #![trigger r@[a2]@[b], membership@[c1], membership@[c2]]
                    0 <= a2 < a && 0 <= b < m && a2 != b && 0 <= c1 < pb.k() && 0 <= c2 < pb.k()
                        && membership@[c1] == a2 && membership@[c2] == b ==> r@[a2]@[b]
                        <= pb.instance.separation@[c1]@[c2],
                forall|a2: int, b: int|
                    0 <= a2 < a && 0 <= b < m && a2 != b ==> (#[trigger] r@[a2]@[b] == MAX_TIME
                        || is_pair_sep(
                        pb.instance.separation@,
                        membership@,
                        a2,
                        b,
                        r@[a2]@[b] as int,
                    )),
            decreases m - a,
        {
            let mut row: Vec<i64> = Vec::new();
            let mut b: usize = 0;
            while b < m
                invariant
                    b <= m,
                    row@.len() == b,
                    forall|b2: int| 0 <= b2 < b && b2 == a ==> #[trigger] row@[b2] == 0,
                    forall|b2: int| 0 <= b2 < b ==> 0 <= #[trigger] row@[b2] <= MAX_TIME,
                    forall|b2: int, c1: int, c2: int|
                        #![trigger row@[b2], membership@[c1], membership@[c2]]
                        0 <= b2 < b && b2 != a && 0 <= c1 < pb.k() && 0 <= c2 < pb.k()
                            && membership@[c1] == a && membership@[c2] == b2 ==> row@[b2]
                            <= pb.instance.separation@[c1]@[c2],
                    forall|b2: int|
                        0 <= b2 < b && b2 != a ==> (#[trigger] row@[b2] == MAX_TIME || is_pair_sep(
                            pb.instance.separation@,
                            membership@,
                            a as int,
                            b2,
                            row@[b2] as int,
                        )),
                decreases m - b,
            {
                if b == a {
                    row.push(0);
                } else {
                    let mut cur: i64 = MAX_TIME;
                    let mut c1: usize = 0;
                    while c1 < k
                        invariant
                            c1 <= k,
                            0 <= cur <= MAX_TIME,
                            b != a,
                            b < m,
                            forall|d1: int, d2: int|
                                #![trigger membership@[d1], membership@[d2]]
                                0 <= d1 < c1 && 0 <= d2 < pb.k() && membership@[d1] == a as int
                                    && membership@[d2] == b as int ==> cur
                                    <= pb.instance.separation@[d1]@[d2],
                            cur == MAX_TIME || is_pair_sep(
                                pb.instance.separation@,
                                membership@,
                                a as int,
                                b as int,
                                cur as int,
                            ),
                        decreases k - c1,
                    {
                        if membership[c1] == a {
                            let mut c2: usize = 0;
                            while c2 < k
                                invariant
                                    c2 <= k,
                                    c1 < k,
                                    0 <= cur <= MAX_TIME,
                                    b != a,
                                    b < m,
                                    membership@[c1 as int] == a as int,
                                    forall|d1: int, d2: int|
                                        #![trigger membership@[d1], membership@[d2]]
                                        0 <= d1 < c1 && 0 <= d2 < pb.k() && membership@[d1]
                                            == a as int && membership@[d2] == b as int ==> cur
                                            <= pb.instance.separation@[d1]@[d2],
                                    forall|d2: int|
                                        0 <= d2 < c2 && #[trigger] membership@[d2] == b as int
                                            ==> cur <= pb.instance.separation@[c1 as int]@[d2],
                                    cur == MAX_TIME || is_pair_sep(
                                        pb.instance.separation@,
                                        membership@,
                                        a as int,
                                        b as int,
                                        cur as int,
                                    ),
                                decreases k - c2,
                            {
                                if membership[c2] == b {
                                    let s = pb.instance.separation[c1][c2];
                                    if s < cur {
                                        cur = s;
                                        proof {
                                            assert(is_pair_sep(
                                                pb.instance.separation@,
                                                membership@,
                                                a as int,
                                                b as int,
                                                cur as int,
                                            )) by {
                                                assert(membership@[c1 as int] == a as int
                                                    && membership@[c2 as int] == b as int && cur
                                                    == pb.instance.separation@[c1 as int]@[c2 as int]);
                                            }
                                        }
                                    }
                                }
                                c2 = c2 + 1;
                            }
                        }
                        c1 = c1 + 1;
                    }
                    row.push(cur);
                }
                b = b + 1;
            }
            r.push(row);
            a = a + 1;
        }
        r
    }

    /// Builds the compression from a membership vector (one meta class per
    /// original class, as produced by clustering the separation rows).
    pub fn new(problem: Alp, n_meta_classes: usize, class_membership: Vec<usize>) -> (r:
        AlpCompression)
        requires
            problem.wf(),
            membership_wf(class_membership@, problem.k(), n_meta_classes as int),
        ensures
            r.wf(),
            r.problem == problem,
            r.class_membership == class_membership,
            r.meta_problem.k() == n_meta_classes,
    {
        let classes = Self::compute_meta_classes(&problem, &class_membership);
        let separation = Self::compute_meta_separation(&problem, &class_membership, n_meta_classes);

        let mut target: Vec<i64> = Vec::new();
        let mut i: usize = 0;
        let n = problem.instance.nb_aircrafts;
        while i < n
            invariant
                i <= n,
                n == problem.n(),
                problem.wf(),
                target@.len() == i,
                forall|t: int| 0 <= t < i ==> #[trigger] target@[t] == problem.instance.target@[t],
            decreases n - i,
        {
            target.push(problem.instance.target[i]);
            i = i + 1;
        }
        let mut latest: Vec<i64> = Vec::new();
        let mut i: usize = 0;
        while i < n
            invariant
                i <= n,
                n == problem.n(),
                problem.wf(),
                latest@.len() == i,
                forall|t: int| 0 <= t < i ==> #[trigger] latest@[t] == problem.instance.latest@[t],
            decreases n - i,
        {
            latest.push(problem.instance.latest[i]);
            i = i + 1;
        }

        let meta_instance = AlpInstance {
            nb_classes: n_meta_classes,
            nb_aircrafts: problem.instance.nb_aircrafts,
            nb_runways: problem.instance.nb_runways,
            classes,
            target,
            latest,
            separation,
        };
        proof {
            assert(meta_instance.target@ =~= problem.instance.target@);
            assert(meta_instance.latest@ =~= problem.instance.latest@);
            assert(meta_instance.wf());
        }
        let meta_problem = Alp::new(meta_instance);

        let k = problem.instance.nb_classes;
        let nr = problem.instance.nb_runways;
        let mut decision_membership: Vec<i64> = Vec::new();
        let mut c: usize = 0;
        while c < k
            invariant
                c <= k,
                k == problem.k(),
                nr == problem.nr(),
                problem.wf(),
                membership_wf(class_membership@, problem.k(), n_meta_classes as int),
                decision_membership@.len() == c * nr,
                forall|t: int|
                    0 <= t < decision_membership@.len() ==> #[trigger] decision_membership@[t]
                        == class_membership@[t / (nr as int)] * nr + t % (nr as int),
            decreases k - c,
        {
            let mut rw: usize = 0;
            while rw < nr
                invariant
                    rw <= nr,
                    c < k,
                    k == problem.k(),
                    nr == problem.nr(),
                    problem.wf(),
                    membership_wf(class_membership@, problem.k(), n_meta_classes as int),
                    decision_membership@.len() == c * nr + rw,
                    forall|t: int|
                        0 <= t < decision_membership@.len() ==> #[trigger] decision_membership@[t]
                            == class_membership@[t / (nr as int)] * nr + t % (nr as int),
                decreases nr - rw,
            {
                proof {
                    assert(c * nr + rw < 1_000_000 && class_membership@[c as int] * nr + rw
                        < 1_000_000) by (nonlinear_arith)
                        requires
                            0 <= c < 1000,
                            0 <= nr <= 1000,
                            0 <= rw < nr,
                            0 <= class_membership@[c as int] < 1000,
                    ;
                    vstd::arithmetic::div_mod::lemma_fundamental_div_mod_converse(
                        c * nr + rw,
                        nr as int,
                        c as int,
                        rw as int,
                    );
                }
                decision_membership.push((class_membership[c] * nr + rw) as i64);
                rw = rw + 1;
            }
            proof {
                assert(c * nr + nr == (c + 1) * nr) by (nonlinear_arith);
            }
            c = c + 1;
        }

        AlpCompression { problem, meta_problem, class_membership, decision_membership }
    }

    /// Projects an original state onto the meta problem: remaining counts
    /// are grouped by meta class, runway histories keep their times and map
    /// their classes.
    #[verifier::loop_isolation(false)]
    pub fn compress(&self, state: &AlpState) -> (cs: AlpState)
        requires
            self.wf(),
            self.problem.st_wf(state@),
        ensures
            self.meta_problem.st_wf(cs@),
            cs@ == projected(state@, self.class_membership@, self.meta_problem.k()),
            cs@.rem.len() == self.meta_problem.k(),
            forall|m: int|
                0 <= m < self.meta_problem.k() ==> #[trigger] cs@.rem[m] == grouped_rem(
                    state@.rem,
                    self.class_membership@,
                    m,
                ),
            cs@.info.len() == state@.info.len(),
            forall|r: int|
                0 <= r < state@.info.len() ==> #[trigger] cs@.info[r].prev_time
                    == state@.info[r].prev_time,
            forall|r: int|
                0 <= r < state@.info.len() ==> #[trigger] cs@.info[r].prev_class == (
                if state@.info[r].prev_class == -1 {
                    -1int
                } else {
                    self.class_membership@[state@.info[r].prev_class as int] as int
                }),
    {
        let m = self.meta_problem.instance.nb_classes;
        let k = self.problem.instance.nb_classes;
        let mut rem: Vec<usize> = Vec::new();
        let mut mm: usize = 0;
        while mm < m
            invariant
                mm <= m,
                m == self.meta_problem.k(),
                self.wf(),
                self.problem.st_wf(state@),
                rem@.len() == mm,
                forall|t: int|
                    0 <= t < mm ==> #[trigger] rem@[t] == grouped_rem(
                        state@.rem,
                        self.class_membership@,
                        t,
                    ),
            decreases m - mm,
        {
            let mut acc: usize = 0;
            let mut c: usize = 0;
            proof {
                assert(state@.rem.take(0) =~= Seq::<usize>::empty());
            }
            while c < k
                invariant
                    c <= k,
                    k == self.problem.k(),
                    mm < m,
                    m == self.meta_problem.k(),
                    self.wf(),
                    self.problem.st_wf(state@),
                    acc == grouped_rem(
                        state@.rem.take(c as int),
                        self.class_membership@.take(c as int),
                        mm as int,
                    ),
                    acc <= c * 10_000,
                decreases k - c,
            {
                proof {
                    lemma_grouped_rem_take_step(
                        state@.rem,
                        self.class_membership@,
                        mm as int,
                        c as int,
                    );
                    crate::model::lemma_cnt_class_le_len(
                        self.problem.instance.classes@,
                        c as int,
                    );
                    assert(c * 10_000 + 10_000 == (c + 1) * 10_000) by (nonlinear_arith);
                    assert(c * 10_000 <= 1000 * 10_000) by (nonlinear_arith)
                        requires
                            0 <= c <= 1000,
                    ;
                }
                if self.class_membership[c] == mm {
                    acc = acc + state.rem[c];
                }
                c = c + 1;
            }
            proof {
                assert(state@.rem.take(k as int) =~= state@.rem);
                assert(self.class_membership@.take(k as int) =~= self.class_membership@);
            }
            rem.push(acc);
            mm = mm + 1;
        }
        let mut info: Vec<RunwayState> = Vec::new();
        let mut r: usize = 0;
        let nr = state.info.len();
        while r < nr
            invariant
                r <= nr,
                nr == state@.info.len(),
                self.wf(),
                self.problem.st_wf(state@),
                info@.len() == r,
                forall|t: int|
                    0 <= t < r ==> #[trigger] info@[t].prev_time == state@.info[t].prev_time,
                forall|t: int|
                    0 <= t < r ==> #[trigger] info@[t].prev_class == (
                    if state@.info[t].prev_class == -1 {
                        -1int
                    } else {
                        self.class_membership@[state@.info[t].prev_class as int] as int
                    }),
            decreases nr - r,
        {
            let rs = state.info[r];
            if rs.prev_class < 0 {
                info.push(RunwayState { prev_time: rs.prev_time, prev_class: -1 });
            } else {
                info.push(
                    RunwayState {
                        prev_time: rs.prev_time,
                        prev_class: self.class_membership[rs.prev_class as usize] as i64,
                    },
                );
            }
            r = r + 1;
        }
        let cs = AlpState { rem, info };
        proof {
            assert forall|mm2: int| 0 <= mm2 < self.meta_problem.k() implies #[trigger] cs@.rem[mm2]
                <= cnt_class(self.meta_problem.instance.classes@, mm2) by {
                lemma_grouped_rem_le_meta_cnt(
                    state@.rem,
                    self.class_membership@,
                    self.problem.instance.classes@,
                    self.problem.k(),
                    mm2,
                );
            }
            let proj = projected(state@, self.class_membership@, self.meta_problem.k());
            assert forall|mm2: int| 0 <= mm2 < self.meta_problem.k() implies #[trigger] cs@.rem[mm2]
                == proj.rem[mm2] by {
                lemma_grouped_rem_nonneg(state@.rem, self.class_membership@, mm2);
            }
            assert(cs@.rem =~= proj.rem);
            assert forall|r2: int| 0 <= r2 < state@.info.len() implies #[trigger] cs@.info[r2]
                == proj.info[r2] by {
                if state@.info[r2].prev_class != -1 {
                    assert(self.class_membership@[state@.info[r2].prev_class as int]
                        < self.meta_problem.k());
                }
                assert(cs@.info[r2].prev_time == proj.info[r2].prev_time);
                assert(cs@.info[r2].prev_class == proj.info[r2].prev_class);
            }
            assert(cs@.info =~= proj.info);
        }
        cs
    }

    /// Hands a solution of the meta problem back unchanged: meta decisions
    /// use the same runway indices and schedule the same aircraft positions.
    pub fn decompress(&self, solution: &Vec<i64>) -> (r: Vec<i64>)
        ensures
            r@ == solution@,
    {
        let mut r: Vec<i64> = Vec::new();
        let mut i: usize = 0;
        let n = solution.len();
        while i < n
            invariant
                i <= n,
                n == solution@.len(),
                r@.len() == i,
                forall|t: int| 0 <= t < i ==> #[trigger] r@[t] == solution@[t],
            decreases n - i,
        {
            r.push(solution[i]);
            i = i + 1;
        }
        proof {
            assert(r@ =~= solution@);
        }
        r
    }

    /// Maps an original decision code to its meta decision code: the class
    /// goes through the membership, the runway is kept, the sentinel maps to
    /// itself.
    pub fn map_decision(&self, d: i64) -> (md: i64)
        requires
            self.wf(),
            d == -1 || 0 <= d < self.problem.k() * self.problem.nr(),
        ensures
            d == -1 ==> md == -1,
            d >= 0 ==> md == self.class_membership@[d as int / self.problem.nr()]
                * self.problem.nr() + (d as int) % self.problem.nr(),
    {
        if d < 0 {
            -1
        } else {
            proof {
                assert(self.problem.k() * self.problem.nr() <= 1_000_000) by (nonlinear_arith)
                    requires
                        0 <= self.problem.k() <= 1000,
                        0 <= self.problem.nr() <= 1000,
                ;
            }
            self.decision_membership[d as usize]
        }
    }
}

/// Whether a decision code maps to the given meta decision code.
pub open spec fn prefers(membership: Seq<usize>, nr: int, preferred: int) -> spec_fn(i64) -> bool {
    |d: i64| membership[(d as int) / nr] * nr + (d as int) % nr == preferred
}

/// The complement of `prefers`.
pub open spec fn rejects(membership: Seq<usize>, nr: int, preferred: int) -> spec_fn(i64) -> bool {
    |d: i64| !(membership[(d as int) / nr] * nr + (d as int) % nr == preferred)
}

impl AlpCompression {
    /// Orders a list of decision codes so that those mapping to the meta
    /// decision `preferred` come first; both groups keep their given order.
    #[verifier::loop_isolation(false)]
    pub fn partition_by_meta(&self, decisions: &Vec<i64>, preferred: i64) -> (out: Vec<i64>)
        requires
            self.wf(),
            forall|t: int|
                0 <= t < decisions@.len() ==> 0 <= #[trigger] decisions@[t] < self.problem.k()
                    * self.problem.nr(),
        ensures
            out@ == decisions@.filter(
                prefers(self.class_membership@, self.problem.nr(), preferred as int),
            ) + decisions@.filter(
                rejects(self.class_membership@, self.problem.nr(), preferred as int),
            ),
    {
        let ghost pf = prefers(self.class_membership@, self.problem.nr(), preferred as int);
        let ghost npf = rejects(self.class_membership@, self.problem.nr(), preferred as int);
        let mut out: Vec<i64> = Vec::new();
        let n = decisions.len();
        let mut i: usize = 0;
        proof {
            reveal(Seq::filter);
            assert(decisions@.take(0) =~= Seq::<i64>::empty());
        }
        while i < n
            invariant
                i <= n,
                out@ == decisions@.take(i as int).filter(pf),
            decreases n - i,
        {
            let d = decisions[i];
            proof {
                reveal(Seq::filter);
                assert(decisions@.take(i as int + 1).drop_last() =~= decisions@.take(i as int));
                assert(decisions@.take(i as int + 1).last() == d);
            }
            if self.map_decision(d) == preferred {
                out.push(d);
            }
            i = i + 1;
        }
        let ghost first = out@;
        proof {
            assert(decisions@.take(n as int) =~= decisions@);
            assert(first + decisions@.take(0).filter(npf) =~= first) by {
                reveal(Seq::filter);
                assert(decisions@.take(0) =~= Seq::<i64>::empty());
            }
        }
        let mut i: usize = 0;
        while i < n
            invariant
                i <= n,
                out@ == first + decisions@.take(i as int).filter(npf),
            decreases n - i,
        {
            let d = decisions[i];
            proof {
                reveal(Seq::filter);
                assert(decisions@.take(i as int + 1).drop_last() =~= decisions@.take(i as int));
                assert(decisions@.take(i as int + 1).last() == d);
            }
            if self.map_decision(d) != preferred {
                proof {
                    assert((first + decisions@.take(i as int).filter(npf)).push(d) =~= first
                        + decisions@.take(i as int).filter(npf).push(d));
                }
                out.push(d);
            }
            i = i + 1;
        }
        proof {
            assert(decisions@.take(n as int) =~= decisions@);
        }
        out
    }
}

/// One step of the prefix recursion behind `compress`: extending the prefix
/// by class `c` adds its remaining count when its meta class matches.
pub proof fn lemma_grouped_rem_take_step(rem: Seq<usize>, membership: Seq<usize>, m: int, c: int)
    requires
        0 <= c < rem.len(),
        rem.len() == membership.len(),
    ensures
        grouped_rem(rem.take(c + 1), membership.take(c + 1), m) == grouped_rem(
            rem.take(c),
            membership.take(c),
            m,
        ) + (if membership[c] == m {
            rem[c] as int
        } else {
            0int
        }),
    decreases c,
{
    if c == 0 {
        assert(rem.take(1).drop_first() =~= Seq::<usize>::empty());
        assert(rem.take(1)[0] == rem[0]);
        assert(membership.take(1)[0] == membership[0]);
        assert(grouped_rem(rem.take(1).drop_first(), membership.take(1).drop_first(), m) == 0);
        assert(grouped_rem(rem.take(0), membership.take(0), m) == 0);
    } else {
        let rd = rem.drop_first();
        let md = membership.drop_first();
        assert(rem.take(c + 1).drop_first() =~= rd.take(c));
        assert(membership.take(c + 1).drop_first() =~= md.take(c));
        assert(rem.take(c).drop_first() =~= rd.take(c - 1));
        assert(membership.take(c).drop_first() =~= md.take(c - 1));
        lemma_grouped_rem_take_step(rd, md, m, c - 1);
        assert(rem.take(c + 1)[0] == rem[0]);
        assert(rem.take(c)[0] == rem[0]);
        assert(membership.take(c + 1)[0] == membership[0]);
        assert(membership.take(c)[0] == membership[0]);
        assert(rd[c - 1] == rem[c]);
        assert(md[c - 1] == membership[c]);
        assert(grouped_rem(rem.take(c + 1), membership.take(c + 1), m) == (
        if membership.take(c + 1)[0] == m {
            rem.take(c + 1)[0] as int
        } else {
            0int
        }) + grouped_rem(rd.take(c), md.take(c), m));
        assert(grouped_rem(rem.take(c), membership.take(c), m) == (
        if membership.take(c)[0] == m {
            rem.take(c)[0] as int
        } else {
            0int
        }) + grouped_rem(rd.take(c - 1), md.take(c - 1), m));
    }
}

/// A projected remaining count never exceeds the meta problem's class count:
/// the projection of a well-formed state is well-formed for the meta problem.
pub proof fn lemma_grouped_rem_le_meta_cnt(
    rem: Seq<usize>,
    membership: Seq<usize>,
    classes: Seq<usize>,
    k: int,
    m: int,
)
    requires
        rem.len() == k,
        membership.len() == k,
        forall|i: int| 0 <= i < classes.len() ==> #[trigger] classes[i] < k,
        forall|c: int| 0 <= c < k ==> #[trigger] rem[c] <= cnt_class(classes, c),
        classes.len() <= 100_000,
    ensures
        grouped_rem(rem, membership, m) <= cnt_class(meta_classes_of(classes, membership), m),
{
    let counts = Seq::new(k as nat, |c: int| cnt_class(classes, c) as usize);
    assert forall|c: int| 0 <= c < k implies #[trigger] rem[c] <= counts[c] by {
        crate::model::lemma_cnt_class_le_len(classes, c);
    }
    lemma_grouped_rem_monotone(rem, counts, membership, m);
    lemma_grouped_counts_eq_meta_cnt(classes, membership, k, m);
}

} // verus!

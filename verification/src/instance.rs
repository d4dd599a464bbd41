//! The input data record of an aircraft landing problem instance, together
//! with its well-formedness conditions and a validation routine.

use vstd::prelude::*;

verus! {

/// Upper bound on every time value (target, latest, separation entry) that a
/// well-formed instance may hold. Keeps all schedule arithmetic inside i64.
pub const MAX_TIME: i64 = 100_000_000;

/// Largest number of aircraft a well-formed instance may declare.
pub const MAX_AIRCRAFT: usize = 10_000;

/// Largest number of runways a well-formed instance may declare.
pub const MAX_RUNWAYS: usize = 1_000;

/// Largest number of aircraft classes a well-formed instance may declare.
pub const MAX_CLASSES: usize = 1_000;

/// An immutable description of one aircraft landing problem: `nb_aircrafts`
/// aircraft, each with a class in `[0, nb_classes)`, a target landing time
/// and a latest landing time, plus a class-to-class minimum separation
/// matrix. Runways are interchangeable; only their number matters.
#[derive(Clone, Debug)]
pub struct AlpInstance {
    pub nb_classes: usize,
    pub nb_aircrafts: usize,
    pub nb_runways: usize,
    pub classes: Vec<usize>,
    pub target: Vec<i64>,
    pub latest: Vec<i64>,
    pub separation: Vec<Vec<i64>>,
}

impl AlpInstance {
    /// Structural well-formedness: positive counts within the machine
    /// limits, matching vector lengths, classes in range, and every time
    /// value non-negative, bounded, with `latest` at or after `target`.
    pub open spec fn wf(&self) -> bool {
        &&& 1 <= self.nb_classes <= MAX_CLASSES
        &&& 1 <= self.nb_aircrafts <= MAX_AIRCRAFT
        &&& 1 <= self.nb_runways <= MAX_RUNWAYS
        &&& self.classes@.len() == self.nb_aircrafts
        &&& self.target@.len() == self.nb_aircrafts
        &&& self.latest@.len() == self.nb_aircrafts
        &&& self.separation@.len() == self.nb_classes
        &&& forall|i: int|
            0 <= i < self.nb_aircrafts ==> #[trigger] self.classes@[i] < self.nb_classes
        &&& forall|i: int|
            0 <= i < self.nb_aircrafts
                ==> 0 <= #[trigger] self.target@[i] <= self.latest@[i] <= MAX_TIME
        &&& forall|c: int|
            0 <= c < self.nb_classes ==> #[trigger] self.separation@[c]@.len() == self.nb_classes
        &&& forall|a: int, b: int|
            0 <= a < self.nb_classes && 0 <= b < self.nb_classes
                ==> 0 <= #[trigger] self.separation@[a]@[b] <= MAX_TIME
    }

    /// Target times never decrease with the aircraft index.
    pub open spec fn targets_sorted(&self) -> bool {
        forall|i: int|
            0 <= i && i + 1 < self.nb_aircrafts ==> #[trigger] self.target@[i] <= self.target@[i
                + 1]
    }

    /// Within one class, latest times never decrease with the aircraft
    /// index. The schedule enumeration consumes each class in ascending
    /// aircraft order and checks feasibility on the class head alone, which
    /// is sound only under this condition.
    pub open spec fn latest_monotone_per_class(&self) -> bool {
        forall|i: int, j: int|
            0 <= i <= j < self.nb_aircrafts && self.classes@[i] == self.classes@[j]
                ==> self.latest@[i] <= self.latest@[j]
    }

    /// Everything an instance read from the outside world must satisfy.
    pub open spec fn valid(&self) -> bool {
        self.wf() && self.targets_sorted() && self.latest_monotone_per_class()
    }

    /// Checks `valid()` at run time, so that callers can reject a malformed
    /// instance before building a problem from it.
    #[verifier::loop_isolation(false)]
    pub fn is_valid(&self) -> (r: bool)
        ensures
            r == self.valid(),
    {
        if !(1 <= self.nb_classes && self.nb_classes <= MAX_CLASSES) {
            return false;
        }
        if !(1 <= self.nb_aircrafts && self.nb_aircrafts <= MAX_AIRCRAFT) {
            return false;
        }
        if !(1 <= self.nb_runways && self.nb_runways <= MAX_RUNWAYS) {
            return false;
        }
        let n = self.nb_aircrafts;
        let k = self.nb_classes;
        if self.classes.len() != n || self.target.len() != n || self.latest.len() != n
            || self.separation.len() != k {
            return false;
        }
        let mut i: usize = 0;
        while i < n
            invariant
                i <= n,
                forall|t: int| 0 <= t < i ==> #[trigger] self.classes@[t] < k,
                forall|t: int|
                    0 <= t < i ==> 0 <= #[trigger] self.target@[t] <= self.latest@[t] <= MAX_TIME,
            decreases n - i,
        {
            if self.classes[i] >= k {
                return false;
            }
            if !(0 <= self.target[i] && self.target[i] <= self.latest[i] && self.latest[i]
                <= MAX_TIME) {
                return false;
            }
            i = i + 1;
        }
        let mut c: usize = 0;
        while c < k
            invariant
                c <= k,
                forall|a: int| 0 <= a < c ==> #[trigger] self.separation@[a]@.len() == k,
                forall|a: int, b: int|
                    0 <= a < c && 0 <= b < k ==> 0 <= #[trigger] self.separation@[a]@[b]
                        <= MAX_TIME,
            decreases k - c,
        {
            if self.separation[c].len() != k {
                return false;
            }
            let mut b: usize = 0;
            while b < k
                invariant
                    b <= k,
                    forall|t: int| 0 <= t < b ==> 0 <= #[trigger] self.separation@[c as int]@[t]
                        <= MAX_TIME,
                decreases k - b,
            {
                let s = self.separation[c][b];
                if !(0 <= s && s <= MAX_TIME) {
                    return false;
                }
                b = b + 1;
            }
            c = c + 1;
        }
        let mut i: usize = 1;
        while i < n
            invariant
                1 <= i,
                forall|t: int| 0 <= t && t + 1 < i ==> #[trigger] self.target@[t] <= self.target@[t
                    + 1],
            decreases n - i,
        {
            if self.target[i - 1] > self.target[i] {
                return false;
            }
            i = i + 1;
        }
        let mut i: usize = 0;
        while i < n
            invariant
                i <= n,
                forall|t: int, u: int|
                    0 <= t <= u < i && self.classes@[t] == self.classes@[u] ==> self.latest@[t]
                        <= self.latest@[u],
            decreases n - i,
        {
            let mut j: usize = 0;
            while j <= i
                invariant
                    j <= i + 1,
                    forall|t: int|
                        0 <= t < j && self.classes@[t] == self.classes@[i as int]
                            ==> self.latest@[t] <= self.latest@[i as int],
                decreases i - j + 1,
            {
                if self.classes[j] == self.classes[i] && self.latest[j] > self.latest[i] {
                    return false;
                }
                j = j + 1;
            }
            i = i + 1;
        }
        true
    }
}

} // verus!

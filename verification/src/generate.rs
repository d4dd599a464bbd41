//! The parameter record of the random instance generator. Generation itself
//! draws uniform and normal samples and writes the instance out, so it lives
//! with the program around the library; the record holds what it is given.

use vstd::prelude::*;

verus! {

/// What the instance generator is asked to produce: counts, the range and
/// spread of the pairwise separation positions, and the average time between
/// two arrivals. Without a seed, generation seeds itself from the clock.
#[derive(Debug, Clone)]
pub struct AlpGenerator {
    /// An optional seed to kickstart the instance generation.
    pub seed: Option<u128>,
    /// The number of aircraft.
    pub nb_aircrafts: usize,
    /// The number of runways.
    pub nb_runways: usize,
    /// The number of aircraft classes.
    pub nb_classes: usize,
    /// The number of clusters of similar classes.
    pub nb_clusters: usize,
    /// The smallest separation position used for the pairwise separations.
    pub min_separation_position: i64,
    /// The largest separation position used for the pairwise separations.
    pub max_separation_position: i64,
    /// The spread of the separation positions within one cluster.
    pub separation_position_std_dev: i64,
    /// The average time between two aircraft arrivals.
    pub avg_interarrival_time: i64,
    /// Where to write the generated instance; standard output when absent.
    pub output: Option<String>,
}

impl AlpGenerator {
    /// A parameter record the generator can act on.
    pub open spec fn wf(&self) -> bool {
        &&& self.nb_aircrafts >= 1
        &&& self.nb_runways >= 1
        &&& self.nb_classes >= 1
        &&& 1 <= self.nb_clusters <= self.nb_classes
        &&& 0 <= self.min_separation_position <= self.max_separation_position
        &&& self.separation_position_std_dev > 0
        &&& self.avg_interarrival_time > 0
    }

    /// Checks `wf()` at run time.
    pub fn is_wf(&self) -> (r: bool)
        ensures
            r == self.wf(),
    {
        self.nb_aircrafts >= 1 && self.nb_runways >= 1 && self.nb_classes >= 1
            && 1 <= self.nb_clusters && self.nb_clusters <= self.nb_classes
            && 0 <= self.min_separation_position && self.min_separation_position
            <= self.max_separation_position && self.separation_position_std_dev > 0
            && self.avg_interarrival_time > 0
    }
}

} // verus!

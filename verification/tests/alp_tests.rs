use alp::instance::AlpInstance;
use alp::model::{Alp, AlpDecision, AlpState, RunwayState, INFEASIBLE_PENALTY};
use alp::ranking::AlpRanking;
use alp::relax::AlpRelax;
use alp::compression::AlpCompression;
use alp::bound::{opt_from, best_decision, AlpCompressionBound, AlpDominance as DictDominance, AlpValue};
use alp::dominance::AlpDominance;
use alp::solve::{replay, SolverType};

fn instance(
    classes: Vec<usize>,
    target: Vec<i64>,
    latest: Vec<i64>,
    separation: Vec<Vec<i64>>,
    nb_runways: usize,
) -> AlpInstance {
    AlpInstance {
        nb_classes: separation.len(),
        nb_aircrafts: classes.len(),
        nb_runways,
        classes,
        target,
        latest,
        separation,
    }
}

/// The one-class, one-runway instance with comfortable latest times.
fn trivial() -> AlpInstance {
    instance(vec![0, 0], vec![0, 10], vec![100, 100], vec![vec![5]], 1)
}

/// Two classes whose separation forces a delay on one runway.
fn forced_delay() -> AlpInstance {
    instance(
        vec![0, 1],
        vec![0, 0],
        vec![100, 100],
        vec![vec![0, 7], vec![7, 0]],
        1,
    )
}

/// Two aircraft of one class, two runways, huge separation.
fn parallel() -> AlpInstance {
    instance(vec![0, 0], vec![0, 0], vec![100, 100], vec![vec![50]], 2)
}

/// No schedule exists: both latest times are 0 but the separation is 10.
fn infeasible() -> AlpInstance {
    instance(vec![0, 0], vec![0, 0], vec![0, 0], vec![vec![10]], 1)
}

#[test]
fn is_valid_accepts_well_formed_instances() {
    assert!(trivial().is_valid());
    assert!(forced_delay().is_valid());
    assert!(parallel().is_valid());
    assert!(infeasible().is_valid());
}

#[test]
fn is_valid_rejects_length_mismatch() {
    let mut i = trivial();
    i.target.pop();
    assert!(!i.is_valid());
}

#[test]
fn is_valid_rejects_class_out_of_range() {
    let mut i = trivial();
    i.classes[1] = 3;
    assert!(!i.is_valid());
}

#[test]
fn is_valid_rejects_negative_target() {
    let mut i = trivial();
    i.target[0] = -1;
    i.classes[0] = 0;
    assert!(!i.is_valid());
}

#[test]
fn is_valid_rejects_latest_before_target() {
    let mut i = trivial();
    i.latest[1] = 5;
    assert!(!i.is_valid());
}

#[test]
fn is_valid_rejects_unsorted_targets() {
    let i = instance(vec![0, 0], vec![10, 0], vec![100, 100], vec![vec![5]], 1);
    assert!(!i.is_valid());
}

#[test]
fn is_valid_rejects_nonmonotone_latest_within_class() {
    let i = instance(vec![0, 0], vec![0, 10], vec![50, 40], vec![vec![5]], 1);
    assert!(!i.is_valid());
}

#[test]
fn is_valid_rejects_zero_counts() {
    let mut i = trivial();
    i.nb_runways = 0;
    assert!(!i.is_valid());
}

#[test]
fn is_valid_rejects_negative_separation() {
    let mut i = trivial();
    i.separation[0][0] = -3;
    assert!(!i.is_valid());
}

#[test]
fn next_lists_classes_in_reverse_order() {
    let i = instance(
        vec![0, 1, 0],
        vec![0, 1, 2],
        vec![10, 10, 10],
        vec![vec![1, 1], vec![1, 1]],
        1,
    );
    let pb = Alp::new(i);
    assert_eq!(pb.next[0], vec![2, 0]);
    assert_eq!(pb.next[1], vec![1]);
}

#[test]
fn initial_state_counts_classes_and_clears_runways() {
    let pb = Alp::new(forced_delay());
    let s = pb.initial_state();
    assert_eq!(s.rem, vec![1, 1]);
    assert_eq!(s.info, vec![RunwayState { prev_time: -1, prev_class: -1 }]);
}

#[test]
fn arrival_respects_separation() {
    let pb = Alp::new(forced_delay());
    let s = pb.initial_state();
    // First aircraft (class 0) lands at its target on the empty runway.
    assert_eq!(pb.get_arrival_time(&s.info, 0, 0), 0);
    let s2 = pb.transition(&s, 0);
    // The class-1 aircraft must now wait out the separation.
    assert_eq!(pb.get_arrival_time(&s2.info, 1, 0), 7);
}

#[test]
fn domain_emits_admissible_codes_in_order() {
    let pb = Alp::new(forced_delay());
    let s = pb.initial_state();
    assert_eq!(pb.domain(&s), vec![0, 1]);
}

#[test]
fn domain_emits_lone_sentinel_when_stuck() {
    let pb = Alp::new(infeasible());
    let s = pb.initial_state();
    // The first landing at time 0 is fine; after it the second aircraft can
    // never meet its latest time.
    assert_eq!(pb.domain(&s), vec![0]);
    let s2 = pb.transition(&s, 0);
    assert_eq!(pb.domain(&s2), vec![-1]);
}

#[test]
fn transition_updates_rem_and_runway() {
    let pb = Alp::new(forced_delay());
    let s = pb.initial_state();
    let s2 = pb.transition(&s, 1);
    assert_eq!(s2.rem, vec![1, 0]);
    assert_eq!(s2.info, vec![RunwayState { prev_time: 0, prev_class: 1 }]);
}

#[test]
fn sentinel_transition_keeps_state_and_costs_the_penalty() {
    let pb = Alp::new(infeasible());
    let s0 = pb.initial_state();
    let s1 = pb.transition(&s0, 0);
    let s2 = pb.transition(&s1, -1);
    assert_eq!(s1, s2);
    assert_eq!(pb.transition_cost(&s1, -1), INFEASIBLE_PENALTY);
}

#[test]
fn transition_cost_is_negated_deviation() {
    let pb = Alp::new(forced_delay());
    let s = pb.initial_state();
    assert_eq!(pb.transition_cost(&s, 0), 0);
    let s2 = pb.transition(&s, 0);
    assert_eq!(pb.transition_cost(&s2, 1), -7);
}

#[test]
fn decision_codec_roundtrips() {
    let i = instance(
        vec![0, 1, 2],
        vec![0, 0, 0],
        vec![9, 9, 9],
        vec![vec![1; 3], vec![1; 3], vec![1; 3]],
        2,
    );
    let pb = Alp::new(i);
    for class in 0..3usize {
        for runway in 0..2usize {
            let code = pb.to_decision(&AlpDecision { class, runway });
            assert_eq!(code, (class * 2 + runway) as i64);
            let dec = pb.from_decision(code);
            assert_eq!(dec, AlpDecision { class, runway });
        }
    }
}

#[test]
fn solver_type_names_roundtrip() {
    assert_eq!(SolverType::from_str("classic"), Ok(SolverType::Classic));
    assert_eq!(SolverType::from_str("hybrid"), Ok(SolverType::Hybrid));
    assert!(SolverType::from_str("other").is_err());
    assert_eq!(SolverType::Classic.as_str(), "classic");
    assert_eq!(SolverType::Hybrid.as_str(), "hybrid");
}

#[test]
fn ranking_orders_by_time_sum_then_ties() {
    let ranking = AlpRanking;
    let a = AlpState {
        rem: vec![1],
        info: vec![RunwayState { prev_time: 3, prev_class: 0 }],
    };
    let b = AlpState {
        rem: vec![1],
        info: vec![RunwayState { prev_time: 5, prev_class: 0 }],
    };
    assert_eq!(ranking.compare(&a, &b), -1);
    assert_eq!(ranking.compare(&b, &a), 1);
    assert_eq!(ranking.compare(&a, &a), 0);
    let c = AlpState {
        rem: vec![2],
        info: vec![RunwayState { prev_time: 3, prev_class: 0 }],
    };
    assert_eq!(ranking.compare(&a, &c), -1);
}

#[test]
fn dominance_key_and_coordinates_are_canonical() {
    let dom = AlpDominance;
    let s = AlpState {
        rem: vec![2, 1],
        info: vec![
            RunwayState { prev_time: 4, prev_class: 1 },
            RunwayState { prev_time: 9, prev_class: 0 },
        ],
    };
    // The key and the coordinates present the runways sorted by class, then
    // time: the class-0 runway (time 9) comes before the class-1 one (time 4).
    let key = dom.get_key(&s);
    assert_eq!(key.rem, vec![2, 1]);
    assert_eq!(key.prev_class, vec![0, 1]);
    assert_eq!(dom.nb_dimensions(&s), 2);
    assert_eq!(dom.get_coordinate(&s, 0), -9);
    assert_eq!(dom.get_coordinate(&s, 1), -4);
    assert!(dom.use_value());
}

#[test]
fn dictionary_values_negate_times_and_compare_pointwise() {
    let dom = DictDominance;
    let s = AlpState {
        rem: vec![1],
        info: vec![
            RunwayState { prev_time: 4, prev_class: 0 },
            RunwayState { prev_time: 6, prev_class: 0 },
        ],
    };
    let v = dom.get_value(&s);
    assert_eq!(v.tot, -10);
    assert_eq!(v.prev_times, vec![-4, -6]);
    let earlier = AlpValue { tot: -7, prev_times: vec![-3, -4] };
    // `v` is dominated by `earlier`: every runway of `earlier` is at least
    // as early.
    assert!(dom.is_dominated_by(&v, &earlier));
    assert!(!dom.is_dominated_by(&earlier, &v));
}

#[test]
fn merge_takes_max_rem_min_time_common_class() {
    let pb = Alp::new(forced_delay());
    let relax = AlpRelax::new(pb, None);
    let a = AlpState {
        rem: vec![1, 0],
        info: vec![RunwayState { prev_time: 3, prev_class: 1 }],
    };
    let b = AlpState {
        rem: vec![0, 1],
        info: vec![RunwayState { prev_time: 5, prev_class: 1 }],
    };
    let m = relax.merge(&vec![a.clone(), b]);
    assert_eq!(m.rem, vec![1, 1]);
    assert_eq!(m.info, vec![RunwayState { prev_time: 3, prev_class: 1 }]);
    let c = AlpState {
        rem: vec![0, 0],
        info: vec![RunwayState { prev_time: 2, prev_class: 0 }],
    };
    let m2 = relax.merge(&vec![a, c]);
    assert_eq!(m2.info, vec![RunwayState { prev_time: 2, prev_class: -1 }]);
}

#[test]
fn fast_upper_bound_is_zero_on_valid_instances() {
    let pb = Alp::new(forced_delay());
    let s = pb.initial_state();
    let relax = AlpRelax::new(pb, None);
    assert_eq!(relax.fast_upper_bound(&s), 0);
    assert_eq!(relax.relax_edge(&s, &s, &s, 0, -7), -7);
}

#[test]
fn meta_classes_and_separation_lower_bound_the_original() {
    let i = instance(
        vec![0, 1, 2],
        vec![0, 0, 0],
        vec![50, 50, 50],
        vec![vec![0, 2, 9], vec![3, 0, 8], vec![9, 7, 0]],
        1,
    );
    let pb = Alp::new(i);
    let membership = vec![0usize, 0, 1];
    let meta_classes = AlpCompression::compute_meta_classes(&pb, &membership);
    assert_eq!(meta_classes, vec![0, 0, 1]);
    let sep = AlpCompression::compute_meta_separation(&pb, &membership, 2);
    // Diagonal forced to zero; off-diagonal entries are the minima over the
    // pooled class pairs.
    assert_eq!(sep[0][0], 0);
    assert_eq!(sep[1][1], 0);
    assert_eq!(sep[0][1], 8);
    assert_eq!(sep[1][0], 7);
    // The meta separation never exceeds the original separation of the
    // classes each meta class pools.
    for c1 in 0..3usize {
        for c2 in 0..3usize {
            assert!(sep[membership[c1]][membership[c2]] <= pb.instance.separation[c1][c2]);
        }
    }
}

#[test]
fn compress_groups_rem_and_maps_classes() {
    let i = instance(
        vec![0, 1, 2],
        vec![0, 0, 0],
        vec![50, 50, 50],
        vec![vec![0, 2, 9], vec![3, 0, 8], vec![9, 7, 0]],
        1,
    );
    let pb = Alp::new(i);
    let comp = AlpCompression::new(pb, 2, vec![0, 0, 1]);
    let s = AlpState {
        rem: vec![1, 1, 1],
        info: vec![RunwayState { prev_time: 4, prev_class: 2 }],
    };
    let cs = comp.compress(&s);
    assert_eq!(cs.rem, vec![2, 1]);
    assert_eq!(cs.info, vec![RunwayState { prev_time: 4, prev_class: 1 }]);
    let empty = AlpState {
        rem: vec![1, 1, 1],
        info: vec![RunwayState { prev_time: -1, prev_class: -1 }],
    };
    let ce = comp.compress(&empty);
    assert_eq!(ce.info, vec![RunwayState { prev_time: -1, prev_class: -1 }]);
    // Decision mapping: class through the membership, runway kept, sentinel
    // to itself.
    assert_eq!(comp.map_decision(0), 0);
    assert_eq!(comp.map_decision(2), 1);
    assert_eq!(comp.map_decision(-1), -1);
    assert_eq!(comp.decompress(&vec![0, 2, 1]), vec![0, 2, 1]);
}

#[test]
fn exact_meta_reward_on_the_four_base_scenarios() {
    // Trivial: both aircraft land on target; best total deviation 0.
    let pb = Alp::new(trivial());
    let s = pb.initial_state();
    assert_eq!(opt_from(&pb, &s, 2), Some(0));
    // Separation-forced delay: best total deviation 7.
    let pb = Alp::new(forced_delay());
    let s = pb.initial_state();
    assert_eq!(opt_from(&pb, &s, 2), Some(-7));
    // Two runways in parallel: both on target.
    let pb = Alp::new(parallel());
    let s = pb.initial_state();
    assert_eq!(opt_from(&pb, &s, 2), Some(0));
    // Infeasible: no complete schedule exists.
    let pb = Alp::new(infeasible());
    let s = pb.initial_state();
    assert_eq!(opt_from(&pb, &s, 2), None);
}

#[test]
fn identity_compression_bound_matches_the_exact_optimum() {
    // With one meta class per class the meta problem has the same optimum as
    // the original, and the dictionary look-up returns it at the root.
    let pb = Alp::new(forced_delay());
    let s = pb.initial_state();
    let expected = opt_from(&pb, &s, 2);
    let comp = AlpCompression::new(pb, 2, vec![0, 1]);
    let bound = AlpCompressionBound::new(comp, 1000);
    assert_eq!(bound.compressed_bound(&s), expected);
    let relax = AlpRelax::new(Alp::new(forced_delay()), Some(bound));
    assert_eq!(relax.fast_upper_bound(&s), -7);
}

#[test]
fn collapsed_compression_bound_stays_admissible() {
    // Pooling both classes zeroes the meta separation, so the bound may be
    // looser than the true optimum but never tighter than admissible.
    let pb = Alp::new(forced_delay());
    let s = pb.initial_state();
    let comp = AlpCompression::new(pb, 1, vec![0, 0]);
    let bound = AlpCompressionBound::new(comp, 1000);
    let b = bound.compressed_bound(&s).unwrap();
    assert!(b >= -7);
    assert_eq!(b, 0);
}

#[test]
fn replay_recovers_the_schedule() {
    let pb = Alp::new(trivial());
    let (end, sched) = replay(&pb, &vec![0, 0]).unwrap();
    assert_eq!(sched, vec![(0usize, 0i64, 0usize), (0usize, 10i64, 1usize)]);
    assert_eq!(end.rem, vec![0]);
    assert_eq!(end.info, vec![RunwayState { prev_time: 10, prev_class: 0 }]);
    // A decision for an exhausted class is not feasible.
    assert!(replay(&pb, &vec![0, 0, 0]).is_none());
    // The sentinel is not part of a feasible run.
    assert!(replay(&pb, &vec![-1]).is_none());
}

#[test]
fn replay_depth_accounting() {
    // Along a feasible run, remaining aircraft plus decisions taken equal
    // the aircraft count.
    let pb = Alp::new(parallel());
    let (end, sched) = replay(&pb, &vec![0, 1]).unwrap();
    let remaining: usize = end.rem.iter().sum();
    assert_eq!(remaining + sched.len(), pb.instance.nb_aircrafts);
    assert_eq!(sched, vec![(0usize, 0i64, 0usize), (1usize, 0i64, 1usize)]);
}

#[test]
fn canonical_keys_ignore_runway_order() {
    // Two presentations of the same runways get the same key, so the filter
    // treats states that differ only by a runway permutation as one.
    let dom = AlpDominance;
    let a = AlpState {
        rem: vec![1],
        info: vec![
            RunwayState { prev_time: 4, prev_class: 1 },
            RunwayState { prev_time: 9, prev_class: 0 },
        ],
    };
    let b = AlpState {
        rem: vec![1],
        info: vec![
            RunwayState { prev_time: 9, prev_class: 0 },
            RunwayState { prev_time: 4, prev_class: 1 },
        ],
    };
    let ka = dom.get_key(&a);
    let kb = dom.get_key(&b);
    assert_eq!(ka, kb);
    assert_eq!(dom.get_coordinate(&a, 0), dom.get_coordinate(&b, 0));
    assert_eq!(dom.get_coordinate(&a, 1), dom.get_coordinate(&b, 1));
}

#[test]
fn heuristic_prefers_the_meta_optimal_decision() {
    // Scheduling class 1 first is strictly better: the separations are
    // asymmetric. The identity compression then moves its decision forward.
    let i = instance(
        vec![0, 1],
        vec![0, 0],
        vec![100, 100],
        vec![vec![0, 10], vec![1, 0]],
        1,
    );
    let pb = Alp::new(i);
    let s = pb.initial_state();
    assert_eq!(opt_from(&pb, &s, 2), Some(-1));
    assert_eq!(best_decision(&pb, &s, 2), Some(1));
    let comp = AlpCompression::new(pb, 2, vec![0, 1]);
    let bound = AlpCompressionBound::new(comp, 1000);
    let (ordered, preferred) = bound.heuristic_order(&s, &vec![0, 1]);
    assert_eq!(preferred, Some(1));
    assert_eq!(ordered, vec![1, 0]);
}


#[test]
fn truncated_dictionary_keeps_the_root_and_misses_the_rest() {
    // With room for a single entry the dictionary still holds the initial
    // meta state with its exact optimum; any other projection finds no match
    // and the bound declines to answer.
    let pb = Alp::new(forced_delay());
    let s = pb.initial_state();
    let comp = AlpCompression::new(pb, 2, vec![0, 1]);
    let bound = AlpCompressionBound::new(comp, 1);
    assert_eq!(bound.compressed_bound(&s), Some(-7));
    let pb = Alp::new(forced_delay());
    let s2 = pb.transition(&pb.initial_state(), 0);
    assert_eq!(bound.compressed_bound(&s2), None);
}

#[test]
fn heuristic_keeps_the_order_on_terminal_states() {
    let pb = Alp::new(forced_delay());
    let terminal = AlpState {
        rem: vec![0, 0],
        info: vec![RunwayState { prev_time: 7, prev_class: 1 }],
    };
    let comp = AlpCompression::new(pb, 2, vec![0, 1]);
    let bound = AlpCompressionBound::new(comp, 1000);
    let (ordered, preferred) = bound.heuristic_order(&terminal, &vec![]);
    assert_eq!(preferred, None);
    assert!(ordered.is_empty());
}

#[test]
fn generator_record_checks_its_ranges() {
    let gen = alp::generate::AlpGenerator {
        seed: Some(0),
        nb_aircrafts: 50,
        nb_runways: 5,
        nb_classes: 4,
        nb_clusters: 2,
        min_separation_position: 100,
        max_separation_position: 200,
        separation_position_std_dev: 10,
        avg_interarrival_time: 50,
        output: None,
    };
    assert!(gen.is_wf());
    let mut bad = gen.clone();
    bad.nb_clusters = 9;
    assert!(!bad.is_wf());
    let mut bad = gen;
    bad.min_separation_position = 300;
    assert!(!bad.is_wf());
}

#[test]
fn tight_deadline_still_schedules_on_target() {
    // An aircraft whose target equals its latest time can still land.
    let i = instance(vec![0, 0], vec![0, 10], vec![0, 10], vec![vec![5]], 1);
    let pb = Alp::new(i);
    let s = pb.initial_state();
    assert_eq!(opt_from(&pb, &s, 2), Some(0));
}

use hoi4_build_core::domain::{iter_successors, NodeDesc, NodeState, State, Successor, TargetType};
use hoi4_build_core::heuristic::{
    canonical_name, canonical_name_of_lowercase, create_by_name, list_names, BestInfraUpperBoundHeuristic,
    BoundTerm, HeuristicKind, LowerBound, UpperBound, ZeroHeuristic,
};

fn infra_mult(infra: u8) -> f64 {
    1.0 + (2.0 * (infra as f64)) / 10.0
}

/// The value of a lower bound: `base / 2 / civ_upper`.
fn lb_value(lb: LowerBound) -> f64 {
    match lb {
        LowerBound::Zero => 0.0,
        LowerBound::Scaled { base, civ_upper } => (base as f64) / 2.0 / (civ_upper as f64),
    }
}

/// The value of an upper bound: infinite when incomplete, else the sum of its terms.
fn ub_value(ub: &UpperBound) -> f64 {
    if !ub.complete {
        return f64::INFINITY;
    }
    let mut total = 0.0f64;
    for t in &ub.terms {
        total += (t.take as f64) * ((t.base as f64 / infra_mult(t.infra)) / (t.den as f64));
    }
    total
}

fn step_cost(s: &Successor) -> f64 {
    (s.action.base_cost() as f64) / infra_mult(s.infra) / (s.civ_den as f64)
}

fn make_desc() -> Vec<NodeDesc> {
    vec![NodeDesc { slots: 3 }, NodeDesc { slots: 2 }]
}

fn make_start() -> State {
    State(vec![
        NodeState { infra: 0, civ: 1, mil: 0 },
        NodeState { infra: 0, civ: 0, mil: 0 },
    ])
}

#[test]
fn test_heuristic_bounds_invariants() {
    let h = create_by_name("best_infra_upper_bound").unwrap();
    let desc = make_desc();
    let start = make_start();
    let lb = lb_value(h.lower_bound(&start, &desc, TargetType::Military, 2));
    let ub = ub_value(&h.upper_bound(&start, &desc, TargetType::Military, 2));
    assert!(lb >= 0.0, "lower_bound must be non-negative, got {}", lb);
    assert!(ub >= 0.0 || ub == f64::INFINITY, "upper_bound must be non-negative or infinity, got {}", ub);
    if ub != f64::INFINITY {
        assert!(lb <= ub + 1e-9, "lower_bound must be <= upper_bound, got lb={}, ub={}", lb, ub);
    }
    for &target_type in &[TargetType::Military, TargetType::Civilian, TargetType::Factories] {
        let lb = lb_value(h.lower_bound(&start, &desc, target_type, 2));
        let ub = ub_value(&h.upper_bound(&start, &desc, target_type, 2));
        assert!(lb >= 0.0, "lower_bound must be non-negative for {:?}, got {}", target_type, lb);
        assert!(
            ub >= 0.0 || ub == f64::INFINITY,
            "upper_bound must be non-negative or infinity for {:?}, got {}",
            target_type,
            ub
        );
        if ub != f64::INFINITY {
            assert!(
                lb <= ub + 1e-9,
                "lower_bound must be <= upper_bound for {:?}, got lb={}, ub={}",
                target_type,
                lb,
                ub
            );
        }
    }
}

#[test]
fn heuristic_is_consistent_on_sample_successors() {
    let desc = make_desc();
    let start = make_start();
    let h = create_by_name("best_infra_upper_bound").unwrap();
    let h_s = lb_value(h.lower_bound(&start, &desc, TargetType::Factories, 3));
    for succ in iter_successors(&start, &desc) {
        let h_sp = lb_value(h.lower_bound(&succ.next_state, &desc, TargetType::Factories, 3));
        let c = step_cost(&succ);
        assert!(h_s <= c + h_sp + 1e-9, "consistency violated: h(s)={} > c+ h(s')={} + {}", h_s, c, h_sp);
    }
}

#[test]
fn lower_bound_blends_conversions_and_builds() {
    let h = BestInfraUpperBoundHeuristic;
    let lb = h.lower_bound(&make_start(), &make_desc(), TargetType::Military, 2);
    // remaining 2, one civilian to convert (4000) and one to build (7200);
    // empty 4, civ_upper = 1 + (4 - 2) = 3.
    assert_eq!(lb, LowerBound::Scaled { base: 11200, civ_upper: 3 });
    assert!((lb_value(lb) - 11200.0 / 6.0).abs() < 1e-9);
    let civ = h.lower_bound(&make_start(), &make_desc(), TargetType::Civilian, 3);
    assert_eq!(civ, LowerBound::Scaled { base: 21600, civ_upper: 3 });
    let fac = h.lower_bound(&make_start(), &make_desc(), TargetType::Factories, 3);
    assert_eq!(fac, LowerBound::Scaled { base: 14400, civ_upper: 3 });
}

#[test]
fn lower_bound_is_zero_at_the_target() {
    let h = BestInfraUpperBoundHeuristic;
    assert_eq!(h.lower_bound(&make_start(), &make_desc(), TargetType::Civilian, 1), LowerBound::Zero);
    assert_eq!(h.lower_bound(&make_start(), &make_desc(), TargetType::Military, 0), LowerBound::Zero);
}

#[test]
fn upper_bound_converts_then_builds() {
    let h = BestInfraUpperBoundHeuristic;
    let ub = h.upper_bound(&make_start(), &make_desc(), TargetType::Military, 2);
    assert!(ub.complete);
    assert_eq!(
        ub.terms,
        vec![
            BoundTerm { base: 4000, infra: 0, take: 1, den: 1 },
            BoundTerm { base: 7200, infra: 0, take: 1, den: 1 },
        ]
    );
    assert!((ub_value(&ub) - 11200.0).abs() < 1e-9);
}

#[test]
fn upper_bound_prefers_high_infrastructure() {
    let desc = vec![NodeDesc { slots: 4 }, NodeDesc { slots: 4 }];
    let st = State(vec![
        NodeState { infra: 1, civ: 2, mil: 0 },
        NodeState { infra: 5, civ: 0, mil: 0 },
    ]);
    let ub = BestInfraUpperBoundHeuristic.upper_bound(&st, &desc, TargetType::Civilian, 5);
    assert!(ub.complete);
    assert_eq!(ub.terms, vec![BoundTerm { base: 10800, infra: 5, take: 3, den: 2 }]);
    assert!((ub_value(&ub) - 3.0 * (10800.0 / 2.0 / 2.0)).abs() < 1e-9);
}

#[test]
fn upper_bound_is_infinite_without_room() {
    let desc = vec![NodeDesc { slots: 1 }];
    let st = State(vec![NodeState { infra: 0, civ: 0, mil: 0 }]);
    let ub = BestInfraUpperBoundHeuristic.upper_bound(&st, &desc, TargetType::Factories, 2);
    assert!(!ub.complete);
    assert_eq!(ub_value(&ub), f64::INFINITY);
}

#[test]
fn zero_heuristic_has_no_bounds() {
    let z = ZeroHeuristic;
    assert_eq!(z.lower_bound(&make_start(), &make_desc(), TargetType::Military, 2), LowerBound::Zero);
    let ub = z.upper_bound(&make_start(), &make_desc(), TargetType::Military, 2);
    assert!(!ub.complete && ub.terms.is_empty());
    assert_eq!(z.name(), "dijkstra");
    assert_eq!(BestInfraUpperBoundHeuristic.name(), "best_infra_upper_bound");
}

#[test]
fn names_and_aliases() {
    assert_eq!(list_names(), vec!["best_infra_upper_bound", "dijkstra"]);
    assert_eq!(canonical_name("standard"), Some("best_infra_upper_bound"));
    assert_eq!(canonical_name("Best_Infra_Upper_Bound"), Some("best_infra_upper_bound"));
    assert_eq!(canonical_name("ZERO"), Some("dijkstra"));
    assert_eq!(canonical_name("dijkstra"), Some("dijkstra"));
    assert_eq!(canonical_name("astar"), None);
    assert_eq!(canonical_name_of_lowercase(&"zero".to_string()), Some("dijkstra"));
    assert_eq!(canonical_name_of_lowercase(&"Zero".to_string()), None);
}

#[test]
fn create_by_name_picks_the_heuristic() {
    assert_eq!(create_by_name("Standard").unwrap(), HeuristicKind::BestInfraUpperBound);
    assert_eq!(create_by_name("zero").unwrap(), HeuristicKind::Zero);
    assert_eq!(create_by_name("dijkstra").unwrap().name(), "dijkstra");
}

#[test]
fn create_by_name_rejects_unknown_names() {
    let err = create_by_name("greedy").unwrap_err();
    assert_eq!(err, "Unknown heuristic: greedy. Available: best_infra_upper_bound, dijkstra");
}

#[test]
fn lower_bound_never_exceeds_upper_bound_on_samples() {
    let h = BestInfraUpperBoundHeuristic;
    for slots0 in 1u8..=4 {
        for slots1 in 1u8..=3 {
            let desc = vec![NodeDesc { slots: slots0 }, NodeDesc { slots: slots1 }];
            for infra in 0u8..=5 {
                for civ in 0u8..=slots0 {
                    let st = State(vec![
                        NodeState { infra, civ, mil: 0 },
                        NodeState { infra: 5 - infra, civ: 0, mil: slots1.min(1) },
                    ]);
                    for &tt in &[TargetType::Military, TargetType::Civilian, TargetType::Factories] {
                        for target in 0..=6 {
                            let lb = lb_value(h.lower_bound(&st, &desc, tt, target));
                            let ub = ub_value(&h.upper_bound(&st, &desc, tt, target));
                            assert!(lb >= 0.0 && lb <= ub + 1e-9, "lb={} ub={}", lb, ub);
                        }
                    }
                }
            }
        }
    }
}

#[test]
fn upper_bound_passes_over_full_nodes() {
    let desc = vec![NodeDesc { slots: 1 }, NodeDesc { slots: 1 }];
    let st = State(vec![
        NodeState { infra: 5, civ: 0, mil: 1 },
        NodeState { infra: 0, civ: 0, mil: 0 },
    ]);
    let ub = BestInfraUpperBoundHeuristic.upper_bound(&st, &desc, TargetType::Military, 2);
    assert!(ub.complete);
    assert_eq!(ub.terms, vec![BoundTerm { base: 7200, infra: 0, take: 1, den: 1 }]);
    assert!((ub_value(&ub) - 7200.0).abs() < 1e-9);
}

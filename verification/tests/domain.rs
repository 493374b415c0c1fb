use hoi4_build_core::domain::{is_terminal, iter_successors, Action, NodeDesc, NodeState, State, TargetType, TransitionInfo};
use hoi4_build_core::instance::{
    build_instance, exceeds_capacity, field_to_u8, invalid_target_type_text, parse_target_type, Field, InputError,
};
use hoi4_build_core::display::{decimal_text, fmt_step};
use hoi4_build_core::non_max_usize::NonMaxUsize;
use hoi4_build_core::search::{exact_solver_accepts, expand, prune_step, reconstruct_path, should_report, ScoredSuccessor};
use hoi4_build_core::state_pool::{StatePool, COST_ZERO};

fn key(x: f64) -> u64 {
    let bits = x.to_bits();
    if bits & 0x8000_0000_0000_0000 != 0 {
        !bits
    } else {
        bits | 0x8000_0000_0000_0000
    }
}

fn make_desc() -> Vec<NodeDesc> {
    vec![NodeDesc { slots: 3 }, NodeDesc { slots: 2 }]
}

fn make_start() -> State {
    State(vec![
        NodeState { infra: 0, civ: 1, mil: 0 },
        NodeState { infra: 0, civ: 0, mil: 0 },
    ])
}

#[test]
fn terminal_counts_the_target_type() {
    let st = State(vec![
        NodeState { infra: 2, civ: 1, mil: 2 },
        NodeState { infra: 0, civ: 3, mil: 0 },
    ]);
    assert!(is_terminal(&st, TargetType::Military, 2));
    assert!(!is_terminal(&st, TargetType::Military, 3));
    assert!(is_terminal(&st, TargetType::Civilian, 4));
    assert!(!is_terminal(&st, TargetType::Civilian, 5));
    assert!(is_terminal(&st, TargetType::Factories, 6));
    assert!(!is_terminal(&st, TargetType::Factories, 7));
    assert!(is_terminal(&State(vec![]), TargetType::Military, 0));
}

#[test]
fn successors_in_node_then_action_order() {
    let succ = iter_successors(&make_start(), &make_desc());
    let got: Vec<(usize, &str)> = succ.iter().map(|s| (s.node_index, s.action.label())).collect();
    assert_eq!(
        got,
        vec![
            (0, "civilian"),
            (0, "military"),
            (0, "infra"),
            (0, "convert"),
            (1, "civilian"),
            (1, "military"),
            (1, "infra"),
        ]
    );
    let convert = &succ[3];
    assert_eq!(convert.next_state.0[0], NodeState { infra: 0, civ: 0, mil: 1 });
    assert_eq!(convert.civ_den, 1);
    assert_eq!(convert.infra, 0);
    assert_eq!(succ[2].next_state.0[0].infra, 1);
    assert_eq!(succ[4].next_state.0[1].civ, 1);
}

#[test]
fn full_nodes_only_take_infra_and_convert() {
    let desc = vec![NodeDesc { slots: 2 }];
    let st = State(vec![NodeState { infra: 5, civ: 2, mil: 0 }]);
    let succ = iter_successors(&st, &desc);
    assert_eq!(succ.len(), 1);
    assert_eq!(succ[0].action, Action::Convert);
    assert_eq!(succ[0].civ_den, 2);
    assert_eq!(succ[0].infra, 5);
}

#[test]
fn civilian_denominator_is_at_least_one() {
    let desc = vec![NodeDesc { slots: 1 }];
    let st = State(vec![NodeState { infra: 0, civ: 0, mil: 0 }]);
    let succ = iter_successors(&st, &desc);
    assert!(succ.iter().all(|s| s.civ_den == 1));
}

#[test]
fn action_labels_and_costs() {
    assert_eq!(Action::Civilian.label(), "civilian");
    assert_eq!(Action::Military.label(), "military");
    assert_eq!(Action::Infra.label(), "infra");
    assert_eq!(Action::Convert.label(), "convert");
    assert_eq!(Action::Civilian.base_cost(), 10800);
    assert_eq!(Action::Military.base_cost(), 7200);
    assert_eq!(Action::Infra.base_cost(), 6000);
    assert_eq!(Action::Convert.base_cost(), 4000);
}

#[test]
fn duplicate_copies_the_state() {
    let st = make_start();
    assert_eq!(st.duplicate(), st);
}

#[test]
fn target_type_names() {
    assert_eq!(parse_target_type("military"), Some(TargetType::Military));
    assert_eq!(parse_target_type("Civilian"), Some(TargetType::Civilian));
    assert_eq!(parse_target_type("FACTORIES"), Some(TargetType::Factories));
    assert_eq!(parse_target_type("navy"), None);
    assert_eq!(
        invalid_target_type_text("navy"),
        "Invalid target_type: navy. Must be 'military', 'civilian', or 'factories'"
    );
}

#[test]
fn counts_are_range_checked() {
    assert_eq!(field_to_u8(0, 5), Some(0));
    assert_eq!(field_to_u8(5, 5), Some(5));
    assert_eq!(field_to_u8(6, 5), None);
    assert_eq!(field_to_u8(-1, 255), None);
    assert_eq!(field_to_u8(255, 255), Some(255));
    assert_eq!(field_to_u8(256, 255), None);
    assert_eq!(Field::NumInfra.max(), 5);
    assert_eq!(Field::NumSlots.max(), 255);
}

#[test]
fn instance_is_read_from_rows() {
    let rows = vec![(3, 0, 1, 0), (2, 4, 0, 1)];
    let (desc, st) = build_instance(&rows, 5).unwrap();
    assert_eq!(desc, vec![NodeDesc { slots: 3 }, NodeDesc { slots: 2 }]);
    assert_eq!(
        st,
        State(vec![
            NodeState { infra: 0, civ: 1, mil: 0 },
            NodeState { infra: 4, civ: 0, mil: 1 },
        ])
    );
}

#[test]
fn instance_errors_come_in_order() {
    // A bad slot count anywhere wins over a bad state count earlier.
    let rows = vec![(3, 9, 0, 0), (300, 0, 0, 0)];
    assert_eq!(build_instance(&rows, 1), Err(InputError::OutOfRange(Field::NumSlots)));
    let rows = vec![(3, 0, -1, 0), (3, 6, 0, 0)];
    assert_eq!(build_instance(&rows, 1), Err(InputError::OutOfRange(Field::NumCivilian)));
    let rows = vec![(3, 6, -1, 0)];
    assert_eq!(build_instance(&rows, 1), Err(InputError::OutOfRange(Field::NumInfra)));
    let rows = vec![(3, 0, 0, 256)];
    assert_eq!(build_instance(&rows, 1), Err(InputError::OutOfRange(Field::NumMilitary)));
    let rows = vec![(3, 0, 0, 0), (2, 0, 0, 0)];
    assert_eq!(build_instance(&rows, 6), Err(InputError::TargetExceedsCapacity));
    assert!(build_instance(&rows, 5).is_ok());
}

#[test]
fn error_texts() {
    assert_eq!(InputError::OutOfRange(Field::NumInfra).text(), "numInfra out of range (0..=5)");
    assert_eq!(InputError::OutOfRange(Field::NumSlots).text(), "numSlots out of range (0..=255)");
    assert_eq!(InputError::OutOfRange(Field::NumCivilian).text(), "numCivilian out of range (0..=255)");
    assert_eq!(InputError::OutOfRange(Field::NumMilitary).text(), "numMilitary out of range (0..=255)");
    assert_eq!(InputError::TargetExceedsCapacity.text(), "target exceeds capacity");
}

#[test]
fn capacity_is_the_sum_of_slots() {
    let desc = vec![NodeDesc { slots: 255 }; 3];
    assert!(!exceeds_capacity(&desc, 765));
    assert!(exceeds_capacity(&desc, 766));
    assert!(!exceeds_capacity(&vec![], 0));
    assert!(exceeds_capacity(&vec![], 1));
}

#[test]
fn pruning_keeps_candidates_within_the_bound() {
    assert_eq!(prune_step(key(5.0), key(7.0)), (true, key(5.0)));
    assert_eq!(prune_step(key(7.0), key(7.0)), (true, key(7.0)));
    assert_eq!(prune_step(key(9.0), key(7.0)), (false, key(7.0)));
    assert_eq!(prune_step(key(9.0), key(f64::INFINITY)), (true, key(9.0)));
}

#[test]
fn progress_cadence() {
    assert!(should_report(1, 10));
    assert!(!should_report(2, 10));
    assert!(should_report(20, 10));
    assert!(!should_report(1, 0));
    assert!(!should_report(5, usize::MAX));
}

#[test]
fn exact_solver_size_limits() {
    assert!(exact_solver_accepts(&[NodeDesc { slots: 3 }, NodeDesc { slots: 1 }], 2));
    assert!(!exact_solver_accepts(&[NodeDesc { slots: 3 }; 3], 2));
    assert!(!exact_solver_accepts(&[NodeDesc { slots: 4 }], 2));
    assert!(!exact_solver_accepts(&[NodeDesc { slots: 3 }], 3));
}

#[test]
fn non_max_usize_excludes_max() {
    assert!(NonMaxUsize::new(usize::MAX).is_none());
    let v = NonMaxUsize::new(7).unwrap();
    assert_eq!(v.get(), 7);
    assert_eq!(usize::from(v), 7);
    assert_eq!(NonMaxUsize::new_unchecked(0).get(), 0);
}

#[test]
fn plan_is_read_back_along_parents() {
    let mut pool: StatePool<TransitionInfo> = StatePool::new(64);
    let root_state = make_start();
    assert!(pool.enqueue_or_update_state(root_state.clone(), COST_ZERO, None, 0, None, COST_ZERO));
    let root = pool.heap_pop().unwrap();
    let mid_state = State(vec![
        NodeState { infra: 0, civ: 1, mil: 0 },
        NodeState { infra: 0, civ: 0, mil: 1 },
    ]);
    assert!(pool.enqueue_or_update_state(
        mid_state.clone(),
        key(7200.0),
        Some(&root),
        1,
        Some(TransitionInfo { action: Action::Military, infra: 0, civ_den: 1 }),
        key(7200.0),
    ));
    let mid = pool.heap_pop().unwrap();
    let goal_state = State(vec![
        NodeState { infra: 0, civ: 0, mil: 1 },
        NodeState { infra: 0, civ: 0, mil: 1 },
    ]);
    assert!(pool.enqueue_or_update_state(
        goal_state.clone(),
        key(11200.0),
        Some(&mid),
        0,
        Some(TransitionInfo { action: Action::Convert, infra: 0, civ_den: 1 }),
        key(11200.0),
    ));
    let goal = pool.heap_pop().unwrap();
    let goal_idx = goal.index();
    let moves = reconstruct_path(&mut pool, goal);
    assert_eq!(moves, vec![(1, "military"), (0, "convert")]);
    // The goal's own handle was given back; its parent link remains.
    assert_eq!(pool.ref_count(goal_idx), 0);
    assert_eq!(pool.ref_count(root.index()), 2);
    pool.release_handle(mid);
    pool.release_handle(root);
}

#[test]
fn step_labels() {
    assert_eq!(decimal_text(0), "0");
    assert_eq!(decimal_text(907), "907");
    assert_eq!(fmt_step(1500), "1500");
    assert_eq!(fmt_step(2000), "2K");
    assert_eq!(fmt_step(3_000_000), "3M");
    assert_eq!(fmt_step(5_000_000_000), "5B");
    assert_eq!(fmt_step(1_500_000), "1500K");
    assert_eq!(fmt_step(0), "0");
}

#[test]
fn expansion_enqueues_and_prunes_in_order() {
    let mut pool: StatePool<TransitionInfo> = StatePool::new(64);
    let start = make_start();
    assert!(pool.enqueue_or_update_state(start.clone(), COST_ZERO, None, 0, None, COST_ZERO));
    let root = pool.heap_pop().unwrap();
    let succ = iter_successors(&start, &make_desc());
    let n = succ.len();
    let scored: Vec<ScoredSuccessor> = succ
        .into_iter()
        .enumerate()
        .map(|(k, s)| ScoredSuccessor {
            successor: s,
            path_cost: key(10.0 + k as f64),
            estimate: key(10.0 + k as f64),
            // Bound totals 30, 20, 40, 15, ...: the third is above the bound 20 set by the second.
            bound: key([30.0, 20.0, 40.0, 15.0, 50.0, 15.0, 12.0][k]),
        })
        .collect();
    let (bound, dropped) = expand(&mut pool, &root, &scored, true, key(35.0));
    assert_eq!(n, 7);
    assert_eq!(bound, key(12.0));
    assert_eq!(dropped, 2);
    assert_eq!(pool.heap_size(), 5);
    let dropped_state = &scored[2].successor.next_state;
    assert_eq!(pool.get_index(dropped_state), None);
    let kept = pool.get_index(&scored[3].successor.next_state).unwrap();
    assert_eq!(pool.parent_idx(kept), Some(root.index()));
    assert_eq!(pool.component_idx(kept), Some(0));
    assert_eq!(pool.transition_info(kept).unwrap().action, Action::Convert);
    // Without pruning every successor is enqueued and the bound stays.
    let mut pool2: StatePool<TransitionInfo> = StatePool::new(64);
    assert!(pool2.enqueue_or_update_state(start.clone(), COST_ZERO, None, 0, None, COST_ZERO));
    let root2 = pool2.heap_pop().unwrap();
    let (bound2, dropped2) = expand(&mut pool2, &root2, &scored, false, key(35.0));
    assert_eq!((bound2, dropped2), (key(35.0), 0));
    assert_eq!(pool2.heap_size(), 7);
}

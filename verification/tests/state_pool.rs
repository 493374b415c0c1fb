use hoi4_build_core::domain::{Action, NodeState, State, TransitionInfo};
use hoi4_build_core::state_pool::{StatePool, COST_INFINITY, COST_ZERO};

/// The order-preserving key of a cost (`-0.0` is taken as `0.0`).
fn key(x: f64) -> u64 {
    let x = if x == 0.0 { 0.0 } else { x };
    let bits = x.to_bits();
    if bits & 0x8000_0000_0000_0000 != 0 {
        !bits
    } else {
        bits | 0x8000_0000_0000_0000
    }
}

/// The cost a key stands for.
fn val(k: u64) -> f64 {
    if k & 0x8000_0000_0000_0000 != 0 {
        f64::from_bits(k & 0x7FFF_FFFF_FFFF_FFFF)
    } else {
        f64::from_bits(!k)
    }
}

/// A one-node state distinguished by `n` (spread over the three counters).
fn test_state(n: u32) -> State {
    State(vec![NodeState {
        infra: (n % 6) as u8,
        civ: ((n / 6) % 256) as u8,
        mil: ((n / 1536) % 256) as u8,
    }])
}

fn make_pool() -> StatePool<TransitionInfo> {
    StatePool::new(1024)
}

fn make_start() -> State {
    State(vec![
        NodeState { infra: 0, civ: 1, mil: 0 },
        NodeState { infra: 0, civ: 0, mil: 0 },
    ])
}

#[test]
fn insert_and_lookup_preserves_identity() {
    let mut pool = make_pool();
    let s = test_state(42);
    let idx = pool.insert_state(s.clone());
    assert_eq!(pool.get_state(idx), Some(&s));
    assert!(!pool.is_active(idx));
}

#[test]
fn ref_count_increments_and_frees_on_zero() {
    let mut pool = make_pool();
    let idx = pool.insert_state(test_state(1));
    assert_eq!(pool.ref_count(idx), 0);
    pool.increment_ref_count(idx);
    assert_eq!(pool.ref_count(idx), 1);
    pool.decrement_ref_count(idx);
    assert_eq!(pool.ref_count(idx), 0);
    assert!(pool.free_indices_count() >= 1);
}

#[test]
fn heap_push_pop_manages_refs() {
    let mut pool = make_pool();
    let idx = pool.insert_state(test_state(2));
    let h = pool.make_handle(idx, key(10.0));
    pool.heap_push(&h, key(10.0));
    assert_eq!(pool.heap_size(), 1);
    pool.release_handle(h);
    assert_eq!(pool.ref_count(idx), 1);
    let popped = pool.heap_pop();
    assert!(popped.is_some());
    let ph = popped.unwrap();
    assert_eq!(pool.heap_size(), 0);
    pool.release_handle(ph);
    assert_eq!(pool.ref_count(idx), 0);
}

#[test]
fn enqueue_or_update_rejects_negative_or_nan() {
    let mut pool = make_pool();
    let parent_idx = pool.insert_state(test_state(10));
    let parent = pool.make_handle(parent_idx, key(0.0));
    let ok = pool.enqueue_or_update_state(
        test_state(11),
        key(1.0),
        Some(&parent),
        0,
        Some(TransitionInfo { action: Action::Civilian, infra: 0, civ_den: 1 }),
        key(2.0),
    );
    assert!(ok);
    let bad1 = pool.enqueue_or_update_state(test_state(12), key(f64::NAN), Some(&parent), 0, None, key(2.0));
    let bad2 = pool.enqueue_or_update_state(test_state(13), key(1.0), Some(&parent), 0, None, key(f64::NAN));
    let bad3 = pool.enqueue_or_update_state(test_state(14), key(-1.0), Some(&parent), 0, None, key(2.0));
    let bad4 = pool.enqueue_or_update_state(test_state(15), key(1.0), Some(&parent), 0, None, key(-2.0));
    assert!(!bad1 && !bad2 && !bad3 && !bad4);
}

#[test]
fn enqueue_start_state_with_no_parent() {
    let mut pool = make_pool();
    let ok = pool.enqueue_or_update_state(test_state(99), key(0.0), None, 0, None, key(10.0));
    assert!(ok);
    assert_eq!(pool.heap_size(), 1);
    let popped = pool.heap_pop();
    assert!(popped.is_some());
    let ph = popped.unwrap();
    assert_eq!(pool.parent_idx(ph.index()), None);
}

#[test]
fn heap_push_grows_before_inserting_high_index() {
    let mut pool: StatePool<TransitionInfo> = StatePool::new(8);
    let mut last_idx = 0usize;
    for i in 0..1024 {
        last_idx = pool.insert_state(test_state(i));
    }
    assert!(last_idx >= 1023);
    let h = pool.make_handle(last_idx, key(1.0));
    pool.heap_push(&h, key(1.0));
    assert!(pool.heap_size() >= 1);
}

#[test]
fn heap_decrease_key_only_called_when_new_value_better() {
    let mut pool = make_pool();
    let state = test_state(1);
    let parent_idx = pool.insert_state(test_state(0));
    let parent = pool.make_handle(parent_idx, key(0.0));
    let first_enqueue = pool.enqueue_or_update_state(state.clone(), key(100.0), Some(&parent), 0, None, key(100.0));
    assert!(first_enqueue, "First enqueue should succeed");
    assert_eq!(pool.heap_size(), 1, "Heap should have one state");
    let second_enqueue = pool.enqueue_or_update_state(state.clone(), key(80.0), Some(&parent), 0, None, key(80.0));
    assert!(second_enqueue, "Second enqueue with better cost should succeed without panicking");
    let state_idx = pool.get_index(&state).expect("State should exist");
    let updated_cost = val(pool.cost_from_start(state_idx));
    assert_eq!(updated_cost, 80.0, "Cost should be updated to the better value");
}

#[test]
fn heap_decrease_key_with_worse_estimated_total_cost_should_not_call_decrease() {
    let mut pool = make_pool();
    let state = test_state(2);
    let parent_idx = pool.insert_state(test_state(0));
    let parent = pool.make_handle(parent_idx, key(0.0));
    let first = pool.enqueue_or_update_state(state.clone(), key(100.0), Some(&parent), 0, None, key(100.0));
    assert!(first, "First enqueue should succeed");
    assert_eq!(pool.heap_size(), 1);
    let second = pool.enqueue_or_update_state(state.clone(), key(80.0), Some(&parent), 0, None, key(105.0));
    assert!(second, "Second enqueue should succeed (path_cost improved)");
    let state_idx = pool.get_index(&state).expect("State should exist");
    let updated_cost = val(pool.cost_from_start(state_idx));
    assert_eq!(updated_cost, 80.0, "Path cost should be updated to better value");
}

#[test]
fn test_enqueue_or_update_preserves_best_cost() {
    let mut pool = StatePool::<TransitionInfo>::new(1000);
    let state1 = make_start();
    // The zero heuristic's lower bound.
    let h1 = 0.0;
    let f1 = 100.0 + h1;
    let result1 = pool.enqueue_or_update_state(state1.clone(), key(100.0), None, 0, None, key(f1));
    assert!(result1, "First enqueue should succeed");
    let handle1 = pool.heap_pop();
    assert!(handle1.is_some(), "State should be in heap after first enqueue");
    if let Some(h) = handle1 {
        assert_eq!(val(h.cost_from_start(&pool)), 100.0, "First enqueue should set cost to 100.0");
        pool.heap_push(&h, key(f1));
    }
    let f2 = 50.0 + h1;
    let result2 = pool.enqueue_or_update_state(state1.clone(), key(50.0), None, 0, None, key(f2));
    assert!(result2, "Second enqueue with better cost should succeed");
    let handle2 = pool.heap_pop();
    assert!(handle2.is_some(), "State should be in heap after update");
    if let Some(h) = handle2 {
        let updated_cost = val(h.cost_from_start(&pool));
        assert_eq!(updated_cost, 50.0, "Cost should be updated to better value 50.0, but got {}", updated_cost);
    }
    let f3 = 150.0 + h1;
    let result3 = pool.enqueue_or_update_state(state1.clone(), key(150.0), None, 0, None, key(f3));
    assert!(!result3, "Enqueuing with worse cost should fail (return false), but got {}", result3);
}

#[test]
fn test_no_duplicate_states_in_heap() {
    let mut pool = StatePool::<TransitionInfo>::new(1000);
    let state1 = make_start();
    let h1 = 0.0;
    for i in 0..10 {
        let cost = if i == 0 { 100.0 } else { 50.0 + (i as f64) };
        let f = cost + h1;
        pool.enqueue_or_update_state(state1.clone(), key(cost), None, 0, None, key(f));
    }
    let mut state1_count = 0;
    while let Some(handle) = pool.heap_pop() {
        let state = handle.state(&pool).unwrap();
        if *state == state1 {
            state1_count += 1;
        }
    }
    assert_eq!(state1_count, 1, "State should appear exactly once in heap, but appears {} times", state1_count);
}

#[test]
fn test_better_path_found_after_expansion() {
    let mut pool = StatePool::<TransitionInfo>::new(1000);
    let state1 = make_start();
    let h1 = 0.0;
    let f1 = 100.0 + h1;
    pool.enqueue_or_update_state(state1.clone(), key(100.0), None, 0, None, key(f1));
    let handle1 = pool.heap_pop().expect("State should be in heap");
    let expanded_cost1 = val(handle1.cost_from_start(&pool));
    assert_eq!(expanded_cost1, 100.0);
    let f2 = 50.0 + h1;
    let result = pool.enqueue_or_update_state(state1.clone(), key(50.0), None, 0, None, key(f2));
    if result {
        if let Some(handle) = pool.heap_pop() {
            let updated_cost = val(handle.cost_from_start(&pool));
            if updated_cost < f64::INFINITY {
                assert!(
                    updated_cost <= 50.0 + 1e-9,
                    "Better path cost should be preserved: got {} but expected <= 50.0",
                    updated_cost
                );
            }
        }
    }
}

#[test]
fn test_cost_update_triggers_heap_reorder() {
    let mut pool = StatePool::<TransitionInfo>::new(1000);
    let state1 = make_start();
    let state2 = State(vec![
        NodeState { infra: 0, civ: 2, mil: 0 },
        NodeState { infra: 0, civ: 0, mil: 0 },
    ]);
    let h1 = 0.0;
    let f1 = 200.0 + h1;
    pool.enqueue_or_update_state(state1.clone(), key(200.0), None, 0, None, key(f1));
    let h2 = 0.0;
    let f2 = 100.0 + h2;
    pool.enqueue_or_update_state(state2.clone(), key(100.0), None, 0, None, key(f2));
    let first = pool.heap_pop().expect("Heap should have states");
    let first_state = first.state(&pool).unwrap().clone();
    assert_eq!(first_state, state2, "State with lower f should be popped first");
    let f1_better = 50.0 + h1;
    pool.enqueue_or_update_state(state1.clone(), key(50.0), None, 0, None, key(f1_better));
    if let Some(second) = pool.heap_pop() {
        let second_cost = val(second.cost_from_start(&pool));
        assert!(second_cost <= 200.0 + 1e-9, "Updated state should have better cost, got {}", second_cost);
    }
}

#[test]
fn cost_keys_order_like_costs() {
    assert_eq!(key(0.0), COST_ZERO);
    assert_eq!(key(-0.0), COST_ZERO);
    assert_eq!(key(f64::INFINITY), COST_INFINITY);
    assert!(key(-1.0) < key(0.0));
    assert!(key(1.0) < key(2.5));
    assert!(key(2.5) < key(f64::INFINITY));
    assert_eq!(val(key(123.25)), 123.25);
    assert_eq!(val(key(-7.5)), -7.5);
}

#[test]
fn pops_lowest_estimate_first() {
    let mut pool = make_pool();
    for (n, f) in [(1u32, 30.0), (2, 10.0), (3, 20.0), (4, 5.0)] {
        assert!(pool.enqueue_or_update_state(test_state(n), key(0.0), None, 0, None, key(f)));
    }
    let mut seen = Vec::new();
    while let Some(h) = pool.heap_pop() {
        seen.push(val(h.cost()));
        pool.release_handle(h);
    }
    assert_eq!(seen, vec![5.0, 10.0, 20.0, 30.0]);
}

#[test]
fn infinite_costs_are_accepted() {
    let mut pool = make_pool();
    assert!(pool.enqueue_or_update_state(test_state(3), key(0.0), None, 0, None, key(f64::INFINITY)));
    assert_eq!(pool.heap_len(), 1);
}

#[test]
fn freed_index_is_reused() {
    let mut pool = make_pool();
    let a = pool.insert_state(test_state(5));
    let b = pool.insert_state(test_state(6));
    assert_ne!(a, b);
    pool.increment_ref_count(a);
    pool.decrement_ref_count(a);
    assert!(!pool.is_active(a));
    assert_eq!(pool.free_indices_count(), 1);
    assert_eq!(pool.get_index(&test_state(5)), None);
    assert_eq!(pool.used_states(), 1);
    let c = pool.insert_state(test_state(7));
    assert_eq!(c, a);
    assert_eq!(pool.get_state(c), Some(&test_state(7)));
    assert_eq!(pool.get_index(&test_state(7)), Some(a));
}

#[test]
fn reinserting_a_known_state_takes_a_new_slot() {
    let mut pool = make_pool();
    let a = pool.insert_state(test_state(8));
    let b = pool.insert_state(test_state(8));
    assert_ne!(a, b);
    assert_eq!(pool.total_states(), 2);
    assert_eq!(pool.get_index(&test_state(8)), Some(b));
}

#[test]
fn parent_links_and_transitions_are_recorded() {
    let mut pool = make_pool();
    assert!(pool.enqueue_or_update_state(test_state(20), key(0.0), None, 0, None, key(0.0)));
    let root = pool.heap_pop().unwrap();
    assert!(pool.enqueue_or_update_state(
        test_state(21),
        key(3.0),
        Some(&root),
        4,
        Some(TransitionInfo { action: Action::Infra, infra: 2, civ_den: 3 }),
        key(3.0),
    ));
    let child_idx = pool.get_index(&test_state(21)).unwrap();
    assert_eq!(pool.parent_idx(child_idx), Some(root.index()));
    assert_eq!(pool.component_idx(child_idx), Some(4));
    let t = pool.transition_info(child_idx).unwrap();
    assert_eq!(t.action, Action::Infra);
    assert_eq!(t.civ_den, 3);
    // The child holds a reference to its parent; the root handle holds another.
    assert_eq!(pool.ref_count(root.index()), 2);
}

#[test]
fn heap_entries_list_the_open_set() {
    let mut pool = make_pool();
    assert!(pool.enqueue_or_update_state(test_state(30), key(0.0), None, 0, None, key(4.0)));
    assert!(pool.enqueue_or_update_state(test_state(31), key(0.0), None, 0, None, key(6.0)));
    let mut entries: Vec<f64> = pool.heap_entries().into_iter().map(|(_, k)| val(k)).collect();
    entries.sort_by(|a, b| a.partial_cmp(b).unwrap());
    assert_eq!(entries, vec![4.0, 6.0]);
    assert!(pool.is_in_heap(pool.get_index(&test_state(30)).unwrap()));
}

#[test]
fn handle_parent_walks_up_one_link() {
    let mut pool = make_pool();
    assert!(pool.enqueue_or_update_state(test_state(40), key(0.0), None, 0, None, key(0.0)));
    let root = pool.heap_pop().unwrap();
    assert!(pool.enqueue_or_update_state(test_state(41), key(2.0), Some(&root), 0, None, key(2.0)));
    let child = pool.heap_pop().unwrap();
    let up = child.parent(&mut pool).unwrap();
    assert_eq!(up.index(), root.index());
    assert_eq!(val(up.cost()), 0.0);
    assert!(root.parent(&mut pool).is_none());
}

#[test]
fn try_enqueue_keeps_the_best_cost() {
    let mut pool = make_pool();
    let a = pool.try_enqueue_state(test_state(50), key(9.0)).unwrap();
    assert_eq!(val(pool.cost_from_start(a)), 9.0);
    assert_eq!(pool.try_enqueue_state(test_state(50), key(9.0)), None);
    assert_eq!(pool.try_enqueue_state(test_state(50), key(4.0)), Some(a));
    assert_eq!(val(pool.cost_from_start(a)), 4.0);
    assert_eq!(pool.ref_count_peak(), 0);
}

#[test]
fn heap_prio_reads_the_key_in_the_open_set() {
    let mut pool = make_pool();
    assert!(pool.enqueue_or_update_state(test_state(60), key(1.0), None, 0, None, key(4.0)));
    let idx = pool.get_index(&test_state(60)).unwrap();
    assert_eq!(pool.heap_prio(idx), Some(key(4.0)));
    assert!(pool.enqueue_or_update_state(test_state(60), key(0.5), None, 0, None, key(3.5)));
    assert_eq!(pool.heap_prio(idx), Some(key(3.5)));
    let h = pool.heap_pop().unwrap();
    assert_eq!(pool.heap_prio(idx), None);
    assert_eq!(pool.heap_prio(5000), None);
    pool.release_handle(h);
}

#[test]
fn decrement_at_zero_changes_nothing() {
    let mut pool = make_pool();
    let idx = pool.insert_state(test_state(70));
    pool.decrement_ref_count(idx);
    assert_eq!(pool.free_indices_count(), 0);
    assert_eq!(pool.get_index(&test_state(70)), Some(idx));
    pool.increment_ref_count(idx);
    pool.decrement_ref_count(idx);
    assert_eq!(pool.free_indices_count(), 1);
    pool.decrement_ref_count(idx);
    pool.decrement_ref_count(5000);
    assert_eq!(pool.free_indices_count(), 1);
    assert_eq!(pool.used_states(), 0);
}

#[test]
fn zero_bound_pool_grows_on_push() {
    let mut pool: StatePool<TransitionInfo> = StatePool::new(0);
    assert_eq!(pool.heap_bound(), 1);
    assert_eq!(pool.ref_count_peak(), 0);
    for n in 0..5 {
        assert!(pool.enqueue_or_update_state(test_state(80 + n), key(n as f64), None, 0, None, key(n as f64)));
    }
    assert_eq!(pool.heap_size(), 5);
    assert!(pool.heap_bound() > 4);
    assert_eq!(val(pool.heap_pop().unwrap().cost()), 0.0);
}

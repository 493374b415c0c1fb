use hoi4_build_core::heap_growth::{grow_heap_if_needed, grow_heap_vector, OpenHeap};
use orx_priority_queue::{PriorityQueue, PriorityQueueDecKey, QuaternaryHeapOfIndices};

/// The order-preserving key of a cost.
fn key(x: f64) -> u64 {
    let bits = x.to_bits();
    if bits & 0x8000_0000_0000_0000 != 0 {
        !bits
    } else {
        bits | 0x8000_0000_0000_0000
    }
}

/// The cost a key stands for.
fn val(k: u64) -> f64 {
    if k & 0x8000_0000_0000_0000 != 0 {
        f64::from_bits(k & 0x7FFF_FFFF_FFFF_FFFF)
    } else {
        f64::from_bits(!k)
    }
}

fn open_with_bound(bound: usize) -> OpenHeap {
    OpenHeap(QuaternaryHeapOfIndices::<usize, u64>::with_index_bound(bound))
}

#[test]
fn unsafe_grow_keeps_positions_len_and_pops_after_growth() {
    let mut h = open_with_bound(8);
    h.0.push(1, key(-3.0));
    h.0.push(2, key(-2.0));
    h.0.push(3, key(-1.0));
    let mut bound = 8usize;
    let grew = grow_heap_if_needed(&mut h, 8, &mut bound);
    assert!(grew);
    assert!(bound >= 16);
    let mut seq = Vec::new();
    while let Some((_idx, negf)) = h.0.pop() {
        seq.push(val(negf));
    }
    assert_eq!(seq, vec![-3.0, -2.0, -1.0]);
}

#[test]
fn unsafe_grow_then_decrease_key_still_validates_order() {
    let mut h = open_with_bound(16);
    h.0.push(1, key(-5.0));
    h.0.push(2, key(-6.0));
    h.0.push(6, key(-100.0));
    let mut bound = 16usize;
    let _ = grow_heap_if_needed(&mut h, 100, &mut bound);
    h.0.decrease_key(&6, key(-200.0));
    let (idx_top, negf_top) = h.0.pop().unwrap();
    assert_eq!(idx_top, 6);
    assert_eq!(val(negf_top), -200.0);
}

#[test]
fn unsafe_grow_randomized_order_invariant() {
    let mut h = open_with_bound(256);
    for i in 0..200 {
        let f = ((i * 37) % 113) as f64 + 0.5;
        h.0.push(i, key(-f));
    }
    let mut bound = 256usize;
    let _ = grow_heap_if_needed(&mut h, 1000, &mut bound);
    let mut prev: Option<f64> = None;
    while let Some((_idx, negf)) = h.0.pop() {
        let negf = val(negf);
        if let Some(p) = prev {
            assert!(p <= negf, "heap order violated: {} !<= {}", p, negf);
        }
        prev = Some(negf);
    }
}

#[test]
fn growth_below_ninety_percent_does_nothing() {
    let mut h = open_with_bound(100);
    h.0.push(5, key(1.0));
    let mut bound = 100usize;
    assert!(!grow_heap_if_needed(&mut h, 89, &mut bound));
    assert_eq!(bound, 100);
    assert!(grow_heap_if_needed(&mut h, 90, &mut bound));
    assert_eq!(bound, 200);
    assert_eq!(h.0.len(), 1);
}

#[test]
fn grown_heap_takes_higher_indices_and_keeps_entries() {
    let mut h = open_with_bound(4);
    h.0.push(0, key(2.0));
    h.0.push(3, key(1.0));
    grow_heap_vector(&mut h, 64);
    h.0.push(50, key(0.5));
    assert_eq!(h.0.len(), 3);
    let order: Vec<usize> = std::iter::from_fn(|| h.0.pop().map(|(i, _)| i)).collect();
    assert_eq!(order, vec![50, 3, 0]);
}

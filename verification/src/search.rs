//! Pieces of the search loop: the plan read back along parent links, the
//! pruning rule and the expansion of a state into the open set, the
//! progress-report cadence, and the size limits of the exact solver.
use crate::domain::{label_of, NodeDesc, NodeState, Successor, SuccessorView, TransitionInfo};
use crate::state_pool::{grown_bound, slot_limit, valid_cost_key, PoolModel, StateHandle, StatePool};
use vstd::prelude::*;

verus! {

/// The parent of slot `i`, if `i` is a slot and has one.
pub open spec fn parent_in(m: PoolModel<TransitionInfo>, i: int) -> Option<usize> {
    if 0 <= i < m.slots.len() {
        m.slots[i].parent
    } else {
        None
    }
}

/// The move that reached slot `i`: its component (0 if unset) and its action
/// label ("unknown" if unset).
pub open spec fn move_of(m: PoolModel<TransitionInfo>, i: int) -> (usize, Seq<char>) {
    (
        match m.slots[i].component {
            Some(c) => c,
            None => 0,
        },
        match m.slots[i].transition {
            Some(t) => label_of(t.action)@,
            None => "unknown"@,
        },
    )
}

/// Walking from slot `i` to its parent `p`: a handle to `p` is taken and the
/// handle to `i` given back.
pub open spec fn walk_step(m: PoolModel<TransitionInfo>, i: int, p: int) -> PoolModel<TransitionInfo> {
    m.increment(p).decrement(i)
}

/// The moves met walking parent links from `i`, at most `fuel` of them,
/// latest first.
pub open spec fn moves_along(m: PoolModel<TransitionInfo>, i: int, fuel: nat) -> Seq<(usize, Seq<char>)>
    decreases fuel,
{
    if fuel == 0 {
        Seq::empty()
    } else {
        match parent_in(m, i) {
            Some(p) => seq![move_of(m.increment(p as int), i)] + moves_along(walk_step(m, i, p as int), p as int, (fuel - 1) as nat),
            None => Seq::empty(),
        }
    }
}

/// The pool after walking parent links from `i` with at most `fuel` steps and
/// giving back the last handle.
pub open spec fn released_along(m: PoolModel<TransitionInfo>, i: int, fuel: nat) -> PoolModel<TransitionInfo>
    decreases fuel,
{
    if fuel == 0 {
        m.decrement(i)
    } else {
        match parent_in(m, i) {
            Some(p) => released_along(walk_step(m, i, p as int), p as int, (fuel - 1) as nat),
            None => m.decrement(i),
        }
    }
}

/// Read the plan back from `goal` along parent links, earliest move first.
///
/// Each state with a parent contributes its component (0 if unset) and its
/// action label ("unknown" if unset). The walk takes at most as many steps as
/// the pool has slots, which an acyclic chain of parents never reaches. The
/// handles taken along the way, and `goal`, are given back.
pub fn reconstruct_path(pool: &mut StatePool<TransitionInfo>, goal: StateHandle) -> (moves: Vec<(usize, &'static str)>)
    requires
        old(pool).wf(),
        old(pool).model().peak + old(pool).model().slots.len() < u32::MAX,
    ensures
        final(pool).wf(),
        final(pool).model() == released_along(old(pool).model(), goal@.0 as int, old(pool).model().slots.len()),
        moves@.len() == moves_along(old(pool).model(), goal@.0 as int, old(pool).model().slots.len()).len(),
        forall|k: int| 0 <= k < moves@.len() ==> {
            let along = moves_along(old(pool).model(), goal@.0 as int, old(pool).model().slots.len());
            &&& (#[trigger] moves@[k]).0 == along[along.len() - 1 - k].0
            &&& moves@[k].1@ == along[along.len() - 1 - k].1
        },
{
    let n = pool.total_states();
    let ghost m0 = pool.model();
    let mut latest_first: Vec<(usize, &'static str)> = Vec::new();
    let mut walk = goal;
    let mut steps: usize = 0;
    loop
        invariant
            pool.wf(),
            steps <= n,
            n == m0.slots.len(),
            pool.model().peak <= m0.peak + steps,
            m0.peak + n < u32::MAX,
            released_along(pool.model(), walk@.0 as int, (n - steps) as nat) == released_along(m0, goal@.0 as int, n as nat),
            latest_first@.len() + moves_along(pool.model(), walk@.0 as int, (n - steps) as nat).len()
                == moves_along(m0, goal@.0 as int, n as nat).len(),
            forall|k: int| 0 <= k < latest_first@.len() ==> {
                &&& (#[trigger] latest_first@[k]).0 == moves_along(m0, goal@.0 as int, n as nat)[k].0
                &&& latest_first@[k].1@ == moves_along(m0, goal@.0 as int, n as nat)[k].1
            },
            forall|k: int| 0 <= k < moves_along(pool.model(), walk@.0 as int, (n - steps) as nat).len()
                ==> #[trigger] moves_along(pool.model(), walk@.0 as int, (n - steps) as nat)[k]
                == moves_along(m0, goal@.0 as int, n as nat)[latest_first@.len() + k],
        ensures
            pool.wf(),
            released_along(pool.model(), walk@.0 as int, (n - steps) as nat) == pool.model().decrement(walk@.0 as int),
            moves_along(pool.model(), walk@.0 as int, (n - steps) as nat).len() == 0,
            released_along(pool.model(), walk@.0 as int, (n - steps) as nat) == released_along(m0, goal@.0 as int, n as nat),
            latest_first@.len() == moves_along(m0, goal@.0 as int, n as nat).len(),
            forall|k: int| 0 <= k < latest_first@.len() ==> {
                &&& (#[trigger] latest_first@[k]).0 == moves_along(m0, goal@.0 as int, n as nat)[k].0
                &&& latest_first@[k].1@ == moves_along(m0, goal@.0 as int, n as nat)[k].1
            },
        decreases n - steps,
    {
        let ghost m = pool.model();
        let ghost fuel = (n - steps) as nat;
        if steps == n {
            assert(moves_along(m, walk@.0 as int, fuel) =~= Seq::<(usize, Seq<char>)>::empty());
            assert(moves_along(pool.model(), walk@.0 as int, (n - steps) as nat).len() == 0);
            assert(latest_first@.len() == moves_along(m0, goal@.0 as int, n as nat).len());
            break;
        }
        proof {
            pool.lemma_refs_within_peak();
        }
        match walk.parent(pool) {
            Some(parent_handle) => {
                let p = parent_handle.index();
                let ghost mi = pool.model();
                assert(mi == m.increment(p as int));
                let idx = match walk.component_index(pool) {
                    Some(c) => c,
                    None => 0,
                };
                let action = match walk.transition_info(pool) {
                    Some(t) => t.action.label(),
                    None => "unknown",
                };
                assert(walk@.0 < m.slots.len());
                assert(idx == move_of(mi, walk@.0 as int).0);
                assert(action@ == move_of(mi, walk@.0 as int).1);
                let ghost before = latest_first@;
                latest_first.push((idx, action));
                pool.release_handle(walk);
                assert(pool.model() == walk_step(m, walk@.0 as int, p as int));
                let ghost w = walk@.0 as int;
                walk = parent_handle;
                steps = steps + 1;
                assert(moves_along(m, w, fuel) == seq![move_of(mi, w)] + moves_along(pool.model(), walk@.0 as int, (n - steps) as nat));
                assert(released_along(m, w, fuel) == released_along(pool.model(), walk@.0 as int, (n - steps) as nat));
                proof {
                    let total = moves_along(m0, goal@.0 as int, n as nat);
                    let old_rest = moves_along(m, w, fuel);
                    let new_rest = moves_along(pool.model(), walk@.0 as int, (n - steps) as nat);
                    assert(old_rest[0] == total[before.len() as int]);
                    assert forall|k: int| 0 <= k < new_rest.len() implies #[trigger] new_rest[k] == total[latest_first@.len() + k] by {
                        assert(new_rest[k] == old_rest[k + 1]);
                    };
                    assert forall|k: int| 0 <= k < latest_first@.len() implies {
                        &&& (#[trigger] latest_first@[k]).0 == total[k].0
                        &&& latest_first@[k].1@ == total[k].1
                    } by {
                        if k < before.len() {
                            assert(latest_first@[k] == before[k]);
                        }
                    };
                }
            },
            None => {
                assert(moves_along(m, walk@.0 as int, fuel) =~= Seq::<(usize, Seq<char>)>::empty());
                assert(released_along(m, walk@.0 as int, fuel) == m.decrement(walk@.0 as int));
                assert(moves_along(pool.model(), walk@.0 as int, (n - steps) as nat).len() == 0);
                assert(latest_first@.len() == moves_along(m0, goal@.0 as int, n as nat).len());
                break;
            },
        }
    }
    pool.release_handle(walk);
    let mut moves: Vec<(usize, &'static str)> = Vec::new();
    let mut i: usize = latest_first.len();
    while i > 0
        invariant
            i <= latest_first@.len(),
            moves@.len() == latest_first@.len() - i,
            forall|k: int| 0 <= k < moves@.len() ==> #[trigger] moves@[k] == latest_first@[latest_first@.len() - 1 - k],
        decreases i,
    {
        i = i - 1;
        moves.push(latest_first[i]);
    }
    moves
}

/// Whether the progress callback runs at expansion `expanded`: reporting is on
/// (`print_every > 0`) and this is the first expansion or a multiple of `print_every`.
pub fn should_report(expanded: usize, print_every: usize) -> (r: bool)
    ensures
        r == (print_every > 0 && (expanded == 1 || expanded % print_every == 0)),
{
    print_every > 0 && (expanded == 1 || expanded % print_every == 0)
}

/// What pruning decides for a candidate whose total cost (as a key) is
/// `candidate`, against the incumbent bound `best`: the candidate is kept when
/// it is within the bound, and the bound then tightens to it; otherwise the
/// candidate is dropped and the bound stays. The bound never rises.
pub fn prune_step(candidate: u64, best: u64) -> (r: (bool, u64))
    ensures
        r.0 == (candidate <= best),
        r.1 == (if candidate <= best { candidate } else { best }),
        r.1 <= best,
{
    if candidate <= best {
        (true, candidate)
    } else {
        (false, best)
    }
}

/// A successor with the cost keys the search worked out for it: the path
/// cost, the estimated total (path cost plus lower bound) and the bound total
/// (path cost plus upper bound).
pub struct ScoredSuccessor {
    pub successor: Successor,
    pub path_cost: u64,
    pub estimate: u64,
    pub bound: u64,
}

/// How a successor's state is reached from its parent.
pub open spec fn transition_of(s: SuccessorView) -> TransitionInfo {
    TransitionInfo { action: s.action, infra: s.infra, civ_den: s.civ_den }
}

/// Enqueueing one scored successor under `parent`; a cost key that is not
/// valid leaves the pool as it is.
pub open spec fn enqueue_effect(m: PoolModel<TransitionInfo>, parent: usize, it: ScoredSuccessor) -> PoolModel<TransitionInfo> {
    if valid_cost_key(it.path_cost) && valid_cost_key(it.estimate) {
        m.enqueued(
            it.successor@.next_state,
            it.path_cost,
            Some(parent),
            it.successor@.node_index,
            Some(transition_of(it.successor@)),
            it.estimate,
        ).0
    } else {
        m
    }
}

/// Expanding a state: its scored successors are taken in order. With
/// pruning, a successor whose bound total exceeds the running bound is
/// dropped and counted; otherwise the bound tightens to its bound total. Every
/// successor not dropped is enqueued under `parent`. Gives the pool, the
/// bound and the number dropped.
pub open spec fn expansion(
    m: PoolModel<TransitionInfo>,
    parent: usize,
    items: Seq<ScoredSuccessor>,
    prune: bool,
    best: u64,
) -> (PoolModel<TransitionInfo>, u64, nat)
    decreases items.len(),
{
    if items.len() == 0 {
        (m, best, 0)
    } else {
        let (m0, b0, p0) = expansion(m, parent, items.drop_last(), prune, best);
        let it = items.last();
        if prune && it.bound > b0 {
            (m0, b0, p0 + 1)
        } else {
            (enqueue_effect(m0, parent, it), if prune { it.bound } else { b0 }, p0)
        }
    }
}

/// No slot's reference count exceeds the recorded peak.
pub open spec fn refs_within_peak<T>(m: PoolModel<T>) -> bool {
    forall|i: int| 0 <= i < m.slots.len() ==> #[trigger] m.slots[i].refs <= m.peak
}

proof fn lemma_grown_bound(b: nat, idx: nat)
    ensures
        grown_bound(b, idx) >= b,
    decreases (if b > idx { 0 } else { idx + 1 - b }),
{
    if !(b == 0 || b > idx) {
        lemma_grown_bound(b * 2, idx);
    }
}

proof fn lemma_increment_step<T>(m: PoolModel<T>, i: int)
    requires
        refs_within_peak(m),
    ensures
        refs_within_peak(m.increment(i)),
        m.increment(i).peak <= m.peak + 1,
        m.increment(i).slots.len() == m.slots.len(),
        m.increment(i).bound == m.bound,
{
    if 0 <= i < m.slots.len() {
        assert(m.slots[i].refs <= m.peak);
    }
}

proof fn lemma_decrement_step<T>(m: PoolModel<T>, i: int)
    requires
        refs_within_peak(m),
    ensures
        refs_within_peak(m.decrement(i)),
        m.decrement(i).peak == m.peak,
        m.decrement(i).slots.len() == m.slots.len(),
        m.decrement(i).bound == m.bound,
{
}

/// One enqueue adds at most one slot, raises the peak by at most three and
/// never lowers the heap bound.
proof fn lemma_enqueued_step<T>(
    m: PoolModel<T>,
    s: Seq<NodeState>,
    cost: u64,
    parent: Option<usize>,
    component: usize,
    transition: Option<T>,
    est: u64,
)
    requires
        refs_within_peak(m),
        m.consistent(),
    ensures
        refs_within_peak(m.enqueued(s, cost, parent, component, transition, est).0),
        m.enqueued(s, cost, parent, component, transition, est).0.peak <= m.peak + 3,
        m.slots.len() <= m.enqueued(s, cost, parent, component, transition, est).0.slots.len() <= m.slots.len() + 1,
        m.enqueued(s, cost, parent, component, transition, est).0.bound >= m.bound,
{
    let (m1, r) = m.best_cost_updated(s, cost);
    if !m.index.dom().contains(s) {
        let (ma, ia) = m.allocated();
        if m.free.len() > 0 {
            assert(m.free[m.free.len() - 1] < m.slots.len());
        }
        assert(refs_within_peak(ma));
        assert(refs_within_peak(ma.placed(ia as int, s)));
    }
    if let Some(i) = r {
        assert(refs_within_peak(m1));
        assert(m1.peak == m.peak && m1.bound == m.bound);
        assert(m.slots.len() <= m1.slots.len() <= m.slots.len() + 1);
        let ma = match m1.slots[i as int].parent {
            Some(op) => m1.decrement(op as int),
            None => m1,
        };
        if let Some(op) = m1.slots[i as int].parent {
            lemma_decrement_step(m1, op as int);
        }
        let mb = match parent {
            Some(p) => ma.increment(p as int),
            None => ma,
        };
        if let Some(p) = parent {
            lemma_increment_step(ma, p as int);
        }
        let mr = m1.relinked(i as int, parent, component, transition);
        assert(refs_within_peak(mr));
        assert(mr.peak <= m.peak + 1 && mr.bound == m.bound && mr.slots.len() == m1.slots.len());
        let m2 = mr.bound_for(i as int);
        lemma_grown_bound(mr.bound, i as nat);
        if m2.open.dom().contains(i) {
            assert(refs_within_peak(m2.decreased(i, est).0));
        } else {
            let x = m2.increment(i as int);
            lemma_increment_step(m2, i as int);
            lemma_grown_bound(x.bound, i as nat);
            let y = x.bound_for(i as int);
            assert(refs_within_peak(y));
            lemma_increment_step(y, i as int);
            let z = x.pushed(i as int, est);
            assert(refs_within_peak(z));
            lemma_decrement_step(z, i as int);
        }
    }
}

/// Expand a state: enqueue its scored successors under `parent`, in order,
/// pruning against the running bound `best` when `prune` is set (see
/// [`expansion`]). Returns the final bound and the number of successors
/// dropped.
pub fn expand(
    pool: &mut StatePool<TransitionInfo>,
    parent: &StateHandle,
    items: &Vec<ScoredSuccessor>,
    prune: bool,
    best: u64,
) -> (r: (u64, usize))
    requires
        old(pool).wf(),
        parent@.0 < old(pool).model().slots.len(),
        old(pool).model().slots.len() + items@.len() + 1 < slot_limit(),
        old(pool).model().peak + 3 * items@.len() + 2 < u32::MAX,
        forall|k: int| 0 <= k < items@.len() ==> (#[trigger] items@[k]).successor.node_index != usize::MAX,
    ensures
        final(pool).wf(),
        expansion(old(pool).model(), parent@.0, items@, prune, best) == (final(pool).model(), r.0, r.1 as nat),
{
    let ghost m0 = pool.model();
    let mut bound = best;
    let mut dropped: usize = 0;
    let mut k: usize = 0;
    while k < items.len()
        invariant
            k <= items@.len(),
            pool.wf(),
            dropped <= k,
            expansion(m0, parent@.0, items@.take(k as int), prune, best) == (pool.model(), bound, dropped as nat),
            pool.model().bound >= m0.bound,
            m0.slots.len() <= pool.model().slots.len() <= m0.slots.len() + k,
            pool.model().peak <= m0.peak + 3 * k,
            parent@.0 < m0.slots.len(),
            m0.slots.len() + items@.len() + 1 < slot_limit(),
            m0.peak + 3 * items@.len() + 2 < u32::MAX,
            forall|j: int| 0 <= j < items@.len() ==> (#[trigger] items@[j]).successor.node_index != usize::MAX,
        decreases items@.len() - k,
    {
        let it = &items[k];
        proof {
            assert(items@.take(k + 1).drop_last() =~= items@.take(k as int));
            assert(items@.take(k + 1).last() == items@[k as int]);
            pool.lemma_refs_within_peak();
            pool.lemma_wf_consistent();
            assert(it.successor.node_index != usize::MAX);
        }
        if prune && it.bound > bound {
            dropped = dropped + 1;
        } else {
            let ghost mk = pool.model();
            let transition = TransitionInfo { action: it.successor.action, infra: it.successor.infra, civ_den: it.successor.civ_den };
            pool.enqueue_or_update_state(
                it.successor.next_state.duplicate(),
                it.path_cost,
                Some(parent),
                it.successor.node_index,
                Some(transition),
                it.estimate,
            );
            proof {
                if valid_cost_key(it.path_cost) && valid_cost_key(it.estimate) {
                    assert(mk.consistent());
                    lemma_enqueued_step(
                        mk,
                        it.successor@.next_state,
                        it.path_cost,
                        Some(parent@.0),
                        it.successor@.node_index,
                        Some(transition_of(it.successor@)),
                        it.estimate,
                    );
                }
            }
            if prune {
                bound = it.bound;
            }
        }
        k = k + 1;
    }
    proof {
        assert(items@.take(k as int) =~= items@);
    }
    (bound, dropped)
}

/// Largest number of nodes the exact solver takes on.
pub const EXACT_MAX_NODES: usize = 2;

/// Largest slot count per node the exact solver takes on.
pub const EXACT_MAX_SLOTS: u8 = 3;

/// Largest target the exact solver takes on.
pub const EXACT_MAX_TARGET: i32 = 2;

/// Number of expansions after which the exact solver gives up.
pub const EXACT_MAX_STATES: usize = 10_000;

/// Whether an instance is small enough for the exact solver: at most two
/// nodes, at most three slots on each, and a target of at most two.
pub fn exact_solver_accepts(desc: &[NodeDesc], target: i32) -> (r: bool)
    ensures
        r == (desc@.len() <= EXACT_MAX_NODES && (forall|i: int| 0 <= i < desc@.len() ==> #[trigger] desc@[i].slots
            <= EXACT_MAX_SLOTS) && target <= EXACT_MAX_TARGET),
{
    if desc.len() > EXACT_MAX_NODES {
        return false;
    }
    let mut i: usize = 0;
    while i < desc.len()
        invariant
            i <= desc@.len(),
            forall|j: int| 0 <= j < i ==> #[trigger] desc@[j].slots <= EXACT_MAX_SLOTS,
        decreases desc@.len() - i,
    {
        if desc[i].slots > EXACT_MAX_SLOTS {
            return false;
        }
        i = i + 1;
    }
    target <= EXACT_MAX_TARGET
}

} // verus!

//! What the main operations do, stated over their inputs and results: which
//! successors a state has and in what order, what an enqueue and an expansion
//! record, what a plan read back starts with, how the greedy upper bound is
//! made (its conversion denominators, its amounts, its cheapest-first order),
//! and which input rows are accepted or refused.
use crate::domain::{label_of, successors_spec, successors_upto, successor_of, node_successors, present_if,
    action_allowed, target_count, Action, NodeDesc, NodeState, SuccessorView, TargetType, TransitionInfo, sum_civ};
use crate::heuristic::{BoundTerm, build_left, build_terms, conv_count, conv_terms, empty_slots, indices_at, infra_order, max1,
    max_infra, min_int, order_range, paired_len, sum_empty, sum_slots, unit_terms, upper_bound_spec};
use crate::instance::{descs_of, first_state_error, instance_of, row_state_error, states_of, Field, InputError};
use crate::laws::lemma_successor_origin;
use crate::search::{expansion, moves_along, ScoredSuccessor};
use crate::state_pool::{valid_cost_key, PoolModel};
use vstd::prelude::*;

verus! {

/// Slot `i` of `after` records an accepted path to state `s`: it is the slot
/// `before` mapped `s` to, or (for a state `before` did not hold) it holds
/// `s`; it has the offered cost, parent, component and transition; and it is
/// in the open set with the lower of its key in `before` (if any) and `est`.
pub open spec fn slot_records<T>(
    before: PoolModel<T>,
    after: PoolModel<T>,
    i: usize,
    s: Seq<NodeState>,
    cost: u64,
    parent: Option<usize>,
    component: usize,
    transition: Option<T>,
    est: u64,
) -> bool {
    &&& i < after.slots.len()
    &&& (before.index.dom().contains(s) ==> i == before.index[s])
    &&& (!before.index.dom().contains(s) ==> after.slots[i as int].state == s)
    &&& after.slots[i as int].cost == cost
    &&& after.slots[i as int].parent == parent
    &&& after.slots[i as int].component == Some(component)
    &&& after.slots[i as int].transition == transition
    &&& after.open.dom().contains(i)
    &&& after.open[i] == (if before.open.dom().contains(i) && before.open[i] <= est { before.open[i] } else { est })
}

/// What a successful enqueue records: a call that offers a state the pool
/// does not hold, or a cost below the best cost of a state it holds, is
/// accepted, and then the state's slot (the same slot for a held state) holds
/// the state, takes the offered cost, parent, component and transition, and
/// sits in the open set with the lower of its present key (if any) and the
/// offered estimate. A refused call changes nothing.
#[verifier::spinoff_prover]
#[verifier::rlimit(60)]
pub proof fn law_enqueue_records_path<T>(
    m: PoolModel<T>,
    s: Seq<NodeState>,
    cost: u64,
    parent: Option<usize>,
    component: usize,
    transition: Option<T>,
    est: u64,
)
    requires
        m.consistent(),
        m.slots.len() < usize::MAX,
        m.index.dom().contains(s) ==> m.slots[m.index[s] as int].parent != Some(m.index[s]),
    ensures
        ({
            let (m2, ok) = m.enqueued(s, cost, parent, component, transition, est);
            &&& ok == (!m.index.dom().contains(s) || cost < m.slots[m.index[s] as int].cost)
            &&& !ok ==> m2 == m
            &&& ok ==> exists|i: usize| #[trigger] slot_records(m, m2, i, s, cost, parent, component, transition, est)
        }),
{
    let (m1, r) = m.best_cost_updated(s, cost);
    if let Some(i) = r {
        if !m.index.dom().contains(s) {
            let (ma, ia) = m.allocated();
            if m.free.len() > 0 {
                assert(m.free[m.free.len() - 1] < m.slots.len());
            }
            assert(ia == i);
            assert(m1.slots[i as int].refs == 0);
            assert(m1.slots[i as int].state == s);
        } else {
            assert(i == m.index[s]);
            assert(i < m.slots.len());
        }
        assert(m1.slots[i as int].cost == cost);
        let ma = match m1.slots[i as int].parent {
            Some(op) => m1.decrement(op as int),
            None => m1,
        };
        assert(ma.slots[i as int].cost == cost);
        assert(ma.slots[i as int].state == m1.slots[i as int].state);
        let mb = match parent {
            Some(p) => ma.increment(p as int),
            None => ma,
        };
        assert(mb.slots[i as int].cost == cost);
        let mr = m1.relinked(i as int, parent, component, transition);
        assert(mr.slots[i as int].cost == cost && mr.slots[i as int].parent == parent);
        assert(mr.open == m.open);
        let m2 = mr.bound_for(i as int);
        let fin = m.enqueued(s, cost, parent, component, transition, est).0;
        if m2.open.dom().contains(i) {
            assert(fin.slots == m2.slots);
        } else {
            let x = m2.increment(i as int);
            let y = x.pushed(i as int, est);
            assert(y.slots[i as int].refs >= 2);
            assert(fin.slots[i as int].cost == y.slots[i as int].cost);
        }
        assert(fin.open.dom().contains(i));
        assert(fin.slots[i as int].cost == cost);
        assert(fin.slots[i as int].parent == parent);
        assert(fin.slots[i as int].component == Some(component));
        assert(fin.slots[i as int].transition == transition);
        assert(!m.index.dom().contains(s) ==> fin.slots[i as int].state == s);
        assert(fin.open[i] == (if m.open.dom().contains(i) && m.open[i] <= est { m.open[i] } else { est }));
        assert(slot_records(m, fin, i, s, cost, parent, component, transition, est));
    }
}

/// What an expansion records for a successor it keeps: expanding one more
/// successor after `prev`, with valid cost keys and not pruned (pruning off,
/// or its bound total within the running bound), enqueues its next state under
/// `parent` with its path cost as the cost offered and its estimate as the
/// key offered. A state the pool did not hold then has a slot holding it whose
/// best cost is the path cost and whose open-set key is the estimate (unless
/// the slot already had a lower key); a held state whose best cost was above
/// the path cost takes the path cost and the lower of its key and the
/// estimate; a held state whose best cost was not above it is left as it was.
/// The slot's parent is `parent`, its component the successor's node, its
/// transition the successor's action with the node's infrastructure and the
/// civilian denominator.
#[verifier::spinoff_prover]
#[verifier::rlimit(40)]
pub proof fn law_expansion_enqueues_kept_successor(
    m: PoolModel<TransitionInfo>,
    parent: usize,
    prev: Seq<ScoredSuccessor>,
    it: ScoredSuccessor,
    prune: bool,
    best: u64,
)
    requires
        ({
            let (m0, b0, p0) = expansion(m, parent, prev, prune, best);
            let s = it.successor@.next_state;
            &&& m0.consistent()
            &&& m0.slots.len() < usize::MAX
            &&& m0.index.dom().contains(s) ==> m0.slots[m0.index[s] as int].parent != Some(m0.index[s])
            &&& valid_cost_key(it.path_cost)
            &&& valid_cost_key(it.estimate)
            &&& (!prune || it.bound <= b0)
        }),
    ensures
        ({
            let (m0, b0, p0) = expansion(m, parent, prev, prune, best);
            let (m1, b1, p1) = expansion(m, parent, prev.push(it), prune, best);
            let s = it.successor@.next_state;
            let held = m0.index.dom().contains(s);
            &&& p1 == p0
            &&& (held && it.path_cost >= m0.slots[m0.index[s] as int].cost) ==> m1 == m0
            &&& (!held || it.path_cost < m0.slots[m0.index[s] as int].cost) ==> exists|i: usize| #[trigger] slot_records(
                m0,
                m1,
                i,
                s,
                it.path_cost,
                Some(parent),
                it.successor@.node_index,
                Some(TransitionInfo {
                    action: it.successor@.action,
                    infra: it.successor@.infra,
                    civ_den: it.successor@.civ_den,
                }),
                it.estimate,
            )
        }),
{
    assert(prev.push(it).drop_last() =~= prev);
    assert(prev.push(it).last() == it);
    let (m0, b0, p0) = expansion(m, parent, prev, prune, best);
    let s = it.successor@.next_state;
    let tr = Some(TransitionInfo { action: it.successor@.action, infra: it.successor@.infra, civ_den: it.successor@.civ_den });
    law_enqueue_records_path(m0, s, it.path_cost, Some(parent), it.successor@.node_index, tr, it.estimate);
    let (m2, ok) = m0.enqueued(s, it.path_cost, Some(parent), it.successor@.node_index, tr, it.estimate);
    assert(crate::search::transition_of(it.successor@) == tr.unwrap());
    assert(expansion(m, parent, prev.push(it), prune, best) == (m2, if prune { it.bound } else { b0 }, p0));
    if ok {
        let i = choose|i: usize| slot_records(m0, m2, i, s, it.path_cost, Some(parent), it.successor@.node_index, tr, it.estimate);
        assert(slot_records(m0, expansion(m, parent, prev.push(it), prune, best).0, i, s, it.path_cost, Some(parent), it.successor@.node_index, tr, it.estimate));
    } else {
        assert(expansion(m, parent, prev.push(it), prune, best).0 == m0);
    }
}

/// Some successor in `succs` acts with `a` on node `i` and leads to `next`.
pub open spec fn has_move(succs: Seq<SuccessorView>, i: int, a: Action, next: Seq<NodeState>) -> bool {
    exists|k: int| 0 <= k < succs.len() && #[trigger] succs[k].node_index == i && succs[k].action == a
        && succs[k].next_state == next
}

/// The successors through the first `n` nodes begin the successors through
/// the first `m >= n` nodes.
proof fn lemma_upto_prefix(st: Seq<NodeState>, nodes: Seq<NodeDesc>, n: int, m: int)
    requires
        0 <= n <= m,
    ensures
        successors_upto(st, nodes, n).len() <= successors_upto(st, nodes, m).len(),
        forall|k: int| 0 <= k < successors_upto(st, nodes, n).len() ==>
            #[trigger] successors_upto(st, nodes, m)[k] == successors_upto(st, nodes, n)[k],
    decreases m - n,
{
    if n < m {
        lemma_upto_prefix(st, nodes, n, m - 1);
        assert(successors_upto(st, nodes, m) == successors_upto(st, nodes, m - 1) + node_successors(st, nodes, m - 1));
    }
}

/// A feasible action on node `i < n` has its successor among those through
/// the first `n` nodes.
proof fn lemma_feasible_listed(st: Seq<NodeState>, nodes: Seq<NodeDesc>, i: int, n: int, a: Action)
    requires
        0 <= i < n,
        action_allowed(st[i], nodes[i], a),
    ensures
        exists|k: int| 0 <= k < successors_upto(st, nodes, n).len()
            && #[trigger] successors_upto(st, nodes, n)[k] == successor_of(st, i, a),
{
    let pre = successors_upto(st, nodes, i);
    let c1 = present_if(action_allowed(st[i], nodes[i], Action::Civilian), successor_of(st, i, Action::Civilian));
    let c2 = present_if(action_allowed(st[i], nodes[i], Action::Military), successor_of(st, i, Action::Military));
    let c3 = present_if(action_allowed(st[i], nodes[i], Action::Infra), successor_of(st, i, Action::Infra));
    let c4 = present_if(action_allowed(st[i], nodes[i], Action::Convert), successor_of(st, i, Action::Convert));
    let block = node_successors(st, nodes, i);
    assert(block == c1 + c2 + c3 + c4);
    assert(successors_upto(st, nodes, i + 1) == pre + block);
    let j: int = match a {
        Action::Civilian => 0,
        Action::Military => c1.len() as int,
        Action::Infra => (c1.len() + c2.len()) as int,
        Action::Convert => (c1.len() + c2.len() + c3.len()) as int,
    };
    assert(block[j] == successor_of(st, i, a));
    let k = pre.len() + j;
    assert(successors_upto(st, nodes, i + 1)[k] == successor_of(st, i, a));
    lemma_upto_prefix(st, nodes, i + 1, n);
    assert(successors_upto(st, nodes, n)[k] == successor_of(st, i, a));
}

/// Every feasible move is generated: on every node `i` with a free slot
/// (`civ + mil < slots`) there is a civilian build and a military build,
/// raising that node's civilian (resp. military) count by one; below
/// infrastructure level 5 there is an infrastructure raise; with a civilian
/// factory there is a conversion, one civilian fewer and one military more.
/// The rest of the joint state is unchanged in each.
#[verifier::spinoff_prover]
pub proof fn law_successors_include_every_feasible_move(st: Seq<NodeState>, nodes: Seq<NodeDesc>, i: int)
    requires
        0 <= i < st.len(),
        st.len() <= nodes.len(),
        st.len() <= usize::MAX,
    ensures
        ({
            let ns = st[i];
            let succs = successors_spec(st, nodes);
            &&& ns.civ + ns.mil < nodes[i].slots ==> has_move(succs, i, Action::Civilian,
                st.update(i, NodeState { infra: ns.infra, civ: (ns.civ + 1) as u8, mil: ns.mil }))
            &&& ns.civ + ns.mil < nodes[i].slots ==> has_move(succs, i, Action::Military,
                st.update(i, NodeState { infra: ns.infra, civ: ns.civ, mil: (ns.mil + 1) as u8 }))
            &&& ns.infra < 5 ==> has_move(succs, i, Action::Infra,
                st.update(i, NodeState { infra: (ns.infra + 1) as u8, civ: ns.civ, mil: ns.mil }))
            &&& ns.civ >= 1 ==> has_move(succs, i, Action::Convert,
                st.update(i, NodeState { infra: ns.infra, civ: (ns.civ - 1) as u8, mil: (ns.mil + 1) as u8 }))
        }),
{
    let ns = st[i];
    let n = st.len() as int;
    let succs = successors_spec(st, nodes);
    if ns.civ + ns.mil < nodes[i].slots {
        lemma_feasible_listed(st, nodes, i, n, Action::Civilian);
        let k = choose|k: int| 0 <= k < successors_upto(st, nodes, n).len()
            && #[trigger] successors_upto(st, nodes, n)[k] == successor_of(st, i, Action::Civilian);
        assert(succs[k].node_index == i);
        lemma_feasible_listed(st, nodes, i, n, Action::Military);
        let k2 = choose|k: int| 0 <= k < successors_upto(st, nodes, n).len()
            && #[trigger] successors_upto(st, nodes, n)[k] == successor_of(st, i, Action::Military);
        assert(succs[k2].node_index == i);
    }
    if ns.infra < 5 {
        lemma_feasible_listed(st, nodes, i, n, Action::Infra);
        let k = choose|k: int| 0 <= k < successors_upto(st, nodes, n).len()
            && #[trigger] successors_upto(st, nodes, n)[k] == successor_of(st, i, Action::Infra);
        assert(succs[k].node_index == i);
    }
    if ns.civ >= 1 {
        lemma_feasible_listed(st, nodes, i, n, Action::Convert);
        let k = choose|k: int| 0 <= k < successors_upto(st, nodes, n).len()
            && #[trigger] successors_upto(st, nodes, n)[k] == successor_of(st, i, Action::Convert);
        assert(succs[k].node_index == i);
    }
}

/// Every generated successor is a feasible move, stated on the raw counts:
/// it acts on a node `i` of the state; a civilian or military build needs a
/// free slot there (`civ + mil < slots`) and raises that count by one; an
/// infrastructure raise needs a level below 5 and raises it by one; a
/// conversion needs a civilian factory and turns it into a military one.
/// Every other node is unchanged. It records node `i`'s infrastructure
/// level before the move and, as the civilian denominator, the state's
/// civilian total, at least 1.
#[verifier::spinoff_prover]
pub proof fn law_successor_is_feasible_move(st: Seq<NodeState>, nodes: Seq<NodeDesc>, k: int)
    requires
        st.len() <= nodes.len(),
        st.len() <= usize::MAX,
        sum_civ(st) <= i32::MAX,
        0 <= k < successors_spec(st, nodes).len(),
    ensures
        ({
            let s = successors_spec(st, nodes)[k];
            let i = s.node_index as int;
            let ns = st[i];
            &&& 0 <= i < st.len()
            &&& s.action == Action::Civilian ==> ns.civ + ns.mil < nodes[i].slots
                && s.next_state == st.update(i, NodeState { infra: ns.infra, civ: (ns.civ + 1) as u8, mil: ns.mil })
            &&& s.action == Action::Military ==> ns.civ + ns.mil < nodes[i].slots
                && s.next_state == st.update(i, NodeState { infra: ns.infra, civ: ns.civ, mil: (ns.mil + 1) as u8 })
            &&& s.action == Action::Infra ==> ns.infra < 5
                && s.next_state == st.update(i, NodeState { infra: (ns.infra + 1) as u8, civ: ns.civ, mil: ns.mil })
            &&& s.action == Action::Convert ==> ns.civ >= 1
                && s.next_state == st.update(i, NodeState { infra: ns.infra, civ: (ns.civ - 1) as u8, mil: (ns.mil + 1) as u8 })
            &&& s.infra == ns.infra
            &&& s.civ_den == (if sum_civ(st) > 1 { sum_civ(st) } else { 1 })
        }),
{
    lemma_successor_origin(st, nodes, st.len() as int, k);
    let (i, a) = choose|i: int, a: Action| 0 <= i < st.len() && action_allowed(st[i], nodes[i], a)
        && #[trigger] successors_upto(st, nodes, st.len() as int)[k] == successor_of(st, i, a);
    crate::domain::lemma_sums_nonneg(st);
    let s = successors_spec(st, nodes)[k];
    assert(s == successor_of(st, i, a));
    assert(s.node_index as int == i);
}

/// `k` single conversions starting at denominator `den`: the `j`-th has
/// denominator `max(1, den - j)`.
proof fn lemma_unit_terms_dens(infra: u8, k: int, den: int)
    requires
        1 <= den <= i32::MAX,
    ensures
        unit_terms(infra, k, den).len() == (if k > 0 { k } else { 0 }),
        forall|j: int| 0 <= j < unit_terms(infra, k, den).len() ==> {
            let t = #[trigger] unit_terms(infra, k, den)[j];
            t.base == 4000 && t.take == 1 && t.den as int == max1(den - j)
        },
    decreases k,
{
    if k > 0 {
        let rest = unit_terms(infra, k - 1, max1(den - 1));
        lemma_unit_terms_dens(infra, k - 1, max1(den - 1));
        assert forall|j: int| 0 <= j < unit_terms(infra, k, den).len() implies {
            let t = #[trigger] unit_terms(infra, k, den)[j];
            t.base == 4000 && t.take == 1 && t.den as int == max1(den - j)
        } by {
            if j > 0 {
                assert(unit_terms(infra, k, den)[j] == rest[j - 1]);
            }
        };
    }
}

/// The conversion stage's `j`-th term, counted across all nodes, is a single
/// conversion with denominator `max(1, den - j)`.
proof fn lemma_conv_terms_dens(st: Seq<NodeState>, ord: Seq<usize>, p: int, rem: int, den: int)
    requires
        1 <= den <= i32::MAX,
        0 <= p,
    ensures
        forall|j: int| 0 <= j < conv_terms(st, ord, p, rem, den).len() ==> {
            let t = #[trigger] conv_terms(st, ord, p, rem, den)[j];
            t.base == 4000 && t.take == 1 && t.den as int == max1(den - j)
        },
    decreases ord.len() - p,
{
    if !(p >= ord.len() || rem <= 0) {
        let node = ord[p] as int;
        let k = min_int(st[node].civ as int, rem);
        let a = unit_terms(st[node].infra, k, den);
        let b = conv_terms(st, ord, p + 1, rem - k, max1(den - k));
        lemma_unit_terms_dens(st[node].infra, k, den);
        lemma_conv_terms_dens(st, ord, p + 1, rem - k, max1(den - k));
        assert(conv_terms(st, ord, p, rem, den) == a + b);
        assert forall|j: int| 0 <= j < (a + b).len() implies {
            let t = #[trigger] (a + b)[j];
            t.base == 4000 && t.take == 1 && t.den as int == max1(den - j)
        } by {
            if j >= a.len() {
                assert((a + b)[j] == b[j - a.len()]);
            } else {
                assert((a + b)[j] == a[j]);
            }
        };
    }
}

/// Every term of a build stage has the stage's base cost.
proof fn lemma_build_terms_base(
    st: Seq<NodeState>,
    nodes: Seq<NodeDesc>,
    ord: Seq<usize>,
    p: int,
    need: int,
    base: u32,
    den: int,
)
    requires
        0 <= p,
    ensures
        forall|j: int| 0 <= j < build_terms(st, nodes, ord, p, need, base, den).len() ==>
            (#[trigger] build_terms(st, nodes, ord, p, need, base, den)[j]).base == base,
    decreases ord.len() - p,
{
    if !(p >= ord.len() || need == 0) {
        let node = ord[p] as int;
        if crate::heuristic::empty_slots(st[node], nodes[node]) <= 0 {
            lemma_build_terms_base(st, nodes, ord, p + 1, need, base, den);
            assert(build_terms(st, nodes, ord, p, need, base, den) == build_terms(st, nodes, ord, p + 1, need, base, den));
        } else {
            let take = min_int(crate::heuristic::empty_slots(st[node], nodes[node]), need);
            let b = build_terms(st, nodes, ord, p + 1, need - take, base, den);
            lemma_build_terms_base(st, nodes, ord, p + 1, need - take, base, den);
            assert forall|j: int| 0 <= j < build_terms(st, nodes, ord, p, need, base, den).len() implies
                (#[trigger] build_terms(st, nodes, ord, p, need, base, den)[j]).base == base by {
                let whole = build_terms(st, nodes, ord, p, need, base, den);
                assert(whole == seq![BoundTerm { base: base, infra: st[node].infra, take: take as i32, den: den as i32 }] + b);
                if j > 0 {
                    assert(whole[j] == b[j - 1]);
                }
            };
        }
    }
}

/// The civilian count falls by one with each conversion, across nodes: in the
/// upper bound for a military target, with `c` civilian factories over the
/// paired nodes, the conversion terms come first, each converts one factory,
/// and the `j`-th of them (counted from 0 over all nodes) is divided by
/// `max(1, c - j)`. The build terms that follow cost 7200 each.
#[verifier::spinoff_prover]
pub proof fn law_upper_bound_conversion_denominators(st: Seq<NodeState>, nodes: Seq<NodeDesc>, target: int)
    requires
        sum_civ(st.take(paired_len(st, nodes))) <= i32::MAX,
    ensures
        ({
            let terms = upper_bound_spec(st, nodes, TargetType::Military, target).0;
            let c = sum_civ(st.take(paired_len(st, nodes)));
            &&& forall|j: int| 0 <= j < terms.len() && (#[trigger] terms[j]).base == 4000 ==>
                terms[j].take == 1 && terms[j].den as int == (if c - j >= 1 { c - j } else { 1 })
            &&& forall|j: int| 0 <= j < terms.len() && (#[trigger] terms[j]).base != 4000 ==> terms[j].base == 7200
            &&& forall|j: int, l: int| 0 <= j < l < terms.len() && (#[trigger] terms[l]).base == 4000 ==>
                (#[trigger] terms[j]).base == 4000
        }),
{
    let n = paired_len(st, nodes);
    let ord = crate::heuristic::infra_order(st, n);
    let need = crate::heuristic::remaining_units(st, nodes, TargetType::Military, target);
    let c = sum_civ(st.take(n));
    crate::domain::lemma_sums_nonneg(st.take(n));
    let terms = upper_bound_spec(st, nodes, TargetType::Military, target).0;
    if need != 0 {
        let cap = min_int(need, c);
        let conv = conv_terms(st, ord, 0, cap, max1(c));
        lemma_conv_terms_dens(st, ord, 0, cap, max1(c));
        let need2 = need - conv_count(st, ord, 0, cap);
        if need2 == 0 {
            assert(terms == conv);
        } else {
            let bt = build_terms(st, nodes, ord, 0, need2, 7200, max1(c - cap));
            lemma_build_terms_base(st, nodes, ord, 0, need2, 7200, max1(c - cap));
            assert(terms == conv + bt);
            assert forall|j: int| 0 <= j < terms.len() && (#[trigger] terms[j]).base == 4000 implies
                j < conv.len() by {
                if j >= conv.len() {
                    assert(terms[j] == bt[j - conv.len()]);
                }
            };
            assert forall|j: int| 0 <= j < terms.len() && (#[trigger] terms[j]).base != 4000 implies
                terms[j].base == 7200 by {
                if j >= conv.len() {
                    assert(terms[j] == bt[j - conv.len()]);
                } else {
                    assert(terms[j] == conv[j]);
                }
            };
            assert forall|j: int| 0 <= j < conv.len() implies #[trigger] terms[j] == conv[j] by {};
        }
    }
}

/// The slot counts of the rows, added up.
pub open spec fn row_slot_total(rows: Seq<(i32, i32, i32, i32)>) -> int
    decreases rows.len(),
{
    if rows.len() == 0 {
        0
    } else {
        row_slot_total(rows.drop_last()) + rows.last().0
    }
}

/// Row `i` has its slots in `0..=255`, its infrastructure in `0..=5`, and its
/// civilian and military counts in `0..=255`.
pub open spec fn row_counts_in_range(rows: Seq<(i32, i32, i32, i32)>, i: int) -> bool {
    &&& 0 <= rows[i].0 <= 255
    &&& 0 <= rows[i].1 <= 5
    &&& 0 <= rows[i].2 <= 255
    &&& 0 <= rows[i].3 <= 255
}

proof fn lemma_no_state_error_from(rows: Seq<(i32, i32, i32, i32)>, i: int)
    requires
        0 <= i,
        forall|j: int| i <= j < rows.len() ==> row_counts_in_range(rows, j),
    ensures
        first_state_error(rows, i) is None,
    decreases rows.len() - i,
{
    if i < rows.len() {
        assert(row_counts_in_range(rows, i));
        lemma_no_state_error_from(rows, i + 1);
    }
}

proof fn lemma_state_error_witness(rows: Seq<(i32, i32, i32, i32)>, i: int)
    requires
        0 <= i,
        first_state_error(rows, i) is Some,
    ensures
        exists|j: int| i <= j < rows.len() && #[trigger] row_state_error(rows[j]) == first_state_error(rows, i),
    decreases rows.len() - i,
{
    if row_state_error(rows[i]) is None {
        lemma_state_error_witness(rows, i + 1);
        let j = choose|j: int| i + 1 <= j < rows.len() && #[trigger] row_state_error(rows[j]) == first_state_error(rows, i + 1);
        assert(row_state_error(rows[j]) == first_state_error(rows, i));
    } else {
        assert(row_state_error(rows[i]) == first_state_error(rows, i));
    }
}

proof fn lemma_state_error_first_bad(rows: Seq<(i32, i32, i32, i32)>, i: int, j: int)
    requires
        0 <= j <= i < rows.len(),
        forall|l: int| 0 <= l < i ==> row_counts_in_range(rows, l),
    ensures
        first_state_error(rows, j) == first_state_error(rows, i),
    decreases i - j,
{
    if j < i {
        assert(row_counts_in_range(rows, j));
        lemma_state_error_first_bad(rows, i, j + 1);
    }
}

proof fn lemma_row_slot_total(rows: Seq<(i32, i32, i32, i32)>)
    requires
        forall|j: int| 0 <= j < rows.len() ==> 0 <= #[trigger] rows[j].0 <= 255,
    ensures
        row_slot_total(rows) == sum_slots(descs_of(rows)),
    decreases rows.len(),
{
    if rows.len() > 0 {
        let r = rows.drop_last();
        assert forall|j: int| 0 <= j < r.len() implies 0 <= #[trigger] r[j].0 <= 255 by {
            assert(r[j] == rows[j]);
        };
        lemma_row_slot_total(r);
        assert(descs_of(rows).drop_last() =~= descs_of(r));
        assert(rows.last().0 == rows[rows.len() - 1].0);
    }
}

/// Rows whose counts all lie in their ranges (slots, civilian and military in
/// `0..=255`, infrastructure in `0..=5`) and a target within the rows' slot
/// total are accepted: the descriptors and the start state carry each row's
/// counts unchanged, in row order.
#[verifier::spinoff_prover]
pub proof fn law_instance_accepts_rows_in_range(rows: Seq<(i32, i32, i32, i32)>, target: i32)
    requires
        forall|i: int| 0 <= i < rows.len() ==> #[trigger] row_counts_in_range(rows, i),
        target <= row_slot_total(rows),
    ensures
        instance_of(rows, target) is Ok,
        ({
            let (d, st) = instance_of(rows, target)->Ok_0;
            &&& d.len() == rows.len() && st.len() == rows.len()
            &&& forall|i: int| 0 <= i < rows.len() ==> {
                &&& (#[trigger] d[i]).slots == rows[i].0
                &&& st[i].infra == rows[i].1
                &&& st[i].civ == rows[i].2
                &&& st[i].mil == rows[i].3
            }
        }),
{
    assert forall|j: int| 0 <= j < rows.len() implies 0 <= #[trigger] rows[j].0 <= 255 by {
        assert(row_counts_in_range(rows, j));
    };
    lemma_row_slot_total(rows);
    lemma_no_state_error_from(rows, 0);
    assert(!crate::instance::some_slots_bad(rows));
    let d = descs_of(rows);
    let st = states_of(rows);
    assert(instance_of(rows, target) == Ok::<(Seq<NodeDesc>, Seq<NodeState>), InputError>((d, st)));
    assert forall|i: int| 0 <= i < rows.len() implies {
        &&& (#[trigger] d[i]).slots == rows[i].0
        &&& st[i].infra == rows[i].1
        &&& st[i].civ == rows[i].2
        &&& st[i].mil == rows[i].3
    } by {
        assert(row_counts_in_range(rows, i));
    };
}

/// Each refusal names a count that is out of its range, or a target beyond
/// the slots: refused for slots, some row's slot count lies outside
/// `0..=255`; for infrastructure, some row's level lies outside `0..=5`; for
/// civilian or military factories, some row's count lies outside `0..=255`;
/// for the target, every count is in range and the target exceeds the rows'
/// slot total. And the first row with a count out of range decides: when all
/// slot counts are in range and every earlier row is in range, a row whose
/// infrastructure lies outside `0..=5` is refused for its infrastructure.
#[verifier::spinoff_prover]
pub proof fn law_instance_refusals(rows: Seq<(i32, i32, i32, i32)>, target: i32, i: int)
    ensures
        instance_of(rows, target) == Err::<(Seq<NodeDesc>, Seq<NodeState>), InputError>(InputError::OutOfRange(Field::NumSlots))
            ==> exists|j: int| 0 <= j < rows.len() && !(0 <= #[trigger] rows[j].0 <= 255),
        instance_of(rows, target) == Err::<(Seq<NodeDesc>, Seq<NodeState>), InputError>(InputError::OutOfRange(Field::NumInfra))
            ==> exists|j: int| 0 <= j < rows.len() && !(0 <= #[trigger] rows[j].1 <= 5),
        instance_of(rows, target) == Err::<(Seq<NodeDesc>, Seq<NodeState>), InputError>(InputError::OutOfRange(Field::NumCivilian))
            ==> exists|j: int| 0 <= j < rows.len() && !(0 <= #[trigger] rows[j].2 <= 255),
        instance_of(rows, target) == Err::<(Seq<NodeDesc>, Seq<NodeState>), InputError>(InputError::OutOfRange(Field::NumMilitary))
            ==> exists|j: int| 0 <= j < rows.len() && !(0 <= #[trigger] rows[j].3 <= 255),
        instance_of(rows, target) == Err::<(Seq<NodeDesc>, Seq<NodeState>), InputError>(InputError::TargetExceedsCapacity)
            ==> (forall|j: int| 0 <= j < rows.len() ==> #[trigger] row_counts_in_range(rows, j))
                && target > row_slot_total(rows),
        (0 <= i < rows.len()
            && (forall|j: int| 0 <= j < rows.len() ==> 0 <= #[trigger] rows[j].0 <= 255)
            && (forall|j: int| 0 <= j < i ==> #[trigger] row_counts_in_range(rows, j))
            && !(0 <= rows[i].1 <= 5))
            ==> instance_of(rows, target) == Err::<(Seq<NodeDesc>, Seq<NodeState>), InputError>(InputError::OutOfRange(Field::NumInfra)),
{
    let r = instance_of(rows, target);
    if crate::instance::some_slots_bad(rows) {
        let j = choose|j: int| 0 <= j < rows.len() && !crate::instance::in_range(#[trigger] rows[j].0, Field::NumSlots);
        assert(!(0 <= rows[j].0 <= 255));
    } else if first_state_error(rows, 0) is Some {
        lemma_state_error_witness(rows, 0);
        let j = choose|j: int| 0 <= j < rows.len() && #[trigger] row_state_error(rows[j]) == first_state_error(rows, 0);
        assert(0 <= j < rows.len());
        if r == Err::<(Seq<NodeDesc>, Seq<NodeState>), InputError>(InputError::OutOfRange(Field::NumInfra)) {
            assert(!(0 <= rows[j].1 <= 5));
        }
        if r == Err::<(Seq<NodeDesc>, Seq<NodeState>), InputError>(InputError::OutOfRange(Field::NumCivilian)) {
            assert(!(0 <= rows[j].2 <= 255));
        }
        if r == Err::<(Seq<NodeDesc>, Seq<NodeState>), InputError>(InputError::OutOfRange(Field::NumMilitary)) {
            assert(!(0 <= rows[j].3 <= 255));
        }
    } else {
        assert forall|j: int| 0 <= j < rows.len() implies 0 <= #[trigger] rows[j].0 <= 255 by {
            if !(0 <= rows[j].0 <= 255) {
                assert(!crate::instance::in_range(rows[j].0, Field::NumSlots));
            }
        };
        if r == Err::<(Seq<NodeDesc>, Seq<NodeState>), InputError>(InputError::TargetExceedsCapacity) {
            assert forall|j: int| 0 <= j < rows.len() implies #[trigger] row_counts_in_range(rows, j) by {
                if !row_counts_in_range(rows, j) {
                    assert(row_state_error(rows[j]) is Some);
                    lemma_state_error_first_bad_any(rows, j);
                }
            };
            lemma_row_slot_total(rows);
        }
    }
    if 0 <= i < rows.len()
        && (forall|j: int| 0 <= j < rows.len() ==> 0 <= #[trigger] rows[j].0 <= 255)
        && (forall|j: int| 0 <= j < i ==> #[trigger] row_counts_in_range(rows, j))
        && !(0 <= rows[i].1 <= 5) {
        assert(!crate::instance::some_slots_bad(rows));
        lemma_state_error_first_bad(rows, i, 0);
        assert(row_state_error(rows[i]) == Some(Field::NumInfra));
    }
}

/// A row with a state count out of range leaves some state error behind it.
proof fn lemma_state_error_first_bad_any(rows: Seq<(i32, i32, i32, i32)>, j: int)
    requires
        0 <= j < rows.len(),
        row_state_error(rows[j]) is Some,
    ensures
        first_state_error(rows, 0) is Some,
{
    if first_state_error(rows, 0) is None {
        lemma_none_step(rows, j);
    }
}

/// With no state error from row 0 on, none from row `j + 1` on either, and
/// row `j` itself has none.
proof fn lemma_none_step(rows: Seq<(i32, i32, i32, i32)>, j: int)
    requires
        0 <= j < rows.len(),
        first_state_error(rows, 0) is None,
    ensures
        first_state_error(rows, j + 1) is None,
        row_state_error(rows[j]) is None,
    decreases j,
{
    if j > 0 {
        lemma_none_step(rows, j - 1);
    }
}

/// The position of an action in the order successors of one node are listed:
/// civilian, military, infrastructure, conversion.
pub open spec fn action_rank(a: Action) -> int {
    match a {
        Action::Civilian => 0,
        Action::Military => 1,
        Action::Infra => 2,
        Action::Convert => 3,
    }
}

/// Successors come node by node, in increasing node order, and within a node
/// in the order civilian build, military build, infrastructure raise,
/// conversion.
#[verifier::spinoff_prover]
pub proof fn law_successors_in_node_then_action_order(st: Seq<NodeState>, nodes: Seq<NodeDesc>, k: int, l: int)
    requires
        st.len() <= usize::MAX,
        0 <= k < l < successors_spec(st, nodes).len(),
    ensures
        ({
            let succs = successors_spec(st, nodes);
            ||| succs[k].node_index < succs[l].node_index
            ||| (succs[k].node_index == succs[l].node_index
                && action_rank(succs[k].action) < action_rank(succs[l].action))
        }),
{
    lemma_upto_order(st, nodes, st.len() as int, k, l);
}

proof fn lemma_upto_order(st: Seq<NodeState>, nodes: Seq<NodeDesc>, n: int, k: int, l: int)
    requires
        0 <= n <= st.len(),
        st.len() <= usize::MAX,
        0 <= k < l < successors_upto(st, nodes, n).len(),
    ensures
        ({
            let succs = successors_upto(st, nodes, n);
            ||| succs[k].node_index < succs[l].node_index
            ||| (succs[k].node_index == succs[l].node_index
                && action_rank(succs[k].action) < action_rank(succs[l].action))
        }),
    decreases n,
{
    let prev = successors_upto(st, nodes, n - 1);
    let block = node_successors(st, nodes, n - 1);
    let succs = successors_upto(st, nodes, n);
    assert(succs == prev + block);
    if l < prev.len() {
        lemma_upto_order(st, nodes, n - 1, k, l);
        assert(succs[k] == prev[k] && succs[l] == prev[l]);
    } else {
        let i = n - 1;
        let c1 = present_if(action_allowed(st[i], nodes[i], Action::Civilian), successor_of(st, i, Action::Civilian));
        let c2 = present_if(action_allowed(st[i], nodes[i], Action::Military), successor_of(st, i, Action::Military));
        let c3 = present_if(action_allowed(st[i], nodes[i], Action::Infra), successor_of(st, i, Action::Infra));
        let c4 = present_if(action_allowed(st[i], nodes[i], Action::Convert), successor_of(st, i, Action::Convert));
        assert(block == c1 + c2 + c3 + c4);
        let jl = l - prev.len();
        assert(succs[l] == block[jl]);
        assert(block[jl].node_index == i);
        if k < prev.len() {
            lemma_successor_origin(st, nodes, n - 1, k);
            let (i0, a0) = choose|i0: int, a0: Action| 0 <= i0 < n - 1 && action_allowed(st[i0], nodes[i0], a0)
                && #[trigger] successors_upto(st, nodes, n - 1)[k] == successor_of(st, i0, a0);
            assert(succs[k] == prev[k]);
        } else {
            let jk = k - prev.len();
            assert(succs[k] == block[jk]);
            let l1 = c1.len() as int;
            let l2 = c2.len() as int;
            let l3 = c3.len() as int;
            assert(jk < l1 ==> block[jk] == c1[jk]);
            assert(l1 <= jk < l1 + l2 ==> block[jk] == c2[jk - l1]);
            assert(l1 + l2 <= jk < l1 + l2 + l3 ==> block[jk] == c3[jk - l1 - l2]);
            assert(l1 + l2 + l3 <= jk ==> block[jk] == c4[jk - l1 - l2 - l3]);
            assert(jl < l1 ==> block[jl] == c1[jl]);
            assert(l1 <= jl < l1 + l2 ==> block[jl] == c2[jl - l1]);
            assert(l1 + l2 <= jl < l1 + l2 + l3 ==> block[jl] == c3[jl - l1 - l2]);
            assert(l1 + l2 + l3 <= jl ==> block[jl] == c4[jl - l1 - l2 - l3]);
        }
    }
}

/// Every index in `indices_at(st, level, k)` names a node at `level`.
pub proof fn lemma_indices_at_level(st: Seq<NodeState>, level: int, k: int)
    requires
        k <= usize::MAX + 1,
    ensures
        forall|p: int| 0 <= p < indices_at(st, level, k).len() ==>
            st[#[trigger] indices_at(st, level, k)[p] as int].infra == level,
    decreases k,
{
    if k > 0 {
        let a = indices_at(st, level, k - 1);
        lemma_indices_at_level(st, level, k - 1);
        let b: Seq<usize> = if st[k - 1].infra == level { seq![(k - 1) as usize] } else { Seq::empty() };
        assert(indices_at(st, level, k) == a + b);
        assert forall|p: int| 0 <= p < (a + b).len() implies st[#[trigger] (a + b)[p] as int].infra == level by {
            if p >= a.len() {
                assert((a + b)[p] == b[p - a.len()]);
            } else {
                assert((a + b)[p] == a[p]);
            }
        };
    }
}

/// The nodes of `order_range(st, hi, lo, n)` have levels between `lo` and
/// `hi`, in non-increasing order.
pub proof fn lemma_order_range_sorted(st: Seq<NodeState>, hi: int, lo: int, n: int)
    requires
        n <= usize::MAX,
    ensures
        forall|p: int| 0 <= p < order_range(st, hi, lo, n).len() ==>
            lo <= st[#[trigger] order_range(st, hi, lo, n)[p] as int].infra <= hi,
        forall|p: int, q: int| 0 <= p < q < order_range(st, hi, lo, n).len() ==>
            st[#[trigger] order_range(st, hi, lo, n)[p] as int].infra >= st[#[trigger] order_range(st, hi, lo, n)[q] as int].infra,
    decreases hi - lo + 1,
{
    if hi >= lo {
        let a = indices_at(st, hi, n);
        let b = order_range(st, hi - 1, lo, n);
        lemma_indices_at_level(st, hi, n);
        lemma_order_range_sorted(st, hi - 1, lo, n);
        assert(order_range(st, hi, lo, n) == a + b);
        assert forall|p: int| 0 <= p < (a + b).len() implies
            lo <= st[#[trigger] (a + b)[p] as int].infra <= hi by {
            if p >= a.len() {
                assert((a + b)[p] == b[p - a.len()]);
            } else {
                assert((a + b)[p] == a[p]);
            }
        };
        assert forall|p: int, q: int| 0 <= p < q < (a + b).len() implies
            st[#[trigger] (a + b)[p] as int].infra >= st[#[trigger] (a + b)[q] as int].infra by {
            if p >= a.len() {
                assert((a + b)[p] == b[p - a.len()]);
                assert((a + b)[q] == b[q - a.len()]);
            } else if q >= a.len() {
                assert((a + b)[p] == a[p]);
                assert((a + b)[q] == b[q - a.len()]);
            } else {
                assert((a + b)[p] == a[p]);
                assert((a + b)[q] == a[q]);
            }
        };
    }
}

/// Nodes of `ord` from position `p` on are in non-increasing level order.
pub open spec fn sorted_from(st: Seq<NodeState>, ord: Seq<usize>, p: int) -> bool {
    forall|a: int, b: int| p <= a < b < ord.len() ==> st[#[trigger] ord[a] as int].infra >= st[#[trigger] ord[b] as int].infra
}

/// The conversion stage from position `p` lists its terms in non-increasing
/// level order, none above the level of `ord[p]`.
proof fn lemma_conv_terms_sorted(st: Seq<NodeState>, ord: Seq<usize>, p: int, rem: int, den: int)
    requires
        0 <= p,
        sorted_from(st, ord, p),
    ensures
        forall|j: int| 0 <= j < conv_terms(st, ord, p, rem, den).len() ==>
            p < ord.len() && (#[trigger] conv_terms(st, ord, p, rem, den)[j]).infra <= st[ord[p] as int].infra,
        forall|j: int, l: int| 0 <= j < l < conv_terms(st, ord, p, rem, den).len() ==>
            (#[trigger] conv_terms(st, ord, p, rem, den)[j]).infra >= (#[trigger] conv_terms(st, ord, p, rem, den)[l]).infra,
    decreases ord.len() - p,
{
    if !(p >= ord.len() || rem <= 0) {
        let node = ord[p] as int;
        let k = min_int(st[node].civ as int, rem);
        let a = unit_terms(st[node].infra, k, den);
        let b = conv_terms(st, ord, p + 1, rem - k, max1(den - k));
        lemma_unit_terms_infra(st[node].infra, k, den);
        lemma_conv_terms_sorted(st, ord, p + 1, rem - k, max1(den - k));
        assert(conv_terms(st, ord, p, rem, den) == a + b);
        if b.len() > 0 {
            assert(b[0].infra <= st[ord[p + 1] as int].infra);
            assert(st[ord[p] as int].infra >= st[ord[p + 1] as int].infra);
        }
        assert forall|j: int| 0 <= j < (a + b).len() implies
            (#[trigger] (a + b)[j]).infra <= st[ord[p] as int].infra by {
            if j >= a.len() {
                assert((a + b)[j] == b[j - a.len()]);
                assert(st[ord[p] as int].infra >= st[ord[p + 1] as int].infra);
            } else {
                assert((a + b)[j] == a[j]);
            }
        };
        assert forall|j: int, l: int| 0 <= j < l < (a + b).len() implies
            (#[trigger] (a + b)[j]).infra >= (#[trigger] (a + b)[l]).infra by {
            if j >= a.len() {
                assert((a + b)[j] == b[j - a.len()]);
                assert((a + b)[l] == b[l - a.len()]);
            } else if l >= a.len() {
                assert((a + b)[j] == a[j]);
                assert((a + b)[l] == b[l - a.len()]);
                assert(st[ord[p] as int].infra >= st[ord[p + 1] as int].infra);
            } else {
                assert((a + b)[j] == a[j]);
                assert((a + b)[l] == a[l]);
            }
        };
    }
}

proof fn lemma_unit_terms_infra(infra: u8, k: int, den: int)
    ensures
        forall|j: int| 0 <= j < unit_terms(infra, k, den).len() ==> (#[trigger] unit_terms(infra, k, den)[j]).infra == infra,
    decreases k,
{
    if k > 0 {
        let rest = unit_terms(infra, k - 1, max1(den - 1));
        lemma_unit_terms_infra(infra, k - 1, max1(den - 1));
        assert forall|j: int| 0 <= j < unit_terms(infra, k, den).len() implies
            (#[trigger] unit_terms(infra, k, den)[j]).infra == infra by {
            if j > 0 {
                assert(unit_terms(infra, k, den)[j] == rest[j - 1]);
            }
        };
    }
}

/// The build stage from position `p` lists its terms in non-increasing level
/// order, none above the level of `ord[p]`.
proof fn lemma_build_terms_sorted(
    st: Seq<NodeState>,
    nodes: Seq<NodeDesc>,
    ord: Seq<usize>,
    p: int,
    need: int,
    base: u32,
    den: int,
)
    requires
        0 <= p,
        sorted_from(st, ord, p),
    ensures
        forall|j: int| 0 <= j < build_terms(st, nodes, ord, p, need, base, den).len() ==>
            p < ord.len() && (#[trigger] build_terms(st, nodes, ord, p, need, base, den)[j]).infra <= st[ord[p] as int].infra,
        forall|j: int, l: int| 0 <= j < l < build_terms(st, nodes, ord, p, need, base, den).len() ==>
            (#[trigger] build_terms(st, nodes, ord, p, need, base, den)[j]).infra
                >= (#[trigger] build_terms(st, nodes, ord, p, need, base, den)[l]).infra,
    decreases ord.len() - p,
{
    if !(p >= ord.len() || need == 0) {
        let node = ord[p] as int;
        if empty_slots(st[node], nodes[node]) <= 0 {
            lemma_build_terms_sorted(st, nodes, ord, p + 1, need, base, den);
            assert(build_terms(st, nodes, ord, p, need, base, den) == build_terms(st, nodes, ord, p + 1, need, base, den));
            let b = build_terms(st, nodes, ord, p + 1, need, base, den);
            if b.len() > 0 {
                assert(st[ord[p] as int].infra >= st[ord[p + 1] as int].infra);
            }
        } else {
            let take = min_int(empty_slots(st[node], nodes[node]), need);
            let b = build_terms(st, nodes, ord, p + 1, need - take, base, den);
            lemma_build_terms_sorted(st, nodes, ord, p + 1, need - take, base, den);
            let a = seq![BoundTerm { base: base, infra: st[node].infra, take: take as i32, den: den as i32 }];
            assert(build_terms(st, nodes, ord, p, need, base, den) == a + b);
            if b.len() > 0 {
                assert(st[ord[p] as int].infra >= st[ord[p + 1] as int].infra);
            }
            assert forall|j: int| 0 <= j < (a + b).len() implies
                (#[trigger] (a + b)[j]).infra <= st[ord[p] as int].infra by {
                if j >= 1 {
                    assert((a + b)[j] == b[j - 1]);
                }
            };
            assert forall|j: int, l: int| 0 <= j < l < (a + b).len() implies
                (#[trigger] (a + b)[j]).infra >= (#[trigger] (a + b)[l]).infra by {
                assert((a + b)[l] == b[l - 1]);
                if j >= 1 {
                    assert((a + b)[j] == b[j - 1]);
                }
            };
        }
    }
}

/// Cheapest nodes first: within each stage of the upper bound (the
/// conversions, which cost 4000 each, and the builds), the terms go from the
/// highest infrastructure level to the lowest, since a higher level divides
/// every cost by a larger multiplier.
#[verifier::spinoff_prover]
pub proof fn law_upper_bound_cheapest_first(st: Seq<NodeState>, nodes: Seq<NodeDesc>, target_type: TargetType, target: int)
    requires
        st.len() <= usize::MAX,
    ensures
        ({
            let terms = upper_bound_spec(st, nodes, target_type, target).0;
            forall|j: int, l: int| 0 <= j < l < terms.len() && (#[trigger] terms[j]).base == (#[trigger] terms[l]).base ==>
                terms[j].infra >= terms[l].infra
        }),
{
    let n = paired_len(st, nodes);
    let ord = infra_order(st, n);
    let need = crate::heuristic::remaining_units(st, nodes, target_type, target);
    let c = sum_civ(st.take(n));
    lemma_order_range_sorted(st, crate::heuristic::max_infra(st, n), 0, n);
    assert(sorted_from(st, ord, 0));
    let terms = upper_bound_spec(st, nodes, target_type, target).0;
    if need != 0 {
        match target_type {
            TargetType::Military => {
                let cap = min_int(need, c);
                let conv = conv_terms(st, ord, 0, cap, max1(c));
                lemma_conv_terms_sorted(st, ord, 0, cap, max1(c));
                lemma_conv_terms_dens_base(st, ord, 0, cap, max1(c));
                let need2 = need - conv_count(st, ord, 0, cap);
                if need2 != 0 {
                    let bt = build_terms(st, nodes, ord, 0, need2, 7200, max1(c - cap));
                    lemma_build_terms_sorted(st, nodes, ord, 0, need2, 7200, max1(c - cap));
                    lemma_build_terms_base(st, nodes, ord, 0, need2, 7200, max1(c - cap));
                    assert(terms == conv + bt);
                    assert forall|j: int, l: int| 0 <= j < l < terms.len() && (#[trigger] terms[j]).base == (#[trigger] terms[l]).base
                        implies terms[j].infra >= terms[l].infra by {
                        if j >= conv.len() {
                            assert(terms[j] == bt[j - conv.len()]);
                            assert(terms[l] == bt[l - conv.len()]);
                        } else if l >= conv.len() {
                            assert(terms[j] == conv[j]);
                            assert(terms[l] == bt[l - conv.len()]);
                        } else {
                            assert(terms[j] == conv[j]);
                            assert(terms[l] == conv[l]);
                        }
                    };
                }
            },
            TargetType::Civilian => {
                lemma_build_terms_sorted(st, nodes, ord, 0, need, 10800, max1(c));
            },
            TargetType::Factories => {
                lemma_build_terms_sorted(st, nodes, ord, 0, need, 7200, max1(c));
            },
        }
    }
}

/// Every conversion term costs 4000.
proof fn lemma_conv_terms_dens_base(st: Seq<NodeState>, ord: Seq<usize>, p: int, rem: int, den: int)
    requires
        0 <= p,
    ensures
        forall|j: int| 0 <= j < conv_terms(st, ord, p, rem, den).len() ==>
            (#[trigger] conv_terms(st, ord, p, rem, den)[j]).base == 4000,
    decreases ord.len() - p,
{
    if !(p >= ord.len() || rem <= 0) {
        let node = ord[p] as int;
        let k = min_int(st[node].civ as int, rem);
        let a = unit_terms(st[node].infra, k, den);
        let b = conv_terms(st, ord, p + 1, rem - k, max1(den - k));
        lemma_unit_terms_base(st[node].infra, k, den);
        lemma_conv_terms_dens_base(st, ord, p + 1, rem - k, max1(den - k));
        assert(conv_terms(st, ord, p, rem, den) == a + b);
        assert forall|j: int| 0 <= j < (a + b).len() implies (#[trigger] (a + b)[j]).base == 4000 by {
            if j >= a.len() {
                assert((a + b)[j] == b[j - a.len()]);
            } else {
                assert((a + b)[j] == a[j]);
            }
        };
    }
}

proof fn lemma_unit_terms_base(infra: u8, k: int, den: int)
    ensures
        forall|j: int| 0 <= j < unit_terms(infra, k, den).len() ==> (#[trigger] unit_terms(infra, k, den)[j]).base == 4000,
    decreases k,
{
    if k > 0 {
        let rest = unit_terms(infra, k - 1, max1(den - 1));
        lemma_unit_terms_base(infra, k - 1, max1(den - 1));
        assert forall|j: int| 0 <= j < unit_terms(infra, k, den).len() implies
            (#[trigger] unit_terms(infra, k, den)[j]).base == 4000 by {
            if j > 0 {
                assert(unit_terms(infra, k, den)[j] == rest[j - 1]);
            }
        };
    }
}

/// `f` added up over the entries of `ord` from position `p` on.
pub open spec fn ord_sum(ord: Seq<usize>, f: spec_fn(usize) -> int, p: int) -> int
    decreases ord.len() - p,
{
    if p < 0 || p >= ord.len() {
        0
    } else {
        f(ord[p]) + ord_sum(ord, f, p + 1)
    }
}

/// `f` added up over the nodes `i < k` whose level lies in `lo..=hi`.
pub open spec fn band_sum(st: Seq<NodeState>, f: spec_fn(usize) -> int, hi: int, lo: int, k: int) -> int
    decreases k,
{
    if k <= 0 {
        0
    } else {
        band_sum(st, f, hi, lo, k - 1) + (if lo <= st[k - 1].infra <= hi { f((k - 1) as usize) } else { 0 })
    }
}

/// A node's civilian count, by index.
pub open spec fn civ_at(st: Seq<NodeState>) -> spec_fn(usize) -> int {
    |i: usize| st[i as int].civ as int
}

/// A node's empty slots, by index.
pub open spec fn empty_at(st: Seq<NodeState>, nodes: Seq<NodeDesc>) -> spec_fn(usize) -> int {
    |i: usize| empty_slots(st[i as int], nodes[i as int])
}

proof fn lemma_ord_sum_shift(a: Seq<usize>, b: Seq<usize>, f: spec_fn(usize) -> int, q: int)
    requires
        0 <= q,
    ensures
        ord_sum(a + b, f, a.len() + q) == ord_sum(b, f, q),
    decreases b.len() - q,
{
    if q < b.len() {
        lemma_ord_sum_shift(a, b, f, q + 1);
        assert((a + b)[a.len() + q] == b[q]);
    }
}

proof fn lemma_ord_sum_concat(a: Seq<usize>, b: Seq<usize>, f: spec_fn(usize) -> int, p: int)
    requires
        0 <= p <= a.len(),
    ensures
        ord_sum(a + b, f, p) == ord_sum(a, f, p) + ord_sum(b, f, 0),
    decreases a.len() - p,
{
    if p < a.len() {
        lemma_ord_sum_concat(a, b, f, p + 1);
        assert((a + b)[p] == a[p]);
    } else {
        lemma_ord_sum_shift(a, b, f, 0);
    }
}

proof fn lemma_band_split(st: Seq<NodeState>, f: spec_fn(usize) -> int, hi: int, lo: int, k: int)
    requires
        lo <= hi,
    ensures
        band_sum(st, f, hi, lo, k) == band_sum(st, f, hi, hi, k) + band_sum(st, f, hi - 1, lo, k),
    decreases k,
{
    if k > 0 {
        lemma_band_split(st, f, hi, lo, k - 1);
    }
}

proof fn lemma_band_empty(st: Seq<NodeState>, f: spec_fn(usize) -> int, hi: int, lo: int, k: int)
    requires
        hi < lo,
    ensures
        band_sum(st, f, hi, lo, k) == 0,
    decreases k,
{
    if k > 0 {
        lemma_band_empty(st, f, hi, lo, k - 1);
    }
}

proof fn lemma_indices_at_sum(st: Seq<NodeState>, f: spec_fn(usize) -> int, level: int, k: int)
    ensures
        ord_sum(indices_at(st, level, k), f, 0) == band_sum(st, f, level, level, k),
    decreases k,
{
    if k > 0 {
        lemma_indices_at_sum(st, f, level, k - 1);
        let a = indices_at(st, level, k - 1);
        let b: Seq<usize> = if st[k - 1].infra == level { seq![(k - 1) as usize] } else { Seq::empty() };
        assert(indices_at(st, level, k) == a + b);
        lemma_ord_sum_concat(a, b, f, 0);
        if st[k - 1].infra == level {
            assert(ord_sum(b, f, 1) == 0);
        }
    }
}

proof fn lemma_order_range_sum(st: Seq<NodeState>, f: spec_fn(usize) -> int, hi: int, lo: int, n: int)
    ensures
        ord_sum(order_range(st, hi, lo, n), f, 0) == band_sum(st, f, hi, lo, n),
    decreases hi - lo + 1,
{
    if hi < lo {
        lemma_band_empty(st, f, hi, lo, n);
    } else {
        let a = indices_at(st, hi, n);
        let b = order_range(st, hi - 1, lo, n);
        assert(order_range(st, hi, lo, n) == a + b);
        lemma_ord_sum_concat(a, b, f, 0);
        lemma_indices_at_sum(st, f, hi, n);
        lemma_order_range_sum(st, f, hi - 1, lo, n);
        lemma_band_split(st, f, hi, lo, n);
    }
}

proof fn lemma_max_infra_bounds(st: Seq<NodeState>, k: int, i: int)
    requires
        0 <= i < k,
    ensures
        st[i].infra <= max_infra(st, k),
    decreases k,
{
    if i < k - 1 {
        lemma_max_infra_bounds(st, k - 1, i);
    }
}

/// With every node below `k` in the band, the band sum is the plain sum.
proof fn lemma_band_full_civ(st: Seq<NodeState>, hi: int, n: int, k: int)
    requires
        0 <= k <= n <= st.len(),
        n <= usize::MAX,
        hi == max_infra(st, n),
    ensures
        band_sum(st, civ_at(st), hi, 0, k) == sum_civ(st.take(k)),
    decreases k,
{
    if k > 0 {
        lemma_band_full_civ(st, hi, n, k - 1);
        lemma_max_infra_bounds(st, n, k - 1);
        assert(st.take(k).drop_last() =~= st.take(k - 1));
        assert(civ_at(st)((k - 1) as usize) == st[k - 1].civ);
    }
}

proof fn lemma_band_full_empty(st: Seq<NodeState>, nodes: Seq<NodeDesc>, hi: int, n: int, k: int)
    requires
        0 <= k <= n,
        n <= usize::MAX,
        hi == max_infra(st, n),
    ensures
        band_sum(st, empty_at(st, nodes), hi, 0, k) == sum_empty(st, nodes, k),
    decreases k,
{
    if k > 0 {
        lemma_band_full_empty(st, nodes, hi, n, k - 1);
        lemma_max_infra_bounds(st, n, k - 1);
        assert(empty_at(st, nodes)((k - 1) as usize) == empty_slots(st[k - 1], nodes[k - 1]));
    }
}

pub proof fn lemma_ord_sum_nonneg(ord: Seq<usize>, f: spec_fn(usize) -> int, p: int)
    requires
        forall|i: usize| #[trigger] f(i) >= 0,
    ensures
        ord_sum(ord, f, p) >= 0,
    decreases ord.len() - p,
{
    if 0 <= p < ord.len() {
        lemma_ord_sum_nonneg(ord, f, p + 1);
    }
}

/// The conversion stage converts as many as are wanted, up to the civilian
/// factories on the nodes it visits.
pub proof fn lemma_conv_count_amount(st: Seq<NodeState>, ord: Seq<usize>, p: int, rem: int)
    requires
        0 <= p,
        0 <= rem,
    ensures
        conv_count(st, ord, p, rem) == min_int(rem, ord_sum(ord, civ_at(st), p)),
    decreases ord.len() - p,
{
    lemma_ord_sum_nonneg(ord, civ_at(st), p);
    if !(p >= ord.len() || rem <= 0) {
        let node = ord[p] as int;
        let k = min_int(st[node].civ as int, rem);
        lemma_conv_count_amount(st, ord, p + 1, rem - k);
    }
}

proof fn lemma_conv_len(st: Seq<NodeState>, ord: Seq<usize>, p: int, rem: int)
    requires
        0 <= p,
    ensures
        forall|den: int| 1 <= den <= i32::MAX ==> #[trigger] conv_terms(st, ord, p, rem, den).len() == conv_count(st, ord, p, rem),
    decreases ord.len() - p,
{
    if !(p >= ord.len() || rem <= 0) {
        let node = ord[p] as int;
        let k = min_int(st[node].civ as int, rem);
        lemma_conv_len(st, ord, p + 1, rem - k);
        assert forall|den: int| 1 <= den <= i32::MAX implies #[trigger] conv_terms(st, ord, p, rem, den).len() == conv_count(st, ord, p, rem) by {
            lemma_unit_terms_dens(st[node].infra, k, den);
            let a = unit_terms(st[node].infra, k, den);
            let b = conv_terms(st, ord, p + 1, rem - k, max1(den - k));
            assert(conv_terms(st, ord, p, rem, den) == a + b);
            assert(b.len() == conv_count(st, ord, p + 1, rem - k));
        };
    }
}

/// Units a sequence of terms supplies, added up.
pub open spec fn takes_sum(ts: Seq<BoundTerm>) -> int
    decreases ts.len(),
{
    if ts.len() == 0 {
        0
    } else {
        ts[0].take + takes_sum(ts.drop_first())
    }
}

/// The build stage leaves uncovered what the empty slots on the nodes it
/// visits cannot hold, and its terms supply the rest.
proof fn lemma_build_amount(st: Seq<NodeState>, nodes: Seq<NodeDesc>, ord: Seq<usize>, p: int, need: int, base: u32, den: int)
    requires
        0 <= p,
        0 <= need <= i32::MAX,
    ensures
        build_left(st, nodes, ord, p, need) == (if need - ord_sum(ord, empty_at(st, nodes), p) > 0 {
            need - ord_sum(ord, empty_at(st, nodes), p)
        } else {
            0
        }),
        takes_sum(build_terms(st, nodes, ord, p, need, base, den)) == need - build_left(st, nodes, ord, p, need),
    decreases ord.len() - p,
{
    lemma_ord_sum_nonneg(ord, empty_at(st, nodes), p);
    if !(p >= ord.len() || need == 0) {
        let node = ord[p] as int;
        if empty_slots(st[node], nodes[node]) <= 0 {
            lemma_build_amount(st, nodes, ord, p + 1, need, base, den);
        } else {
            let take = min_int(empty_slots(st[node], nodes[node]), need);
            lemma_build_amount(st, nodes, ord, p + 1, need - take, base, den);
            lemma_ord_sum_nonneg(ord, empty_at(st, nodes), p + 1);
            let b = build_terms(st, nodes, ord, p + 1, need - take, base, den);
            let a = seq![BoundTerm { base: base, infra: st[node].infra, take: take as i32, den: den as i32 }];
            assert(build_terms(st, nodes, ord, p, need, base, den) == a + b);
            assert((a + b).drop_first() =~= b);
        }
    }
}

/// The greedy amounts of the upper bound. With `r` units missing over the
/// paired nodes, `c` civilian factories and `e` empty slots on them: for a
/// military target the first `min(r, c)` terms, and only those, are
/// conversions, and the bound is finite exactly when the empty slots hold
/// the `r - min(r, c)` units left; the builds supply that many units when it
/// is. For a civilian or factories target every term is a build, and the
/// bound is finite exactly when `r <= e`, the builds then supplying `r`
/// units. Nothing missing gives an empty, finite bound.
#[verifier::spinoff_prover]
#[verifier::rlimit(40)]
pub proof fn law_upper_bound_greedy_amounts(st: Seq<NodeState>, nodes: Seq<NodeDesc>, target_type: TargetType, target: int)
    requires
        st.len() <= usize::MAX,
        sum_civ(st.take(paired_len(st, nodes))) <= i32::MAX,
        target - target_count(st.take(paired_len(st, nodes)), target_type) <= i32::MAX,
    ensures
        ({
            let n = paired_len(st, nodes);
            let (terms, complete) = upper_bound_spec(st, nodes, target_type, target);
            let c = sum_civ(st.take(n));
            let e = sum_empty(st, nodes, n);
            let d = target - target_count(st.take(n), target_type);
            let r = if d > 0 { d } else { 0 };
            let conv = if target_type == TargetType::Military { if r <= c { r } else { c } } else { 0 };
            &&& r == 0 ==> terms.len() == 0 && complete
            &&& conv <= terms.len()
            &&& forall|j: int| 0 <= j < terms.len() ==> ((#[trigger] terms[j]).base == 4000 <==> j < conv)
            &&& complete == (r - conv <= e)
            &&& complete ==> takes_sum(terms.subrange(conv, terms.len() as int)) == r - conv
        }),
{
    let n = paired_len(st, nodes);
    let ord = infra_order(st, n);
    let hi = max_infra(st, n);
    let need = crate::heuristic::remaining_units(st, nodes, target_type, target);
    let c = sum_civ(st.take(n));
    let e = sum_empty(st, nodes, n);
    let (terms, complete) = upper_bound_spec(st, nodes, target_type, target);
    crate::domain::lemma_sums_nonneg(st.take(n));
    lemma_order_range_sum(st, civ_at(st), hi, 0, n);
    lemma_order_range_sum(st, empty_at(st, nodes), hi, 0, n);
    lemma_band_full_civ(st, hi, n, n);
    lemma_band_full_empty(st, nodes, hi, n, n);
    assert(ord_sum(ord, civ_at(st), 0) == c);
    assert(ord_sum(ord, empty_at(st, nodes), 0) == e);
    lemma_ord_sum_nonneg(ord, empty_at(st, nodes), 0);
    if need != 0 {
        match target_type {
            TargetType::Military => {
                let cap = min_int(need, c);
                let conv = conv_terms(st, ord, 0, cap, max1(c));
                lemma_conv_count_amount(st, ord, 0, cap);
                lemma_conv_len(st, ord, 0, cap);
                lemma_conv_terms_dens_base(st, ord, 0, cap, max1(c));
                assert(conv.len() == cap);
                let need2 = need - conv_count(st, ord, 0, cap);
                if need2 == 0 {
                    assert(terms == conv);
                    assert(terms.subrange(cap, terms.len() as int) =~= Seq::<BoundTerm>::empty());
                } else {
                    let bt = build_terms(st, nodes, ord, 0, need2, 7200, max1(c - cap));
                    lemma_build_terms_base(st, nodes, ord, 0, need2, 7200, max1(c - cap));
                    lemma_build_amount(st, nodes, ord, 0, need2, 7200, max1(c - cap));
                    assert(terms == conv + bt);
                    assert(terms.subrange(cap, terms.len() as int) =~= bt);
                    assert forall|j: int| 0 <= j < terms.len() implies ((#[trigger] terms[j]).base == 4000 <==> j < cap) by {
                        if j >= conv.len() {
                            assert(terms[j] == bt[j - conv.len()]);
                        } else {
                            assert(terms[j] == conv[j]);
                        }
                    };
                }
            },
            TargetType::Civilian => {
                lemma_build_terms_base(st, nodes, ord, 0, need, 10800, max1(c));
                lemma_build_amount(st, nodes, ord, 0, need, 10800, max1(c));
                assert(terms.subrange(0, terms.len() as int) =~= terms);
            },
            TargetType::Factories => {
                lemma_build_terms_base(st, nodes, ord, 0, need, 7200, max1(c));
                lemma_build_amount(st, nodes, ord, 0, need, 7200, max1(c));
                assert(terms.subrange(0, terms.len() as int) =~= terms);
            },
        }
    }
}

/// The plan read back from a slot ends with that slot's own move: walking
/// parent links from slot `i` (as `reconstruct_path` does, latest move
/// first), a slot without a parent gives no move, and a slot with one gives
/// first its own component (0 if unset) and the label of its own action
/// ("unknown" if unset), not its parent's.
pub proof fn law_read_back_starts_at_goal(m: PoolModel<TransitionInfo>, i: int)
    requires
        0 <= i < m.slots.len(),
    ensures
        ({
            let along = moves_along(m, i, m.slots.len());
            &&& m.slots[i].parent is None ==> along.len() == 0
            &&& m.slots[i].parent is Some ==> {
                &&& along.len() >= 1
                &&& along[0].0 == (match m.slots[i].component { Some(c) => c, None => 0 })
                &&& along[0].1 == (match m.slots[i].transition {
                    Some(t) => label_of(t.action)@,
                    None => "unknown"@,
                })
            }
        }),
{
    let along = moves_along(m, i, m.slots.len());
    if let Some(p) = m.slots[i].parent {
        let mi = m.increment(p as int);
        assert(mi.slots[i].component == m.slots[i].component);
        assert(mi.slots[i].transition == m.slots[i].transition);
        assert(along[0] == crate::search::move_of(mi, i));
    }
}

} // verus!

//! Properties of the domain and of the state pool that hold across calls.
use crate::domain::{
    action_allowed, apply_action, base_cost_spec, civ_denominator, lemma_sums_nonneg, node_successors,
    sum_civ, sum_mil, successor_of, successors_spec, successors_upto, target_count, present_if, Action,
    NodeDesc, NodeState, SuccessorView, TargetType, TransitionInfo,
};
use crate::heuristic::{
    bound_inputs_fit, build_left, build_terms, conv_count, conv_terms, indices_at, infra_order,
    lower_bound_spec, max1, min_int, order_range, paired_len, remaining_units, unit_terms,
    upper_bound_spec, empty_slots, sum_empty, sum_slots, lemma_sum_empty_bounds, lemma_slots_prefix,
    BoundTerm, LowerBound,
};
use crate::search::{expansion, ScoredSuccessor};
use crate::state_pool::{PoolModel, COST_INFINITY};
use vstd::prelude::*;

verus! {

/// A joint state is valid for `nodes`: every node has a descriptor, holds no
/// more factories than slots, and has infrastructure at most 5.
pub open spec fn state_valid(st: Seq<NodeState>, nodes: Seq<NodeDesc>) -> bool {
    &&& st.len() <= nodes.len()
    &&& forall|i: int| 0 <= i < st.len() ==> #[trigger] st[i].civ + st[i].mil <= nodes[i].slots && st[i].infra <= 5
}

/// Every successor in the first `n` nodes' block is a feasible action on one of them.
pub proof fn lemma_successor_origin(st: Seq<NodeState>, nodes: Seq<NodeDesc>, n: int, k: int)
    requires
        0 <= n <= st.len(),
        0 <= k < successors_upto(st, nodes, n).len(),
    ensures
        exists|i: int, a: Action| 0 <= i < n && action_allowed(st[i], nodes[i], a)
            && #[trigger] successors_upto(st, nodes, n)[k] == successor_of(st, i, a),
    decreases n,
{
    let prev = successors_upto(st, nodes, n - 1);
    let block = node_successors(st, nodes, n - 1);
    assert(successors_upto(st, nodes, n) == prev + block);
    if k < prev.len() {
        lemma_successor_origin(st, nodes, n - 1, k);
        let (i, a) = choose|i: int, a: Action| 0 <= i < n - 1 && action_allowed(st[i], nodes[i], a)
            && #[trigger] successors_upto(st, nodes, n - 1)[k] == successor_of(st, i, a);
        assert(successors_upto(st, nodes, n)[k] == successor_of(st, i, a));
    } else {
        let i = n - 1;
        let c1 = present_if(action_allowed(st[i], nodes[i], Action::Civilian), successor_of(st, i, Action::Civilian));
        let c2 = present_if(action_allowed(st[i], nodes[i], Action::Military), successor_of(st, i, Action::Military));
        let c3 = present_if(action_allowed(st[i], nodes[i], Action::Infra), successor_of(st, i, Action::Infra));
        let c4 = present_if(action_allowed(st[i], nodes[i], Action::Convert), successor_of(st, i, Action::Convert));
        assert(block == c1 + c2 + c3 + c4);
        let j = k - prev.len();
        assert(successors_upto(st, nodes, n)[k] == block[j]);
        if j < c1.len() {
            assert(block[j] == c1[j]);
        } else if j < c1.len() + c2.len() {
            assert(block[j] == c2[j - c1.len()]);
        } else if j < c1.len() + c2.len() + c3.len() {
            assert(block[j] == c3[j - c1.len() - c2.len()]);
        } else {
            assert(block[j] == c4[j - c1.len() - c2.len() - c3.len()]);
        }
    }
}

/// Successors stay valid: from a valid state, every generated successor is a
/// valid state, of the same length, that differs from it only at the node
/// acted on, which changes by one action.
#[verifier::spinoff_prover]
pub proof fn law_successors_stay_valid(st: Seq<NodeState>, nodes: Seq<NodeDesc>, k: int)
    requires
        state_valid(st, nodes),
        st.len() <= usize::MAX,
        0 <= k < successors_spec(st, nodes).len(),
    ensures
        ({
            let s = successors_spec(st, nodes)[k];
            &&& state_valid(s.next_state, nodes)
            &&& s.node_index < st.len()
            &&& action_allowed(st[s.node_index as int], nodes[s.node_index as int], s.action)
            &&& s.next_state.len() == st.len()
            &&& s.next_state[s.node_index as int] == apply_action(st[s.node_index as int], s.action)
            &&& forall|j: int| 0 <= j < st.len() && j != s.node_index ==> #[trigger] s.next_state[j] == st[j]
        }),
{
    lemma_successor_origin(st, nodes, st.len() as int, k);
    let (i, a) = choose|i: int, a: Action| 0 <= i < st.len() && action_allowed(st[i], nodes[i], a)
        && #[trigger] successors_upto(st, nodes, st.len() as int)[k] == successor_of(st, i, a);
    let next = st.update(i, apply_action(st[i], a));
    assert forall|j: int| 0 <= j < next.len() implies #[trigger] next[j].civ + next[j].mil <= nodes[j].slots
        && next[j].infra <= 5 by {
        if j != i {
            assert(next[j] == st[j]);
        }
    };
    let s = successors_spec(st, nodes)[k];
    assert(s == successor_of(st, i, a));
    assert(s.next_state == next);
    assert(s.node_index as int == i);
    assert(state_valid(s.next_state, nodes));
    assert(forall|j: int| 0 <= j < st.len() && j != s.node_index ==> #[trigger] s.next_state[j] == st[j]);
}

/// Inserting a state makes it findable: the state index maps it to the slot
/// it got, which holds it with no references and an unknown cost.
pub proof fn law_insert_then_lookup<T>(m: PoolModel<T>, s: Seq<NodeState>)
    requires
        m.consistent(),
        m.slots.len() < usize::MAX,
    ensures
        ({
            let (m2, i) = m.inserted(s);
            &&& m2.index.dom().contains(s)
            &&& m2.index[s] == i
            &&& i < m2.slots.len()
            &&& m2.slots[i as int].state == s
            &&& m2.slots[i as int].refs == 0
            &&& m2.slots[i as int].cost == COST_INFINITY
            &&& m2.consistent()
        }),
{
    let (m1, i) = m.allocated();
    if m.free.len() > 0 {
        assert(m.free[m.free.len() - 1] < m.slots.len());
    }
}

/// Dropping the last reference frees a slot and the next allocation reuses it:
/// a slot with one reference reaches zero, leaves the state index, and its
/// index is what the next insertion gets.
pub proof fn law_free_then_reuse<T>(m: PoolModel<T>, i: usize, s: Seq<NodeState>)
    requires
        m.consistent(),
        i < m.slots.len(),
        m.slots[i as int].refs == 1,
    ensures
        m.decrement(i as int).slots[i as int].refs == 0,
        !m.decrement(i as int).index.dom().contains(m.slots[i as int].state),
        m.decrement(i as int).free.last() == i,
        m.decrement(i as int).inserted(s).1 == i,
{
}

/// A reference taken and given back leaves the count where it was.
pub proof fn law_increment_decrement<T>(m: PoolModel<T>, i: int)
    requires
        0 <= i < m.slots.len(),
        m.slots[i].refs >= 1,
    ensures
        m.increment(i).decrement(i).slots == m.slots,
        m.increment(i).decrement(i).index == m.index,
        m.increment(i).decrement(i).free == m.free,
        m.increment(i).decrement(i).open == m.open,
{
    let m2 = m.increment(i).decrement(i);
    assert(m2.slots =~= m.slots);
}

/// The open set holds one reference while an index is in it: pushing adds the
/// entry and a reference, popping it hands that reference to the returned
/// handle and removes the entry.
pub proof fn law_push_then_pop<T>(m: PoolModel<T>, i: int, key: u64)
    requires
        0 <= i < m.slots.len(),
        !m.open.dom().contains(i as usize),
        m.bound > i,
    ensures
        m.pushed(i, key).slots[i].refs == m.slots[i].refs + 1,
        m.pushed(i, key).open.dom().contains(i as usize),
        m.pushed(i, key).open[i as usize] == key,
        m.pushed(i, key).popped(i).slots[i].refs == m.slots[i].refs + 1,
        m.pushed(i, key).popped(i).open == m.open,
{
    assert(m.pushed(i, key).popped(i).open =~= m.open);
}

/// An update keeps the best cost: recording a path to a known state changes it
/// only when the new cost is lower, and then the state's slot holds that cost;
/// an unknown state gets a slot with the cost. A known state never gets a
/// second slot.
pub proof fn law_best_cost<T>(m: PoolModel<T>, s: Seq<NodeState>, cost: u64)
    requires
        m.consistent(),
        m.slots.len() < usize::MAX,
    ensures
        ({
            let (m2, r) = m.best_cost_updated(s, cost);
            &&& (r is None <==> m.index.dom().contains(s) && cost >= m.slots[m.index[s] as int].cost)
            &&& r is None ==> m2 == m
            &&& r matches Some(i) ==> m2.index.dom().contains(s) && m2.index[s] == i && m2.slots[i as int].cost == cost
            &&& m.index.dom().contains(s) ==> m2.slots.len() == m.slots.len()
        }),
{
    if !m.index.dom().contains(s) {
        law_insert_then_lookup(m, s);
    }
}

/// An enqueue of a known state never adds a slot, and a rejected enqueue
/// changes nothing.
pub proof fn law_enqueue_no_duplicate<T>(
    m: PoolModel<T>,
    s: Seq<NodeState>,
    cost: u64,
    parent: Option<usize>,
    component: usize,
    transition: Option<T>,
    est: u64,
)
    requires
        m.consistent(),
        m.index.dom().contains(s),
    ensures
        m.enqueued(s, cost, parent, component, transition, est).0.slots.len() == m.slots.len(),
        !m.enqueued(s, cost, parent, component, transition, est).1 ==> m.enqueued(s, cost, parent, component, transition, est).0 == m,
{
}

/// Keys in the open set never rise on an update: lowering the key of an index
/// in the open set leaves the smaller of the present key and the new one.
pub proof fn law_keys_never_rise<T>(m: PoolModel<T>, i: usize, key: u64)
    requires
        m.open.dom().contains(i),
    ensures
        m.decreased(i, key).0.open[i] == (if key < m.open[i] { key } else { m.open[i] }),
        m.decreased(i, key).0.open.dom() == m.open.dom(),
{
    assert(m.decreased(i, key).0.open.dom() =~= m.open.dom());
}

/// The value of a bound term as a fraction: `take * base * 10` over
/// `(10 + 2 * infra) * den`.
pub open spec fn term_num(t: BoundTerm) -> int {
    t.take * t.base * 10
}

pub open spec fn term_den(t: BoundTerm) -> int {
    (10 + 2 * t.infra) * t.den
}

/// The sum of the terms' values as one fraction `(numerator, denominator)`.
pub open spec fn terms_frac(ts: Seq<BoundTerm>) -> (int, int)
    decreases ts.len(),
{
    if ts.len() == 0 {
        (0, 1)
    } else {
        let (n, d) = terms_frac(ts.drop_last());
        let t = ts.last();
        (n * term_den(t) + term_num(t) * d, d * term_den(t))
    }
}

/// The value of a lower bound as a fraction.
pub open spec fn lower_frac(lb: LowerBound) -> (int, int) {
    match lb {
        LowerBound::Zero => (0, 1),
        LowerBound::Scaled { base, civ_upper } => (base as int, 2 * civ_upper),
    }
}

/// `take * base` summed over the terms.
pub open spec fn weight(ts: Seq<BoundTerm>) -> int
    decreases ts.len(),
{
    if ts.len() == 0 {
        0
    } else {
        weight(ts.drop_last()) + ts.last().take * ts.last().base
    }
}

/// A term no cheaper per unit than `base / 2 / c`: best multiplier at most 2
/// (infrastructure at most 5) and denominator between 1 and `c`.
pub open spec fn term_within(t: BoundTerm, c: int) -> bool {
    &&& 0 <= t.take
    &&& t.infra <= 5
    &&& 1 <= t.den <= c
}

proof fn lemma_weight_concat(a: Seq<BoundTerm>, b: Seq<BoundTerm>)
    ensures
        weight(a + b) == weight(a) + weight(b),
    decreases b.len(),
{
    if b.len() > 0 {
        lemma_weight_concat(a, b.drop_last());
        assert((a + b).drop_last() =~= a + b.drop_last());
    } else {
        assert(a + b =~= a);
    }
}

proof fn lemma_term_step(wp: int, dp: int, np: int, a: int, n: int, d: int, c: int)
    by (nonlinear_arith)
    requires
        dp > 0,
        d > 0,
        wp * dp <= 2 * c * np,
        a * d <= 2 * c * n,
    ensures
        (wp + a) * (dp * d) <= 2 * c * (np * d + n * dp),
        dp * d > 0,
{
    assert(wp * dp * d <= 2 * c * np * d);
    assert(a * d * dp <= 2 * c * n * dp);
}

proof fn lemma_one_term(t: BoundTerm, c: int)
    by (nonlinear_arith)
    requires
        term_within(t, c),
        t.base >= 0,
    ensures
        t.take * t.base * term_den(t) <= 2 * c * term_num(t),
        term_den(t) > 0,
{
    assert((10 + 2 * t.infra) * t.den <= 20 * c);
    assert(t.take * t.base >= 0);
}

/// Terms each no cheaper than `base / 2 / c` per unit sum to at least their
/// weight over `2c`.
proof fn lemma_sum_at_least(ts: Seq<BoundTerm>, c: int)
    requires
        forall|k: int| 0 <= k < ts.len() ==> term_within(#[trigger] ts[k], c),
    ensures
        weight(ts) * terms_frac(ts).1 <= 2 * c * terms_frac(ts).0,
        terms_frac(ts).1 > 0,
    decreases ts.len(),
{
    if ts.len() > 0 {
        let init = ts.drop_last();
        assert forall|k: int| 0 <= k < init.len() implies term_within(#[trigger] init[k], c) by {
            assert(init[k] == ts[k]);
        };
        lemma_sum_at_least(init, c);
        let t = ts.last();
        assert(term_within(ts[ts.len() - 1], c));
        lemma_one_term(t, c);
        let (np, dp) = terms_frac(init);
        lemma_term_step(weight(init), dp, np, t.take * t.base, term_num(t), term_den(t), c);
    }
}

proof fn lemma_unit_terms(infra: u8, k: int, den: int, c: int)
    requires
        infra <= 5,
        1 <= den <= c,
        c <= i32::MAX,
        k >= 0,
    ensures
        weight(unit_terms(infra, k, den)) == 4000 * k,
        forall|j: int| 0 <= j < unit_terms(infra, k, den).len() ==> term_within(#[trigger] unit_terms(infra, k, den)[j], c),
    decreases k,
{
    if k > 0 {
        let head = seq![BoundTerm { base: 4000, infra: infra, take: 1, den: den as i32 }];
        let tail = unit_terms(infra, k - 1, max1(den - 1));
        lemma_unit_terms(infra, k - 1, max1(den - 1), c);
        assert(unit_terms(infra, k, den) == head + tail);
        lemma_weight_concat(head, tail);
        assert(head.drop_last() =~= Seq::<BoundTerm>::empty());
        assert(weight(head.drop_last()) == 0);
        assert(head.last().take == 1 && head.last().base == 4000);
        assert(weight(head) == 4000);
        assert(term_within(head[0], c));
        assert forall|j: int| 0 <= j < (head + tail).len() implies term_within(#[trigger] (head + tail)[j], c) by {
            if j > 0 {
                assert((head + tail)[j] == tail[j - 1]);
            }
        };
    }
}

/// Every index in an ordering of the first `n` nodes is below `n`.
proof fn lemma_order_in_range(st: Seq<NodeState>, hi: int, lo: int, n: int)
    ensures
        forall|p: int| 0 <= p < order_range(st, hi, lo, n).len() ==> #[trigger] order_range(st, hi, lo, n)[p] < n,
    decreases hi - lo + 1,
{
    if hi >= lo {
        lemma_indices_in_range(st, hi, n);
        lemma_order_in_range(st, hi - 1, lo, n);
        let a = indices_at(st, hi, n);
        let b = order_range(st, hi - 1, lo, n);
        assert forall|p: int| 0 <= p < (a + b).len() implies #[trigger] (a + b)[p] < n by {
            if p >= a.len() {
                assert((a + b)[p] == b[p - a.len()]);
            }
        };
    }
}

proof fn lemma_indices_in_range(st: Seq<NodeState>, level: int, k: int)
    ensures
        forall|p: int| 0 <= p < indices_at(st, level, k).len() ==> #[trigger] indices_at(st, level, k)[p] < k,
        k >= 0 ==> indices_at(st, level, k).len() <= k,
    decreases k,
{
    if k > 0 {
        lemma_indices_in_range(st, level, k - 1);
        let a = indices_at(st, level, k - 1);
        let b = if st[k - 1].infra == level { seq![(k - 1) as usize] } else { Seq::<usize>::empty() };
        assert forall|p: int| 0 <= p < (a + b).len() implies #[trigger] (a + b)[p] < k by {
            if p >= a.len() {
                assert((a + b)[p] == b[p - a.len()]);
            }
        };
    }
}

/// The infrastructure levels of the first `n` nodes are at most 5.
pub open spec fn paired_infra_ok(st: Seq<NodeState>, n: int) -> bool {
    forall|i: int| 0 <= i < n ==> #[trigger] st[i].infra <= 5
}

proof fn lemma_conv_terms(st: Seq<NodeState>, ord: Seq<usize>, p: int, rem: int, den: int, c: int, n: int)
    requires
        n <= st.len(),
        paired_infra_ok(st, n),
        forall|q: int| 0 <= q < ord.len() ==> #[trigger] ord[q] < n,
        1 <= den <= c,
        c <= i32::MAX,
        0 <= p,
    ensures
        weight(conv_terms(st, ord, p, rem, den)) == 4000 * conv_count(st, ord, p, rem),
        rem >= 0 ==> 0 <= conv_count(st, ord, p, rem) <= rem,
        forall|j: int| 0 <= j < conv_terms(st, ord, p, rem, den).len() ==> term_within(#[trigger] conv_terms(st, ord, p, rem, den)[j], c),
    decreases ord.len() - p,
{
    if !(p >= ord.len() || rem <= 0) {
        let node = ord[p] as int;
        let k = min_int(st[node].civ as int, rem);
        let a = unit_terms(st[node].infra, k, den);
        let b = conv_terms(st, ord, p + 1, rem - k, max1(den - k));
        lemma_unit_terms(st[node].infra, k, den, c);
        lemma_conv_terms(st, ord, p + 1, rem - k, max1(den - k), c, n);
        lemma_weight_concat(a, b);
        assert forall|j: int| 0 <= j < (a + b).len() implies term_within(#[trigger] (a + b)[j], c) by {
            if j >= a.len() {
                assert((a + b)[j] == b[j - a.len()]);
            }
        };
    }
}

#[verifier::spinoff_prover]
proof fn lemma_build_terms(
    st: Seq<NodeState>,
    nodes: Seq<NodeDesc>,
    ord: Seq<usize>,
    p: int,
    need: int,
    base: u32,
    den: int,
    c: int,
    n: int,
)
    requires
        n <= st.len(),
        n <= nodes.len(),
        paired_infra_ok(st, n),
        forall|q: int| 0 <= q < ord.len() ==> #[trigger] ord[q] < n,
        1 <= den <= c,
        c <= i32::MAX,
        0 <= need,
        0 <= p,
    ensures
        weight(build_terms(st, nodes, ord, p, need, base, den)) == base * (need - build_left(st, nodes, ord, p, need)),
        0 <= build_left(st, nodes, ord, p, need) <= need,
        forall|j: int| 0 <= j < build_terms(st, nodes, ord, p, need, base, den).len()
            ==> term_within(#[trigger] build_terms(st, nodes, ord, p, need, base, den)[j], c),
    decreases ord.len() - p,
{
    let node = ord[p] as int;
    if p >= ord.len() || need == 0 {
        assert(build_terms(st, nodes, ord, p, need, base, den) =~= Seq::<BoundTerm>::empty());
        assert(build_left(st, nodes, ord, p, need) == need);
    } else if crate::heuristic::empty_slots(st[node], nodes[node]) <= 0 {
        lemma_build_terms(st, nodes, ord, p + 1, need, base, den, c, n);
        assert(build_terms(st, nodes, ord, p, need, base, den) == build_terms(st, nodes, ord, p + 1, need, base, den));
        assert(build_left(st, nodes, ord, p, need) == build_left(st, nodes, ord, p + 1, need));
        let left = build_left(st, nodes, ord, p + 1, need);
        assert(weight(build_terms(st, nodes, ord, p, need, base, den)) == base * (need - left));
    } else {
        let take = min_int(crate::heuristic::empty_slots(st[node], nodes[node]), need);
        let a = seq![BoundTerm { base: base, infra: st[node].infra, take: take as i32, den: den as i32 }];
        let b = build_terms(st, nodes, ord, p + 1, need - take, base, den);
        lemma_build_terms(st, nodes, ord, p + 1, need - take, base, den, c, n);
        lemma_weight_concat(a, b);
        assert(a.drop_last() =~= Seq::<BoundTerm>::empty());
        assert(weight(a.drop_last()) == 0);
        assert(0 <= take <= 255);
        assert(a.last().take as int == take && a.last().base == base);
        assert(weight(a) == a.last().take * a.last().base);
        assert(weight(a) == take * base);
        assert(term_within(a[0], c));
        let left = build_left(st, nodes, ord, p + 1, need - take);
        assert(build_terms(st, nodes, ord, p, need, base, den) == a + b);
        assert(build_left(st, nodes, ord, p, need) == left);
        assert(weight(b) == base * (need - take - left));
        assert(take * base + base * (need - take - left) == base * (need - left)) by (nonlinear_arith);
        assert(weight(a + b) == base * (need - left));
        assert forall|j: int| 0 <= j < (a + b).len() implies term_within(#[trigger] (a + b)[j], c) by {
            if j >= a.len() {
                assert((a + b)[j] == b[j - a.len()]);
            }
        };
    }
}

/// The lower bound never exceeds the upper bound: for a state whose paired
/// nodes have infrastructure at most 5, whenever the best-infrastructure upper
/// bound is finite, its value is at least the value of the lower bound, and
/// every term of it takes a non-negative count over a positive denominator.
pub proof fn law_lower_bound_at_most_upper_bound(
    st: Seq<NodeState>,
    nodes: Seq<NodeDesc>,
    target_type: crate::domain::TargetType,
    target: i32,
)
    requires
        bound_inputs_fit(st, nodes, target_type, target),
        paired_infra_ok(st, paired_len(st, nodes)),
        upper_bound_spec(st, nodes, target_type, target as int).1,
    ensures
        ({
            let (ln, ld) = lower_frac(lower_bound_spec(st, nodes, target_type, target as int));
            let (un, ud) = terms_frac(upper_bound_spec(st, nodes, target_type, target as int).0);
            ln * ud <= un * ld
        }),
        forall|j: int| 0 <= j < upper_bound_spec(st, nodes, target_type, target as int).0.len() ==> {
            let t = #[trigger] upper_bound_spec(st, nodes, target_type, target as int).0[j];
            t.take >= 0 && t.den >= 1
        },
{
    let n = paired_len(st, nodes);
    let pre = st.take(n);
    let ord = infra_order(st, n);
    let need = remaining_units(st, nodes, target_type, target as int);
    let civ = sum_civ(pre);
    let empty = crate::heuristic::sum_empty(st, nodes, n);
    let slack = if empty - need > 0 { empty - need } else { 0 };
    let c = max1(civ + slack);
    let (un, ud) = terms_frac(upper_bound_spec(st, nodes, target_type, target as int).0);
    crate::domain::lemma_prefix_sums_le(st, n);
    crate::heuristic::lemma_paired_counts(st, nodes, target_type);
    crate::heuristic::lemma_sum_empty_bounds(st, nodes, n);
    crate::heuristic::lemma_slots_prefix(nodes, n);
    lemma_order_in_range(st, crate::heuristic::max_infra(st, n), 0, n);
    if need == 0 {
        assert(terms_frac(Seq::<BoundTerm>::empty()) == (0int, 1int));
    } else {
        assert(need <= i32::MAX);
        assert(0 <= civ);
        assert(c <= i32::MAX);
        let ts = upper_bound_spec(st, nodes, target_type, target as int).0;
        let base: int = match target_type {
            crate::domain::TargetType::Military => {
                let conv = min_int(need, civ);
                4000 * conv + 7200 * (need - conv)
            },
            crate::domain::TargetType::Civilian => 10800 * need,
            crate::domain::TargetType::Factories => 7200 * need,
        };
        assert(0 <= base <= 10800 * need);
        assert(lower_frac(lower_bound_spec(st, nodes, target_type, target as int)) == (base, 2 * c));
        match target_type {
            crate::domain::TargetType::Military => {
                let cap = min_int(need, civ);
                let conv = conv_terms(st, ord, 0, cap, max1(civ));
                lemma_conv_terms(st, ord, 0, cap, max1(civ), c, n);
                let cd = conv_count(st, ord, 0, cap);
                let need2 = need - cd;
                if need2 == 0 {
                    assert(ts == conv);
                    assert(weight(ts) >= base);
                } else {
                    let den = max1(civ - cap);
                    let bt = build_terms(st, nodes, ord, 0, need2, 7200, den);
                    lemma_build_terms(st, nodes, ord, 0, need2, 7200, den, c, n);
                    assert(ts == conv + bt);
                    lemma_weight_concat(conv, bt);
                    assert(weight(ts) >= base);
                    assert forall|j: int| 0 <= j < ts.len() implies term_within(#[trigger] ts[j], c) by {
                        if j >= conv.len() {
                            assert(ts[j] == bt[j - conv.len()]);
                        } else {
                            assert(ts[j] == conv[j]);
                        }
                    };
                }
            },
            crate::domain::TargetType::Civilian => {
                lemma_build_terms(st, nodes, ord, 0, need, 10800, max1(civ), c, n);
            },
            crate::domain::TargetType::Factories => {
                lemma_build_terms(st, nodes, ord, 0, need, 7200, max1(civ), c, n);
            },
        }
        assert(weight(ts) >= base);
        assert(forall|j: int| 0 <= j < ts.len() ==> term_within(#[trigger] ts[j], c));
        lemma_sum_at_least(ts, c);
        let w = weight(ts);
        assert(terms_frac(ts) == (un, ud));
        assert(w * ud <= 2 * c * un);
        assert(ud > 0);
        assert(base * ud <= 2 * c * un) by (nonlinear_arith)
            requires base <= w, ud > 0, w * ud <= 2 * c * un;
        let (ln, ld) = lower_frac(lower_bound_spec(st, nodes, target_type, target as int));
        assert(ln == base && ld == 2 * c);
        assert(ln * ud <= un * ld) by (nonlinear_arith)
            requires ln == base, ld == 2 * c, base * ud <= 2 * c * un;
    }
}

/// Pruning never raises the bound: after an expansion the running bound is at
/// most where it started, and without pruning it stays there and nothing is
/// dropped. At most every successor is dropped.
pub proof fn law_expansion_bound_never_rises(
    m: PoolModel<TransitionInfo>,
    parent: usize,
    items: Seq<ScoredSuccessor>,
    prune: bool,
    best: u64,
)
    ensures
        expansion(m, parent, items, prune, best).1 <= best,
        !prune ==> expansion(m, parent, items, prune, best).1 == best && expansion(m, parent, items, prune, best).2 == 0,
        expansion(m, parent, items, prune, best).2 <= items.len(),
    decreases items.len(),
{
    if items.len() > 0 {
        law_expansion_bound_never_rises(m, parent, items.drop_last(), prune, best);
    }
}

/// The base cost the lower bound charges for `r` missing units when `c`
/// civilians can be converted.
pub open spec fn unit_base(target_type: TargetType, r: int, c: int) -> int {
    match target_type {
        TargetType::Military => 4000 * min_int(r, c) + 7200 * (r - min_int(r, c)),
        TargetType::Civilian => 10800 * r,
        TargetType::Factories => 7200 * r,
    }
}

/// The civilian upper bound for `c` civilians, `e` empty slots and `r`
/// missing units.
pub open spec fn civ_upper_of(c: int, e: int, r: int) -> int {
    max1(c + (if e - r > 0 { e - r } else { 0 }))
}

/// Units missing to reach `target` from `count`, never negative.
pub open spec fn missing(target: int, count: int) -> int {
    if target - count > 0 {
        target - count
    } else {
        0
    }
}

/// The lower bound's value as a fraction, from the totals it depends on.
pub open spec fn bound_frac(target_type: TargetType, r: int, c: int, e: int) -> (int, int) {
    if r == 0 {
        (0, 1)
    } else {
        (unit_base(target_type, r, c), 2 * civ_upper_of(c, e, r))
    }
}

/// The step cost of a successor as a fraction: `base * 10` over
/// `(10 + 2 * infra) * civ_den`, that is `base / (1 + infra / 5) / civ_den`.
pub open spec fn step_frac(s: SuccessorView) -> (int, int) {
    (base_cost_spec(s.action) * 10, (10 + 2 * s.infra) * s.civ_den)
}

proof fn lemma_lower_frac(st: Seq<NodeState>, nodes: Seq<NodeDesc>, target_type: TargetType, target: i32)
    requires
        st.len() <= nodes.len(),
        bound_inputs_fit(st, nodes, target_type, target),
    ensures
        lower_frac(lower_bound_spec(st, nodes, target_type, target as int)) == bound_frac(
            target_type,
            missing(target as int, target_count(st, target_type)),
            sum_civ(st),
            sum_empty(st, nodes, st.len() as int),
        ),
{
    let n = st.len() as int;
    assert(paired_len(st, nodes) == n);
    assert(st.take(n) =~= st);
    lemma_sums_nonneg(st);
    lemma_sum_empty_bounds(st, nodes, n);
    lemma_slots_prefix(nodes, n);
    let r = missing(target as int, target_count(st, target_type));
    assert(r == remaining_units(st, nodes, target_type, target as int));
    assert(r <= 0x1_0000_0000);
    let c = sum_civ(st);
    let e = sum_empty(st, nodes, n);
    assert(0 <= unit_base(target_type, r, c) <= 10800 * r);
    assert(1 <= civ_upper_of(c, e, r) <= i32::MAX);
}

pub proof fn lemma_sums_update(s: Seq<NodeState>, i: int, x: NodeState)
    requires
        0 <= i < s.len(),
    ensures
        sum_civ(s.update(i, x)) == sum_civ(s) - s[i].civ + x.civ,
        sum_mil(s.update(i, x)) == sum_mil(s) - s[i].mil + x.mil,
    decreases s.len(),
{
    if i == s.len() - 1 {
        assert(s.update(i, x).drop_last() =~= s.drop_last());
    } else {
        lemma_sums_update(s.drop_last(), i, x);
        assert(s.update(i, x).drop_last() =~= s.drop_last().update(i, x));
    }
}

proof fn lemma_sum_empty_agree(a: Seq<NodeState>, b: Seq<NodeState>, nodes: Seq<NodeDesc>, k: int)
    requires
        forall|j: int| 0 <= j < k ==> a[j] == b[j],
    ensures
        sum_empty(a, nodes, k) == sum_empty(b, nodes, k),
    decreases k,
{
    if k > 0 {
        lemma_sum_empty_agree(a, b, nodes, k - 1);
    }
}

proof fn lemma_sum_empty_update(s: Seq<NodeState>, nodes: Seq<NodeDesc>, n: int, i: int, x: NodeState)
    requires
        0 <= i < n <= s.len(),
    ensures
        sum_empty(s.update(i, x), nodes, n) == sum_empty(s, nodes, n) - empty_slots(s[i], nodes[i]) + empty_slots(x, nodes[i]),
    decreases n,
{
    if i == n - 1 {
        lemma_sum_empty_agree(s.update(i, x), s, nodes, n - 1);
    } else {
        lemma_sum_empty_update(s, nodes, n - 1, i, x);
    }
}

proof fn lemma_step_at_least(ba: int, infra: int, cden: int, cu: int)
    by (nonlinear_arith)
    requires
        0 <= infra <= 5,
        1 <= cden <= cu,
        ba >= 0,
    ensures
        (ba * 10) * (2 * cu) >= ba * ((10 + 2 * infra) * cden),
{
    assert((10 + 2 * infra) * cden <= 20 * cu);
    assert(ba * ((10 + 2 * infra) * cden) <= ba * (20 * cu));
}

/// `h <= c + h'` when `h'` is at least `h`.
proof fn lemma_shape_up(hn: int, hd: int, cn: int, cd: int, gn: int, gd: int)
    by (nonlinear_arith)
    requires
        hn * gd <= gn * hd,
        hd > 0,
        cd > 0,
        gd > 0,
        cn >= 0,
    ensures
        hn * cd * gd <= (cn * gd + gn * cd) * hd,
{
    assert(hn * cd * gd == cd * (hn * gd));
    assert(cd * (hn * gd) <= cd * (gn * hd));
    assert(cn * gd * hd >= 0);
}

/// `h <= c + h'` when the step removes `d` from the base, `d` is at most what
/// the step cost pays for, and the civilian upper bound does not rise.
proof fn lemma_shape_down(b: int, d: int, cu: int, cu2: int, ba: int, cn: int, cd: int, gn: int, gd: int)
    requires
        0 <= d <= ba,
        d <= b,
        1 <= cu2 <= cu,
        cd > 0,
        cn >= 0,
        cn * (2 * cu) >= ba * cd,
        b - d == 0 ==> gn == 0 && gd == 1,
        b - d != 0 ==> gn == b - d && gd == 2 * cu2,
    ensures
        b * cd * gd <= (cn * gd + gn * cd) * (2 * cu),
{
    assert(d * cd <= ba * cd) by (nonlinear_arith)
        requires d <= ba, cd > 0;
    if b - d == 0 {
        assert(b * cd * 1 <= (cn * 1 + 0 * cd) * (2 * cu)) by (nonlinear_arith)
            requires b == d, d * cd <= ba * cd, cn * (2 * cu) >= ba * cd;
    } else {
        assert(b * cd * (2 * cu2) <= (cn * (2 * cu2) + (b - d) * cd) * (2 * cu)) by (nonlinear_arith)
            requires
                d * cd <= ba * cd,
                cn * (2 * cu) >= ba * cd,
                1 <= cu2 <= cu,
                b - d > 0,
                cd > 0,
                cn >= 0,
        {
            assert((b - d) * cd * (2 * cu) >= (b - d) * cd * (2 * cu2));
            assert(cn * (2 * cu2) * (2 * cu) >= d * cd * (2 * cu2));
        }
    }
}

/// A step on which the lower bound is consistent: any action but building a
/// civilian factory; and building one toward a military target when the
/// civilians already cover the missing units or the empty slots exceed them.
pub open spec fn consistent_step(st: Seq<NodeState>, nodes: Seq<NodeDesc>, target_type: TargetType, target: i32, k: int) -> bool {
    let r = missing(target as int, target_count(st, target_type));
    ||| successors_spec(st, nodes)[k].action != Action::Civilian
    ||| (target_type == TargetType::Military && (sum_civ(st) >= r || sum_empty(st, nodes, st.len() as int) > r))
}

proof fn lemma_civ_build_step(r: int, c: int, cn: int, cd: int)
    by (nonlinear_arith)
    requires
        1 <= r <= c,
        cd > 0,
        cn * (2 * c) >= 10800 * cd,
    ensures
        (4000 * r) * cd * (2 * (c + 1)) <= (cn * (2 * (c + 1)) + (4000 * r) * cd) * (2 * c),
{
    assert(cn * (2 * c) * (2 * (c + 1)) >= 10800 * cd * (2 * (c + 1)));
    assert(10800 * cd * (2 * (c + 1)) >= 8000 * r * cd);
}

/// The lower bound is consistent on every consistent step (see
/// [`consistent_step`]): from a valid state, the bound at the state is at most
/// the step cost plus the bound at the successor (`h(s) <= c(s, s') + h(s')`,
/// as fractions).
#[verifier::spinoff_prover]
#[verifier::rlimit(60)]
pub proof fn law_lower_bound_consistent(
    st: Seq<NodeState>,
    nodes: Seq<NodeDesc>,
    target_type: TargetType,
    target: i32,
    k: int,
)
    requires
        state_valid(st, nodes),
        st.len() <= usize::MAX,
        0 <= k < successors_spec(st, nodes).len(),
        consistent_step(st, nodes, target_type, target, k),
        bound_inputs_fit(st, nodes, target_type, target),
        bound_inputs_fit(successors_spec(st, nodes)[k].next_state, nodes, target_type, target),
    ensures
        ({
            let s = successors_spec(st, nodes)[k];
            let (hn, hd) = lower_frac(lower_bound_spec(st, nodes, target_type, target as int));
            let (cn, cd) = step_frac(s);
            let (gn, gd) = lower_frac(lower_bound_spec(s.next_state, nodes, target_type, target as int));
            hn * cd * gd <= (cn * gd + gn * cd) * hd
        }),
{
    lemma_successor_origin(st, nodes, st.len() as int, k);
    let (i, a) = choose|i: int, a: Action| 0 <= i < st.len() && action_allowed(st[i], nodes[i], a)
        && #[trigger] successors_upto(st, nodes, st.len() as int)[k] == successor_of(st, i, a);
    let s = successors_spec(st, nodes)[k];
    assert(s == successor_of(st, i, a));
    let x = apply_action(st[i], a);
    let nx = st.update(i, x);
    assert(s.next_state == nx);
    let n = st.len() as int;
    lemma_sums_nonneg(st);
    lemma_sums_nonneg(nx);
    lemma_sums_update(st, i, x);
    lemma_sum_empty_update(st, nodes, n, i, x);
    lemma_lower_frac(st, nodes, target_type, target);
    lemma_lower_frac(nx, nodes, target_type, target);
    let c = sum_civ(st);
    let m = sum_mil(st);
    let e = sum_empty(st, nodes, n);
    let c2 = sum_civ(nx);
    let m2 = sum_mil(nx);
    let e2 = sum_empty(nx, nodes, n);
    let r = missing(target as int, target_count(st, target_type));
    let r2 = missing(target as int, target_count(nx, target_type));
    let (hn, hd) = bound_frac(target_type, r, c, e);
    let (gn, gd) = bound_frac(target_type, r2, c2, e2);
    let (cn, cd) = step_frac(s);
    let cu = civ_upper_of(c, e, r);
    let cu2 = civ_upper_of(c2, e2, r2);
    let ba = base_cost_spec(a);
    assert(st[i].infra <= 5);
    assert(st.take(n) =~= st);
    assert(c <= i32::MAX);
    assert(s.civ_den == civ_denominator(st));
    assert(1 <= s.civ_den <= cu);
    assert(cd > 0) by (nonlinear_arith)
        requires cd == (10 + 2 * s.infra) * s.civ_den, s.civ_den >= 1, s.infra >= 0;
    assert(hd > 0 && gd > 0);
    assert(cn >= 0 && gn >= 0);
    lemma_step_at_least(ba, st[i].infra as int, s.civ_den as int, cu);
    assert(cn * (2 * cu) >= ba * cd);
    if r == 0 {
        assert(hn == 0);
        assert(hn * cd * gd == 0);
        assert((cn * gd + gn * cd) * hd >= 0) by (nonlinear_arith)
            requires cn >= 0, gd > 0, gn >= 0, cd > 0, hd > 0;
    } else {
        assert(st[i].civ + st[i].mil <= nodes[i].slots);
        match a {
            Action::Infra => {
                assert(c2 == c && m2 == m && e2 == e);
                assert(r2 == r);
                lemma_shape_up(hn, hd, cn, cd, gn, gd);
            },
            Action::Military => {
                assert(c2 == c && m2 == m + 1 && e2 == e - 1);
                match target_type {
                    TargetType::Civilian => {
                        assert(r2 == r);
                        assert(cu2 <= cu);
                        assert(hn * gd <= gn * hd) by (nonlinear_arith)
                            requires hn == gn, hd == 2 * cu, gd == 2 * cu2, cu2 <= cu, hn >= 0;
                        lemma_shape_up(hn, hd, cn, cd, gn, gd);
                    },
                    _ => {
                        assert(r2 == r - 1);
                        assert(cu2 == cu);
                        let d = unit_base(target_type, r, c) - unit_base(target_type, r2, c2);
                        assert(0 <= d <= 7200);
                        lemma_shape_down(hn, d, cu, cu2, ba, cn, cd, gn, gd);
                    },
                }
            },
            Action::Convert => {
                assert(c2 == c - 1 && m2 == m + 1 && e2 == e);
                assert(c >= 1);
                match target_type {
                    TargetType::Military => {
                        assert(r2 == r - 1);
                        assert(cu2 <= cu);
                        let d = unit_base(target_type, r, c) - unit_base(target_type, r2, c2);
                        assert(d == 4000);
                        lemma_shape_down(hn, d, cu, cu2, ba, cn, cd, gn, gd);
                    },
                    _ => {
                        assert(r2 >= r);
                        assert(cu2 <= cu);
                        assert(unit_base(target_type, r, c) <= unit_base(target_type, r2, c2));
                        assert(hn * gd <= gn * hd) by (nonlinear_arith)
                            requires hn <= gn, hd == 2 * cu, gd == 2 * cu2, 1 <= cu2 <= cu, hn >= 0;
                        lemma_shape_up(hn, hd, cn, cd, gn, gd);
                    },
                }
            },
            Action::Civilian => {
                assert(target_type == TargetType::Military);
                assert(c2 == c + 1 && m2 == m && e2 == e - 1);
                assert(r2 == r);
                if e > r {
                    assert(cu2 == cu);
                    let d = unit_base(target_type, r, c) - unit_base(target_type, r2, c2);
                    assert(0 <= d <= 3200);
                    lemma_shape_down(hn, d, cu, cu2, ba, cn, cd, gn, gd);
                } else {
                    assert(c >= r);
                    assert(cu == c && cu2 == c + 1);
                    assert(hn == 4000 * r && gn == 4000 * r);
                    assert(hd == 2 * c && gd == 2 * (c + 1));
                    lemma_civ_build_step(r, c, cn, cd);
                }
            },
        }
    }
}

/// The state a plan ends in: each entry of `plan` picks one successor of the
/// state reached so far.
pub open spec fn plan_end(st: Seq<NodeState>, nodes: Seq<NodeDesc>, plan: Seq<int>) -> Seq<NodeState>
    decreases plan.len(),
{
    if plan.len() == 0 {
        st
    } else {
        plan_end(successors_spec(st, nodes)[plan[0]].next_state, nodes, plan.drop_first())
    }
}

/// The total step cost of a plan, as a fraction.
pub open spec fn plan_cost(st: Seq<NodeState>, nodes: Seq<NodeDesc>, plan: Seq<int>) -> (int, int)
    decreases plan.len(),
{
    if plan.len() == 0 {
        (0, 1)
    } else {
        let s = successors_spec(st, nodes)[plan[0]];
        let (cn, cd) = step_frac(s);
        let (rn, rd) = plan_cost(s.next_state, nodes, plan.drop_first());
        (cn * rd + rn * cd, cd * rd)
    }
}

/// Every choice of the plan picks an existing successor along a consistent
/// step (see [`consistent_step`]), and every state it reaches keeps the sums
/// the bound forms within their `i32` counters.
pub open spec fn plan_of_consistent_steps(
    st: Seq<NodeState>,
    nodes: Seq<NodeDesc>,
    plan: Seq<int>,
    target_type: TargetType,
    target: i32,
) -> bool
    decreases plan.len(),
{
    plan.len() == 0 || {
        let k = plan[0];
        &&& 0 <= k < successors_spec(st, nodes).len()
        &&& consistent_step(st, nodes, target_type, target, k)
        &&& bound_inputs_fit(successors_spec(st, nodes)[k].next_state, nodes, target_type, target)
        &&& plan_of_consistent_steps(successors_spec(st, nodes)[k].next_state, nodes, plan.drop_first(), target_type, target)
    }
}

proof fn lemma_mul_le(a: int, b: int, k: int)
    by (nonlinear_arith)
    requires
        a <= b,
        k >= 0,
    ensures
        a * k <= b * k,
{
}

proof fn lemma_cancel(x: int, y: int, g: int)
    by (nonlinear_arith)
    requires
        x * g <= y * g,
        g > 0,
    ensures
        x <= y,
{
}

proof fn lemma_chain(hn: int, hd: int, cn: int, cd: int, gn: int, gd: int, rn: int, rd: int)
    requires
        hn * cd * gd <= (cn * gd + gn * cd) * hd,
        gn * rd <= rn * gd,
        hd > 0,
        cd > 0,
        gd > 0,
        rd > 0,
        cn >= 0,
    ensures
        hn * (cd * rd) <= (cn * rd + rn * cd) * hd,
{
    lemma_mul_le(hn * cd * gd, (cn * gd + gn * cd) * hd, rd);
    assert(cd * hd > 0) by (nonlinear_arith)
        requires cd > 0, hd > 0;
    lemma_mul_le(gn * rd, rn * gd, cd * hd);
    assert(hn * cd * gd * rd == (hn * (cd * rd)) * gd) by (nonlinear_arith);
    let u = cn * gd;
    let v = gn * cd;
    vstd::arithmetic::mul::lemma_mul_is_distributive_add_other_way(hd, u, v);
    vstd::arithmetic::mul::lemma_mul_is_distributive_add_other_way(rd, u * hd, v * hd);
    assert((u + v) * hd * rd == u * hd * rd + v * hd * rd);
    assert(u * hd * rd == cn * rd * hd * gd) by (nonlinear_arith)
        requires u == cn * gd;
    assert(v * hd * rd == (gn * rd) * (cd * hd)) by (nonlinear_arith)
        requires v == gn * cd;
    assert((rn * gd) * (cd * hd) == (rn * cd * hd) * gd) by (nonlinear_arith);
    let a = cn * rd;
    let b = rn * cd;
    vstd::arithmetic::mul::lemma_mul_is_distributive_add_other_way(hd, a, b);
    vstd::arithmetic::mul::lemma_mul_is_distributive_add_other_way(gd, a * hd, b * hd);
    assert((a + b) * hd * gd == a * hd * gd + b * hd * gd);
    assert(a * hd * gd == cn * rd * hd * gd) by (nonlinear_arith)
        requires a == cn * rd;
    assert(b * hd * gd == (rn * cd * hd) * gd) by (nonlinear_arith)
        requires b == rn * cd;
    lemma_cancel(hn * (cd * rd), (cn * rd + rn * cd) * hd, gd);
}

proof fn lemma_step_frac_positive(st: Seq<NodeState>, nodes: Seq<NodeDesc>, target_type: TargetType, target: i32, k: int)
    requires
        0 <= k < successors_spec(st, nodes).len(),
        st.len() <= nodes.len(),
        bound_inputs_fit(st, nodes, target_type, target),
    ensures
        step_frac(successors_spec(st, nodes)[k]).0 >= 0,
        step_frac(successors_spec(st, nodes)[k]).1 > 0,
{
    lemma_successor_origin(st, nodes, st.len() as int, k);
    let (i, a) = choose|i: int, a: Action| 0 <= i < st.len() && action_allowed(st[i], nodes[i], a)
        && #[trigger] successors_upto(st, nodes, st.len() as int)[k] == successor_of(st, i, a);
    let s = successors_spec(st, nodes)[k];
    assert(s == successor_of(st, i, a));
    lemma_sums_nonneg(st);
    assert(paired_len(st, nodes) == st.len());
    assert(st.take(st.len() as int) =~= st);
    assert(sum_civ(st) <= i32::MAX);
    assert(s.civ_den >= 1);
    assert(step_frac(s).1 > 0) by (nonlinear_arith)
        requires step_frac(s).1 == (10 + 2 * s.infra) * s.civ_den, s.civ_den >= 1, s.infra >= 0;
}

/// The lower bound is admissible over plans of consistent steps (every action
/// but civilian builds, and the civilian builds of [`consistent_step`]): from
/// a valid state, for every such plan that reaches the target, the bound is at
/// most the plan's total step cost (as fractions).
pub proof fn law_lower_bound_admissible_over_consistent_steps(
    st: Seq<NodeState>,
    nodes: Seq<NodeDesc>,
    target_type: TargetType,
    target: i32,
    plan: Seq<int>,
)
    requires
        state_valid(st, nodes),
        st.len() <= usize::MAX,
        bound_inputs_fit(st, nodes, target_type, target),
        plan_of_consistent_steps(st, nodes, plan, target_type, target),
        target_count(plan_end(st, nodes, plan), target_type) >= target,
    ensures
        ({
            let (hn, hd) = lower_frac(lower_bound_spec(st, nodes, target_type, target as int));
            let (pn, pd) = plan_cost(st, nodes, plan);
            &&& hn * pd <= pn * hd
            &&& pd > 0
            &&& pn >= 0
        }),
    decreases plan.len(),
{
    lemma_lower_frac(st, nodes, target_type, target);
    if plan.len() == 0 {
        assert(missing(target as int, target_count(st, target_type)) == 0);
    } else {
        let k = plan[0];
        let s = successors_spec(st, nodes)[k];
        law_successors_stay_valid(st, nodes, k);
        law_lower_bound_consistent(st, nodes, target_type, target, k);
        law_lower_bound_admissible_over_consistent_steps(s.next_state, nodes, target_type, target, plan.drop_first());
        let (hn, hd) = lower_frac(lower_bound_spec(st, nodes, target_type, target as int));
        let (gn, gd) = lower_frac(lower_bound_spec(s.next_state, nodes, target_type, target as int));
        let (cn, cd) = step_frac(s);
        let (rn, rd) = plan_cost(s.next_state, nodes, plan.drop_first());
        lemma_lower_frac(s.next_state, nodes, target_type, target);
        assert(hd > 0 && gd > 0);
        lemma_step_frac_positive(st, nodes, target_type, target, k);
        lemma_chain(hn, hd, cn, cd, gn, gd, rn, rd);
        assert(cd * rd > 0) by (nonlinear_arith)
            requires cd > 0, rd > 0;
        assert(cn * rd + rn * cd >= 0) by (nonlinear_arith)
            requires cn >= 0, rd > 0, rn >= 0, cd > 0;
    }
}

/// Popping keeps a live slot live: in an accounted pool, popping a member of
/// the open set removes only its entry, and its slot (reference count, cost,
/// links) stays as it was; the pool stays accounted.
pub proof fn law_pop_keeps_slot<T>(m: PoolModel<T>, i: usize)
    requires
        m.accounted(),
        m.open.dom().contains(i),
    ensures
        m.popped(i as int).slots == m.slots,
        m.popped(i as int).open == m.open.remove(i),
        m.popped(i as int).index == m.index,
        m.popped(i as int).free == m.free,
        m.popped(i as int).accounted(),
{
    let m1 = PoolModel { open: m.open.remove(i), ..m };
    assert(m1.increment(i as int).decrement(i as int).slots =~= m.slots);
}

/// In an accounted pool no two members of the open set hold the same state:
/// a state is in the open set at most once.
pub proof fn law_open_states_distinct<T>(m: PoolModel<T>, i: usize, j: usize)
    requires
        m.accounted(),
        m.open.dom().contains(i),
        m.open.dom().contains(j),
        i != j,
    ensures
        m.slots[i as int].state != m.slots[j as int].state,
{
}

/// The free list of an accounted pool is no longer than the slot list.
pub proof fn law_free_list_fits<T>(m: PoolModel<T>)
    requires
        m.accounted(),
        m.slots.len() <= usize::MAX,
    ensures
        m.free.len() <= m.slots.len(),
{
    assert(m.free.no_duplicates()) by {
        assert forall|j: int, l: int| 0 <= j < m.free.len() && 0 <= l < m.free.len() && j != l
            implies m.free[j] != m.free[l] by {
            if j < l {
                assert(m.free[j] != m.free[l]);
            } else {
                assert(m.free[l] != m.free[j]);
            }
        };
    };
    m.free.unique_seq_to_set();
    vstd::seq_lib::seq_to_set_is_finite(m.free);
    assert forall|f: usize| #[trigger] m.free.to_set().contains(f) implies f < m.slots.len() by {
        let j = choose|j: int| 0 <= j < m.free.len() && m.free[j] == f;
        assert(m.free[j] < m.slots.len());
    };
    crate::state_pool::lemma_bounded_set_len(m.free.to_set(), m.slots.len() as usize);
}

/// A reference taken on a slot that is not on the free list keeps the pool
/// accounted.
pub proof fn law_increment_keeps_accounted<T>(m: PoolModel<T>, i: int)
    requires
        m.accounted(),
        forall|j: int| 0 <= j < m.free.len() ==> #[trigger] m.free[j] != i,
    ensures
        m.increment(i).accounted(),
{
}

/// A reference given back keeps the pool accounted, unless it is the last
/// reference of a member of the open set, or it frees a slot whose state the
/// index maps to another member of the open set.
pub proof fn law_decrement_keeps_accounted<T>(m: PoolModel<T>, i: int)
    requires
        m.accounted(),
        m.slots.len() <= usize::MAX,
        0 <= i < m.slots.len() && m.slots[i].refs == 1 ==> !m.open.dom().contains(i as usize),
        0 <= i < m.slots.len() && m.slots[i].refs == 1 ==> forall|j: usize| #[trigger] m.open.dom().contains(j)
            ==> m.slots[j as int].state != m.slots[i].state,
    ensures
        m.decrement(i).accounted(),
{
    if 0 <= i < m.slots.len() && m.slots[i].refs == 1 {
        let m2 = m.decrement(i);
        assert forall|j: int| 0 <= j < m2.free.len() implies {
            &&& #[trigger] m2.free[j] < m2.slots.len()
            &&& m2.slots[m2.free[j] as int].refs == 0
            &&& m2.slots[m2.free[j] as int].parent is None
            &&& !m2.open.dom().contains(m2.free[j])
        } by {
            if j < m.free.len() {
                assert(m2.free[j] == m.free[j]);
                assert(m.slots[m.free[j] as int].refs == 0);
                assert(m.free[j] != i);
            } else {
                assert(m2.free[j] == i as usize);
                assert((i as usize) as int == i);
            }
        };
        assert forall|j: int, l: int| 0 <= j < l < m2.free.len() implies #[trigger] m2.free[j] != #[trigger] m2.free[l] by {
            if l == m.free.len() {
                assert(m.slots[m.free[j] as int].refs == 0);
            } else {
                assert(m2.free[j] == m.free[j] && m2.free[l] == m.free[l]);
            }
        };
    }
}

/// Pushing a slot that is not on the free list, not in the open set, and that
/// the index maps its state to, keeps the pool accounted.
pub proof fn law_push_keeps_accounted<T>(m: PoolModel<T>, i: int, key: u64)
    requires
        m.accounted(),
        0 <= i < m.slots.len(),
        !m.open.dom().contains(i as usize),
        forall|j: int| 0 <= j < m.free.len() ==> #[trigger] m.free[j] != i,
        m.index.dom().contains(m.slots[i].state),
        m.index[m.slots[i].state] == i,
    ensures
        m.pushed(i, key).accounted(),
        m.pushed(i, key).open.dom() == m.open.dom().insert(i as usize),
{
    assert(m.pushed(i, key).open.dom() =~= m.open.dom().insert(i as usize));
}

/// Enqueueing a state the pool does not hold, in an accounted pool and under a
/// live parent (or none): the call succeeds, the state gets a slot that was not
/// in the open set and now is, with the given key; the slot holds the state,
/// the cost, the parent, component and transition and one reference (the open
/// set's); the parent gains one reference; the pool stays accounted.
#[verifier::spinoff_prover]
#[verifier::rlimit(60)]
pub proof fn law_enqueue_new_state<T>(
    m: PoolModel<T>,
    s: Seq<NodeState>,
    cost: u64,
    parent: Option<usize>,
    component: usize,
    transition: Option<T>,
    est: u64,
)
    requires
        m.accounted(),
        m.consistent(),
        m.slots.len() < usize::MAX,
        !m.index.dom().contains(s),
        parent matches Some(p) ==> p < m.slots.len() && m.slots[p as int].refs > 0,
    ensures
        ({
            let (m2, ok) = m.enqueued(s, cost, parent, component, transition, est);
            let i = m2.index[s];
            &&& ok
            &&& m2.accounted()
            &&& m2.index.dom().contains(s)
            &&& !m.open.dom().contains(i)
            &&& m2.open.dom() == m.open.dom().insert(i)
            &&& m2.open[i] == est
            &&& m2.slots[i as int].state == s
            &&& m2.slots[i as int].cost == cost
            &&& m2.slots[i as int].refs == 1
            &&& m2.slots[i as int].parent == parent
            &&& m2.slots[i as int].component == Some(component)
            &&& m2.slots[i as int].transition == transition
            &&& (parent matches Some(p) ==> m2.slots[p as int].refs == m.slots[p as int].refs + 1)
        }),
{
    let (ma, i) = m.allocated();
    if m.free.len() > 0 {
        assert(m.free[m.free.len() - 1] < m.slots.len());
        assert(m.slots[i as int].refs == 0 && m.slots[i as int].parent is None);
        assert(!m.open.dom().contains(i));
        assert forall|j: int, l: int| 0 <= j < l < ma.free.len() implies #[trigger] ma.free[j] != #[trigger] ma.free[l] by {
            assert(ma.free[j] == m.free[j] && ma.free[l] == m.free[l]);
        };
        assert forall|j: int| 0 <= j < ma.free.len() implies #[trigger] ma.free[j] != i by {
            assert(ma.free[j] == m.free[j]);
            assert(m.free[j] != m.free[m.free.len() - 1]);
        };
    } else {
        assert(!m.open.dom().contains(i));
    }
    let mp = ma.placed(i as int, s);
    let m1 = mp.with_cost(i as int, cost);
    assert(m.best_cost_updated(s, cost) == (m1, Some(i)));
    assert(m1.slots[i as int].parent is None);
    assert(m1.slots[i as int].refs == 0);
    if let Some(p) = parent {
        assert(p != i);
    }
    let mr = m1.relinked(i as int, parent, component, transition);
    let m2 = mr.bound_for(i as int);
    assert(!m2.open.dom().contains(i));
    let x = m2.increment(i as int);
    let y = x.pushed(i as int, est);
    let z = y.decrement(i as int);
    let fin = z.capacity_checked();
    assert(m.enqueued(s, cost, parent, component, transition, est) == (fin, true));
    assert(fin.index == m.index.insert(s, i));
    assert(fin.index[s] == i);
    assert(fin.open.dom() =~= m.open.dom().insert(i));
    assert(fin.slots[i as int].refs == 1);
    assert forall|k: usize| #[trigger] fin.open.dom().contains(k) implies {
        &&& k < fin.slots.len()
        &&& fin.slots[k as int].refs > 0
        &&& fin.index.dom().contains(fin.slots[k as int].state)
        &&& fin.index[fin.slots[k as int].state] == k
    } by {
        if k != i {
            assert(m.open.dom().contains(k));
            assert(fin.slots[k as int].state == m.slots[k as int].state);
            assert(m.slots[k as int].state != s);
        }
    };
    assert forall|j: int| 0 <= j < fin.free.len() implies {
        &&& #[trigger] fin.free[j] < fin.slots.len()
        &&& fin.slots[fin.free[j] as int].refs == 0
        &&& fin.slots[fin.free[j] as int].parent is None
        &&& !fin.open.dom().contains(fin.free[j])
    } by {
        assert(fin.free[j] == ma.free[j]);
        if m.free.len() > 0 {
            assert(ma.free[j] == m.free[j]);
        }
        assert(ma.free[j] != i);
        if let Some(p) = parent {
            assert(m.slots[ma.free[j] as int].refs == 0);
            assert(ma.free[j] != p);
        }
    };
}

/// Enqueueing a state the pool holds, in an accounted pool: the call succeeds
/// exactly when the cost is below the state's best cost; then the state keeps
/// its slot, which takes the cost and is in the open set with the lower of its
/// present key and the new one; otherwise nothing changes. The pool stays
/// accounted when the new parent is live and the slot's old parent, if it
/// loses its last reference, is not the new parent, is out of the open set,
/// and shares its state with no member of the open set nor with the enqueued
/// state.
#[verifier::spinoff_prover]
#[verifier::rlimit(60)]
pub proof fn law_enqueue_known_state<T>(
    m: PoolModel<T>,
    s: Seq<NodeState>,
    cost: u64,
    parent: Option<usize>,
    component: usize,
    transition: Option<T>,
    est: u64,
)
    requires
        m.accounted(),
        m.consistent(),
        m.slots.len() < usize::MAX,
        m.index.dom().contains(s),
        parent matches Some(p) ==> p < m.slots.len() && m.slots[p as int].refs > 0 && p != m.index[s],
        m.slots[m.index[s] as int].parent matches Some(q) ==> {
            &&& q < m.slots.len()
            &&& q != m.index[s]
            &&& m.slots[q as int].refs == 1 ==> {
                &&& !m.open.dom().contains(q)
                &&& parent != Some(q)
                &&& m.slots[q as int].state != s
                &&& forall|j: usize| #[trigger] m.open.dom().contains(j) ==> m.slots[j as int].state != m.slots[q as int].state
            }
        },
    ensures
        ({
            let i = m.index[s];
            let (m2, ok) = m.enqueued(s, cost, parent, component, transition, est);
            &&& ok == (cost < m.slots[i as int].cost)
            &&& !ok ==> m2 == m
            &&& ok ==> {
                &&& m2.accounted()
                &&& m2.index.dom().contains(s)
                &&& m2.index[s] == i
                &&& m2.slots[i as int].cost == cost
                &&& m2.open.dom().contains(i)
                &&& m2.open[i] == (if m.open.dom().contains(i) && m.open[i] <= est { m.open[i] } else { est })
                &&& m2.open.dom() == m.open.dom().insert(i)
            }
        }),
{
    let i = m.index[s];
    assert(i < m.slots.len());
    assert(forall|j: int| 0 <= j < m.free.len() ==> #[trigger] m.free[j] != i);
    if cost < m.slots[i as int].cost {
        let m1 = m.with_cost(i as int, cost);
        assert(m.best_cost_updated(s, cost) == (m1, Some(i)));
        let ma = match m1.slots[i as int].parent {
            Some(q) => m1.decrement(q as int),
            None => m1,
        };
        if let Some(q) = m1.slots[i as int].parent {
            assert(m1.slots[q as int] == m.slots[q as int]);
            if m.slots[q as int].refs == 1 {
                assert(ma.index == m.index.remove(m.slots[q as int].state));
                assert forall|j: int| 0 <= j < ma.free.len() implies #[trigger] ma.free[j] != i by {
                    if j < m.free.len() {
                        assert(ma.free[j] == m.free[j]);
                    }
                };
            }
        }
        assert(ma.index.dom().contains(s) && ma.index[s] == i);
        assert(ma.slots[i as int].cost == cost);
        let mr = m1.relinked(i as int, parent, component, transition);
        assert(mr.index == ma.index && mr.free == ma.free && mr.open == m.open);
        let m2 = mr.bound_for(i as int);
        let fin = m.enqueued(s, cost, parent, component, transition, est).0;
        assert(fin.index == ma.index);
        assert(fin.slots[i as int].cost == cost);
        assert(fin.open.dom() =~= m.open.dom().insert(i));
        assert(fin.slots[i as int].refs > 0);
        assert forall|k: usize| #[trigger] fin.open.dom().contains(k) implies {
            &&& k < fin.slots.len()
            &&& fin.slots[k as int].refs > 0
            &&& fin.index.dom().contains(fin.slots[k as int].state)
            &&& fin.index[fin.slots[k as int].state] == k
        } by {
            if k != i {
                assert(m.open.dom().contains(k));
                assert(fin.slots[k as int].state == m.slots[k as int].state);
                assert(m.index[m.slots[k as int].state] == k);
                if let Some(q) = m.slots[i as int].parent {
                    if k == q {
                        assert(m.slots[q as int].refs != 1);
                    }
                }
            }
        };
        assert forall|j: int| 0 <= j < fin.free.len() implies {
            &&& #[trigger] fin.free[j] < fin.slots.len()
            &&& fin.slots[fin.free[j] as int].refs == 0
            &&& fin.slots[fin.free[j] as int].parent is None
            &&& !fin.open.dom().contains(fin.free[j])
        } by {
            assert(fin.free[j] == ma.free[j]);
            if j < m.free.len() {
                let f = m.free[j];
                assert(ma.free[j] == f);
                assert(m.slots[f as int].refs == 0);
                assert(f != i);
                if let Some(p) = parent {
                    assert(f != p);
                }
                assert(m1.slots[f as int] == m.slots[f as int]);
                assert(ma.slots[f as int].refs == 0);
                assert(mr.slots[f as int].refs == 0);
                assert(m2.slots[f as int].refs == 0);
            }
        };
        assert forall|j: int, l: int| 0 <= j < l < fin.free.len() implies #[trigger] fin.free[j] != #[trigger] fin.free[l] by {
            if l < m.free.len() {
                assert(fin.free[j] == m.free[j] && fin.free[l] == m.free[l]);
            } else {
                assert(fin.free[j] == m.free[j]);
                assert(m.slots[m.free[j] as int].refs == 0);
            }
        };
        assert forall|k: Seq<NodeState>| #[trigger] fin.index.dom().contains(k) implies {
            &&& fin.index[k] < fin.slots.len()
            &&& fin.slots[fin.index[k] as int].state == k
            &&& forall|j: int| 0 <= j < fin.free.len() ==> #[trigger] fin.free[j] != fin.index[k]
        } by {
            assert(m.index.dom().contains(k) && fin.index[k] == m.index[k]);
            assert forall|j: int| 0 <= j < fin.free.len() implies #[trigger] fin.free[j] != fin.index[k] by {
                if j < m.free.len() {
                    assert(fin.free[j] == m.free[j]);
                } else if let Some(q) = m.slots[i as int].parent {
                    assert(fin.free[j] == q);
                    assert(m.slots[q as int].state != k);
                }
            };
        };
    }
}

/// One call of `enqueue_or_update_state`, as values.
pub struct EnqueueCall<T> {
    pub state: Seq<NodeState>,
    pub cost: u64,
    pub parent: Option<usize>,
    pub component: usize,
    pub transition: Option<T>,
    pub est: u64,
}

/// The pool after one call.
pub open spec fn call_applied<T>(m: PoolModel<T>, c: EnqueueCall<T>) -> PoolModel<T> {
    m.enqueued(c.state, c.cost, c.parent, c.component, c.transition, c.est).0
}

/// A call the search makes: under a live parent that is not the state's own
/// slot, and, for a state the pool holds, with an old parent (if any) that
/// keeps another reference, so that the call frees no slot.
pub open spec fn call_fits<T>(m: PoolModel<T>, c: EnqueueCall<T>) -> bool {
    &&& m.slots.len() < usize::MAX
    &&& c.parent matches Some(p) ==> {
        &&& p < m.slots.len()
        &&& m.slots[p as int].refs > 0
        &&& m.index.dom().contains(c.state) ==> p != m.index[c.state]
    }
    &&& m.index.dom().contains(c.state) ==> (m.slots[m.index[c.state] as int].parent matches Some(q) ==> {
        &&& q < m.slots.len()
        &&& q != m.index[c.state]
        &&& m.slots[q as int].refs >= 2
    })
}

/// The pool after a sequence of calls.
pub open spec fn enqueue_all<T>(m: PoolModel<T>, calls: Seq<EnqueueCall<T>>) -> PoolModel<T>
    decreases calls.len(),
{
    if calls.len() == 0 {
        m
    } else {
        enqueue_all(call_applied(m, calls[0]), calls.drop_first())
    }
}

/// Every call of the sequence fits the pool it meets.
pub open spec fn calls_fit<T>(m: PoolModel<T>, calls: Seq<EnqueueCall<T>>) -> bool
    decreases calls.len(),
{
    calls.len() == 0 || (call_fits(m, calls[0]) && calls_fit(call_applied(m, calls[0]), calls.drop_first()))
}

/// The best cost the pool records for `s`, if it holds `s`.
pub open spec fn cost_of<T>(m: PoolModel<T>, s: Seq<NodeState>) -> Option<u64> {
    if m.index.dom().contains(s) {
        Some(m.slots[m.index[s] as int].cost)
    } else {
        None
    }
}

/// The least of `cur` and the costs of the calls for `s`.
pub open spec fn least_cost<T>(cur: Option<u64>, calls: Seq<EnqueueCall<T>>, s: Seq<NodeState>) -> Option<u64>
    decreases calls.len(),
{
    if calls.len() == 0 {
        cur
    } else {
        let c = calls[0];
        let next = if c.state == s {
            match cur {
                Some(x) => Some(if c.cost < x { c.cost } else { x }),
                None => Some(c.cost),
            }
        } else {
            cur
        };
        least_cost(next, calls.drop_first(), s)
    }
}

proof fn lemma_accounted_consistent<T>(m: PoolModel<T>)
    requires
        m.accounted(),
    ensures
        m.consistent(),
{
}

/// One fitting call keeps the pool accounted and records, for every state,
/// the least of its cost and the call's.
#[verifier::spinoff_prover]
#[verifier::rlimit(80)]
proof fn lemma_call_step<T>(m: PoolModel<T>, c: EnqueueCall<T>, t: Seq<NodeState>)
    requires
        m.accounted(),
        call_fits(m, c),
    ensures
        call_applied(m, c).accounted(),
        cost_of(call_applied(m, c), t) == (if c.state == t {
            match cost_of(m, t) {
                Some(x) => Some(if c.cost < x { c.cost } else { x }),
                None => Some(c.cost),
            }
        } else {
            cost_of(m, t)
        }),
{
    lemma_accounted_consistent(m);
    let s = c.state;
    let fin = call_applied(m, c);
    if !m.index.dom().contains(s) {
        law_enqueue_new_state(m, s, c.cost, c.parent, c.component, c.transition, c.est);
        let (ma, i) = m.allocated();
        if m.free.len() > 0 {
            assert(m.free[m.free.len() - 1] < m.slots.len());
        }
        assert(fin.index == m.index.insert(s, i));
        if t != s && m.index.dom().contains(t) {
            let k = m.index[t];
            assert(k != i) by {
                if m.free.len() > 0 {
                    assert(m.free[m.free.len() - 1] != k);
                }
            };
            assert(fin.slots[k as int].cost == m.slots[k as int].cost);
        }
    } else {
        law_enqueue_known_state(m, s, c.cost, c.parent, c.component, c.transition, c.est);
        let i = m.index[s];
        if c.cost < m.slots[i as int].cost {
            assert(fin.index == m.index);
            if t != s && m.index.dom().contains(t) {
                let k = m.index[t];
                assert(m.slots[k as int].state == t);
                assert(k != i);
                assert(fin.slots[k as int].cost == m.slots[k as int].cost);
            }
        }
    }
}

/// A state is in the open set at most once, with the least cost accepted for
/// it: from an accounted pool, after any sequence of calls that each fit the
/// pool they meet, the pool is accounted (so no two members of its open set
/// hold the same state), and the cost recorded for each state is the least of
/// its cost before and the costs of the calls for it.
pub proof fn law_enqueue_sequence<T>(m: PoolModel<T>, calls: Seq<EnqueueCall<T>>, s: Seq<NodeState>)
    requires
        m.accounted(),
        calls_fit(m, calls),
    ensures
        enqueue_all(m, calls).accounted(),
        cost_of(enqueue_all(m, calls), s) == least_cost(cost_of(m, s), calls, s),
        forall|i: usize, j: usize| #![trigger enqueue_all(m, calls).open.dom().contains(i), enqueue_all(m, calls).open.dom().contains(j)]
            enqueue_all(m, calls).open.dom().contains(i) && enqueue_all(m, calls).open.dom().contains(j) && i != j
            ==> enqueue_all(m, calls).slots[i as int].state != enqueue_all(m, calls).slots[j as int].state,
    decreases calls.len(),
{
    if calls.len() > 0 {
        lemma_call_step(m, calls[0], s);
        law_enqueue_sequence(call_applied(m, calls[0]), calls.drop_first(), s);
    }
}

} // verus!

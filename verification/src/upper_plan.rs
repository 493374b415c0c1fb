//! The greedy upper bound is met by a real plan: from a valid state, when the
//! bound is finite, there is a sequence of moves, one per unit the bound
//! counts, each no dearer than the unit it stands for, that reaches the
//! target.
use crate::domain::{
    base_cost_spec, sum_civ, sum_mil, successors_spec, target_count, Action, NodeDesc, NodeState,
    TargetType,
};
use crate::heuristic::{
    max_infra, remaining_units, build_left, build_terms, conv_count, conv_terms, empty_slots, indices_at, infra_order, max1, min_int,
    order_range, paired_len, unit_terms, upper_bound_spec, BoundTerm,
};
use crate::laws::{lemma_sums_update, plan_cost, plan_end, state_valid, step_frac};
use crate::operation_laws::{has_move, law_successor_is_feasible_move, law_successors_include_every_feasible_move,
    lemma_conv_count_amount, lemma_indices_at_level, lemma_order_range_sorted};
use vstd::prelude::*;

verus! {

/// `x <= y` for fractions with positive denominators.
pub open spec fn frac_le(x: (int, int), y: (int, int)) -> bool {
    x.0 * y.1 <= y.0 * x.1
}

/// The cost of one unit of a term: `base / multiplier(infra) / den`, as the
/// fraction `base * 10` over `(10 + 2 * infra) * den`.
pub open spec fn unit_cost(t: BoundTerm) -> (int, int) {
    (t.base * 10, (10 + 2 * t.infra) * t.den)
}

/// The units the terms count, in order: each term `take` times.
pub open spec fn unit_costs(ts: Seq<BoundTerm>) -> Seq<(int, int)>
    decreases ts.len(),
{
    if ts.len() == 0 {
        Seq::empty()
    } else {
        Seq::new(if ts[0].take > 0 { ts[0].take as nat } else { 0 }, |u: int| unit_cost(ts[0]))
            + unit_costs(ts.drop_first())
    }
}

/// `plan` picks, step by step, a successor of the state reached so far, and
/// each step costs no more than the matching entry of `costs` (both as
/// fractions with positive denominators).
pub open spec fn plan_within(st: Seq<NodeState>, nodes: Seq<NodeDesc>, plan: Seq<int>, costs: Seq<(int, int)>) -> bool
    decreases plan.len(),
{
    &&& plan.len() == costs.len()
    &&& (plan.len() == 0 || {
        let k = plan[0];
        &&& 0 <= k < successors_spec(st, nodes).len()
        &&& frac_le(step_frac(successors_spec(st, nodes)[k]), costs[0])
        &&& step_frac(successors_spec(st, nodes)[k]).1 > 0
        &&& costs[0].1 > 0
        &&& plan_within(successors_spec(st, nodes)[k].next_state, nodes, plan.drop_first(), costs.drop_first())
    })
}

proof fn lemma_pos_mul(a: int, b: int)
    by (nonlinear_arith)
    requires
        a > 0,
        b > 0,
    ensures
        a * b > 0,
{
}

proof fn lemma_unit_costs_concat(a: Seq<BoundTerm>, b: Seq<BoundTerm>)
    ensures
        unit_costs(a + b) == unit_costs(a) + unit_costs(b),
    decreases a.len(),
{
    if a.len() == 0 {
        assert(a + b =~= b);
        assert(unit_costs(a) + unit_costs(b) =~= unit_costs(b));
    } else {
        lemma_unit_costs_concat(a.drop_first(), b);
        assert((a + b).drop_first() =~= a.drop_first() + b);
        assert((a + b)[0] == a[0]);
        let h = Seq::new(if a[0].take > 0 { a[0].take as nat } else { 0 }, |u: int| unit_cost(a[0]));
        assert(unit_costs(a + b) == h + unit_costs(a.drop_first() + b));
        assert(h + (unit_costs(a.drop_first()) + unit_costs(b)) =~= (h + unit_costs(a.drop_first())) + unit_costs(b));
    }
}

proof fn lemma_plan_concat(st: Seq<NodeState>, nodes: Seq<NodeDesc>, a: Seq<int>, ca: Seq<(int, int)>, b: Seq<int>, cb: Seq<(int, int)>)
    requires
        plan_within(st, nodes, a, ca),
        plan_within(plan_end(st, nodes, a), nodes, b, cb),
    ensures
        plan_within(st, nodes, a + b, ca + cb),
        plan_end(st, nodes, a + b) == plan_end(plan_end(st, nodes, a), nodes, b),
    decreases a.len(),
{
    if a.len() == 0 {
        assert(a + b =~= b);
        assert(ca + cb =~= cb);
    } else {
        let next = successors_spec(st, nodes)[a[0]].next_state;
        lemma_plan_concat(next, nodes, a.drop_first(), ca.drop_first(), b, cb);
        assert((a + b).drop_first() =~= a.drop_first() + b);
        assert((ca + cb).drop_first() =~= ca.drop_first() + cb);
        assert((a + b)[0] == a[0]);
        assert((ca + cb)[0] == ca[0]);
    }
}

proof fn lemma_plan_one(st: Seq<NodeState>, nodes: Seq<NodeDesc>, k: int, c: (int, int))
    requires
        0 <= k < successors_spec(st, nodes).len(),
        frac_le(step_frac(successors_spec(st, nodes)[k]), c),
        step_frac(successors_spec(st, nodes)[k]).1 > 0,
        c.1 > 0,
    ensures
        plan_within(st, nodes, seq![k], seq![c]),
        plan_end(st, nodes, seq![k]) == successors_spec(st, nodes)[k].next_state,
{
    let next = successors_spec(st, nodes)[k].next_state;
    assert(seq![k].drop_first() =~= Seq::<int>::empty());
    assert(seq![c].drop_first() =~= Seq::<(int, int)>::empty());
    assert(plan_within(next, nodes, Seq::<int>::empty(), Seq::<(int, int)>::empty()));
    assert(seq![k][0] == k);
    assert(plan_end(st, nodes, seq![k]) == plan_end(next, nodes, seq![k].drop_first()));
    assert(plan_end(next, nodes, Seq::<int>::empty()) == next);
}

/// Every node's factory total fits its slots, and the state covers the nodes.
pub open spec fn fits(st: Seq<NodeState>, nodes: Seq<NodeDesc>) -> bool {
    &&& st.len() <= nodes.len()
    &&& st.len() <= usize::MAX
    &&& forall|i: int| 0 <= i < st.len() ==> #[trigger] st[i].civ + st[i].mil <= nodes[i].slots
}

/// One move `a` on node `i`, found among the successors, with its step cost.
proof fn lemma_move_step(st: Seq<NodeState>, nodes: Seq<NodeDesc>, i: int, a: Action, next_ns: NodeState) -> (k: int)
    requires
        fits(st, nodes),
        0 <= i < st.len(),
        sum_civ(st) <= i32::MAX,
        has_move(successors_spec(st, nodes), i, a, st.update(i, next_ns)),
    ensures
        0 <= k < successors_spec(st, nodes).len(),
        successors_spec(st, nodes)[k].next_state == st.update(i, next_ns),
        step_frac(successors_spec(st, nodes)[k]) == (
            base_cost_spec(a) * 10,
            (10 + 2 * st[i].infra) * (if sum_civ(st) > 1 { sum_civ(st) } else { 1 }),
        ),
{
    let succs = successors_spec(st, nodes);
    let k = choose|k: int| 0 <= k < succs.len() && #[trigger] succs[k].node_index == i && succs[k].action == a
        && succs[k].next_state == st.update(i, next_ns);
    law_successor_is_feasible_move(st, nodes, k);
    k
}

pub open spec fn converted(ns: NodeState, k: int) -> NodeState {
    NodeState { infra: ns.infra, civ: (ns.civ - k) as u8, mil: (ns.mil + k) as u8 }
}

/// `k` conversions on node `i`, each at the civilian count left by the ones before.
proof fn lemma_convert_run(cur: Seq<NodeState>, nodes: Seq<NodeDesc>, i: int, k: int) -> (plan: Seq<int>)
    requires
        fits(cur, nodes),
        0 <= i < cur.len(),
        0 <= k <= cur[i].civ,
        sum_civ(cur) <= i32::MAX,
    ensures
        plan_within(cur, nodes, plan, unit_costs(unit_terms(cur[i].infra, k, max1(sum_civ(cur))))),
        plan_end(cur, nodes, plan) == cur.update(i, converted(cur[i], k)),
    decreases k,
{
    crate::domain::lemma_sums_nonneg(cur);
    if k == 0 {
        assert(cur.update(i, converted(cur[i], k)) =~= cur);
        assert(unit_costs(unit_terms(cur[i].infra, k, max1(sum_civ(cur)))) =~= Seq::<(int, int)>::empty());
        Seq::empty()
    } else {
        let ns = cur[i];
        let one = converted(ns, 1);
        let next = cur.update(i, one);
        law_successors_include_every_feasible_move(cur, nodes, i);
        assert(one == NodeState { infra: ns.infra, civ: (ns.civ - 1) as u8, mil: (ns.mil + 1) as u8 });
        let s0 = lemma_move_step(cur, nodes, i, Action::Convert, one);
        lemma_sums_update(cur, i, one);
        assert(fits(next, nodes)) by {
            assert forall|j: int| 0 <= j < next.len() implies #[trigger] next[j].civ + next[j].mil <= nodes[j].slots by {
                if j != i {
                    assert(next[j] == cur[j]);
                }
            };
        };
        let den = max1(sum_civ(cur));
        let t = BoundTerm { base: 4000, infra: ns.infra, take: 1, den: den as i32 };
        let rest_terms = unit_terms(ns.infra, k - 1, max1(den - 1));
        assert(unit_terms(ns.infra, k, den) == seq![t] + rest_terms);
        assert(max1(den - 1) == max1(sum_civ(next)));
        assert(next[i].infra == ns.infra);
        let rest = lemma_convert_run(next, nodes, i, k - 1);
        lemma_unit_costs_concat(seq![t], rest_terms);
        assert(unit_costs(seq![t]) =~= seq![unit_cost(t)]) by {
            assert(seq![t].drop_first() =~= Seq::<BoundTerm>::empty());
            assert(seq![t][0] == t);
            assert(unit_costs(Seq::<BoundTerm>::empty()) =~= Seq::<(int, int)>::empty());
            assert(unit_costs(seq![t]) == Seq::new(1nat, |u: int| unit_cost(t)) + unit_costs(Seq::<BoundTerm>::empty()));
        };
        assert(step_frac(successors_spec(cur, nodes)[s0]) == unit_cost(t));
        lemma_pos_mul(10 + 2 * ns.infra, den);
        lemma_plan_one(cur, nodes, s0, unit_cost(t));
        lemma_plan_concat(cur, nodes, seq![s0], seq![unit_cost(t)], rest, unit_costs(rest_terms));
        assert(next.update(i, converted(next[i], k - 1)) =~= cur.update(i, converted(cur[i], k)));
        seq![s0] + rest
    }
}

/// No index occurs twice in `ord`.
pub open spec fn distinct(ord: Seq<usize>) -> bool {
    forall|p: int, q: int| 0 <= p < q < ord.len() ==> #[trigger] ord[p] != #[trigger] ord[q]
}

proof fn lemma_indices_increasing(st: Seq<NodeState>, level: int, k: int)
    requires
        k <= usize::MAX + 1,
    ensures
        forall|p: int| 0 <= p < indices_at(st, level, k).len() ==> #[trigger] indices_at(st, level, k)[p] < k,
        forall|p: int, q: int| 0 <= p < q < indices_at(st, level, k).len() ==>
            #[trigger] indices_at(st, level, k)[p] < #[trigger] indices_at(st, level, k)[q],
    decreases k,
{
    if k > 0 {
        let a = indices_at(st, level, k - 1);
        lemma_indices_increasing(st, level, k - 1);
        let b: Seq<usize> = if st[k - 1].infra == level { seq![(k - 1) as usize] } else { Seq::empty() };
        assert(indices_at(st, level, k) == a + b);
        assert forall|p: int| 0 <= p < (a + b).len() implies #[trigger] (a + b)[p] < k by {
            if p >= a.len() {
                assert((a + b)[p] == b[p - a.len()]);
            } else {
                assert((a + b)[p] == a[p]);
            }
        };
        assert forall|p: int, q: int| 0 <= p < q < (a + b).len() implies #[trigger] (a + b)[p] < #[trigger] (a + b)[q] by {
            if q >= a.len() {
                assert((a + b)[q] == b[q - a.len()]);
                if p < a.len() {
                    assert((a + b)[p] == a[p]);
                }
            } else {
                assert((a + b)[p] == a[p]);
                assert((a + b)[q] == a[q]);
            }
        };
    }
}

/// The visiting order names each node once, each below `n`.
proof fn lemma_order_range_distinct(st: Seq<NodeState>, hi: int, lo: int, n: int)
    requires
        0 <= n <= usize::MAX,
    ensures
        distinct(order_range(st, hi, lo, n)),
        forall|p: int| 0 <= p < order_range(st, hi, lo, n).len() ==> #[trigger] order_range(st, hi, lo, n)[p] < n,
    decreases hi - lo + 1,
{
    if hi >= lo {
        let a = indices_at(st, hi, n);
        let b = order_range(st, hi - 1, lo, n);
        lemma_indices_increasing(st, hi, n);
        lemma_indices_at_level(st, hi, n);
        lemma_order_range_sorted(st, hi - 1, lo, n);
        lemma_order_range_distinct(st, hi - 1, lo, n);
        assert(order_range(st, hi, lo, n) == a + b);
        assert forall|p: int| 0 <= p < (a + b).len() implies #[trigger] (a + b)[p] < n by {
            if p >= a.len() {
                assert((a + b)[p] == b[p - a.len()]);
            } else {
                assert((a + b)[p] == a[p]);
            }
        };
        assert forall|p: int, q: int| 0 <= p < q < (a + b).len() implies #[trigger] (a + b)[p] != #[trigger] (a + b)[q] by {
            if p >= a.len() {
                assert((a + b)[p] == b[p - a.len()]);
                assert((a + b)[q] == b[q - a.len()]);
            } else if q >= a.len() {
                assert((a + b)[p] == a[p]);
                assert((a + b)[q] == b[q - a.len()]);
                assert(st[a[p] as int].infra == hi);
                assert(st[b[q - a.len()] as int].infra <= hi - 1);
            } else {
                assert((a + b)[p] == a[p]);
                assert((a + b)[q] == a[q]);
            }
        };
    }
}

/// The conversion stage from position `p` of a distinct order, run from a
/// state that agrees with `st` on the nodes still to visit: each conversion
/// costs exactly its unit; the totals move by the conversions made, and every
/// node keeps its level and its factory total.
proof fn lemma_conv_stage(cur: Seq<NodeState>, nodes: Seq<NodeDesc>, st: Seq<NodeState>, ord: Seq<usize>, p: int, rem: int)
    -> (plan: Seq<int>)
    requires
        fits(cur, nodes),
        sum_civ(cur) <= i32::MAX,
        0 <= p,
        0 <= rem,
        distinct(ord),
        forall|q: int| 0 <= q < ord.len() ==> #[trigger] ord[q] < cur.len(),
        forall|q: int| p <= q < ord.len() ==> cur[#[trigger] ord[q] as int] == st[ord[q] as int],
    ensures
        plan_within(cur, nodes, plan, unit_costs(conv_terms(st, ord, p, rem, max1(sum_civ(cur))))),
        ({
            let e = plan_end(cur, nodes, plan);
            &&& e.len() == cur.len()
            &&& forall|j: int| 0 <= j < cur.len() ==> #[trigger] e[j].infra == cur[j].infra
                && e[j].civ + e[j].mil == cur[j].civ + cur[j].mil
            &&& sum_civ(e) == sum_civ(cur) - conv_count(st, ord, p, rem)
            &&& sum_mil(e) == sum_mil(cur) + conv_count(st, ord, p, rem)
        }),
    decreases ord.len() - p,
{
    crate::domain::lemma_sums_nonneg(cur);
    if p >= ord.len() || rem <= 0 {
        assert(unit_costs(conv_terms(st, ord, p, rem, max1(sum_civ(cur)))) =~= Seq::<(int, int)>::empty());
        assert(plan_end(cur, nodes, Seq::<int>::empty()) == cur);
        Seq::empty()
    } else {
        let node = ord[p] as int;
        assert(cur[node] == st[node]);
        let k = min_int(st[node].civ as int, rem);
        let den = max1(sum_civ(cur));
        let plan1 = lemma_convert_run(cur, nodes, node, k);
        let mid = cur.update(node, converted(cur[node], k));
        lemma_sums_update(cur, node, converted(cur[node], k));
        assert(fits(mid, nodes)) by {
            assert forall|j: int| 0 <= j < mid.len() implies #[trigger] mid[j].civ + mid[j].mil <= nodes[j].slots by {
                if j != node {
                    assert(mid[j] == cur[j]);
                }
            };
        };
        assert forall|q: int| p + 1 <= q < ord.len() implies mid[#[trigger] ord[q] as int] == st[ord[q] as int] by {
            assert(ord[q] != ord[p]);
        };
        assert(max1(den - k) == max1(sum_civ(mid)));
        let plan2 = lemma_conv_stage(mid, nodes, st, ord, p + 1, rem - k);
        let a = unit_terms(st[node].infra, k, den);
        let b = conv_terms(st, ord, p + 1, rem - k, max1(den - k));
        assert(conv_terms(st, ord, p, rem, den) == a + b);
        lemma_unit_costs_concat(a, b);
        lemma_plan_concat(cur, nodes, plan1, unit_costs(a), plan2, unit_costs(b));
        let e = plan_end(mid, nodes, plan2);
        assert forall|j: int| 0 <= j < cur.len() implies #[trigger] e[j].infra == cur[j].infra
            && e[j].civ + e[j].mil == cur[j].civ + cur[j].mil by {
            assert(e[j].infra == mid[j].infra);
            if j != node {
                assert(mid[j] == cur[j]);
            }
        };
        plan1 + plan2
    }
}

/// Node state `ns` after `t` builds of kind `a` (military or civilian).
pub open spec fn built(ns: NodeState, a: Action, t: int) -> NodeState {
    if a == Action::Civilian {
        NodeState { infra: ns.infra, civ: (ns.civ + t) as u8, mil: ns.mil }
    } else {
        NodeState { infra: ns.infra, civ: ns.civ, mil: (ns.mil + t) as u8 }
    }
}

proof fn lemma_cheaper_step(base: int, m: int, den: int, big: int)
    by (nonlinear_arith)
    requires
        0 <= base,
        0 <= m,
        1 <= den <= big,
    ensures
        (base * 10) * (m * den) <= (base * 10) * (m * big),
{
    assert(m * den <= m * big);
}

/// `t` builds of kind `a` on node `i`; each costs no more than a unit whose
/// civilian denominator `den` is at most the civilian count at that point.
proof fn lemma_build_run(cur: Seq<NodeState>, nodes: Seq<NodeDesc>, i: int, t: int, a: Action, den: int) -> (plan: Seq<int>)
    requires
        fits(cur, nodes),
        0 <= i < cur.len(),
        0 <= t <= empty_slots(cur[i], nodes[i]),
        a == Action::Military || a == Action::Civilian,
        1 <= den <= max1(sum_civ(cur)),
        sum_civ(cur) + t <= i32::MAX,
    ensures
        plan_within(cur, nodes, plan, Seq::new(t as nat, |u: int| (base_cost_spec(a) * 10, (10 + 2 * cur[i].infra) * den))),
        plan_end(cur, nodes, plan) == cur.update(i, built(cur[i], a, t)),
    decreases t,
{
    crate::domain::lemma_sums_nonneg(cur);
    let f = |u: int| (base_cost_spec(a) * 10, (10 + 2 * cur[i].infra) * den);
    if t == 0 {
        assert(cur.update(i, built(cur[i], a, t)) =~= cur);
        assert(Seq::new(t as nat, f) =~= Seq::<(int, int)>::empty());
        assert(plan_end(cur, nodes, Seq::<int>::empty()) == cur);
        Seq::empty()
    } else {
        let ns = cur[i];
        let one = built(ns, a, 1);
        let next = cur.update(i, one);
        law_successors_include_every_feasible_move(cur, nodes, i);
        let s0 = lemma_move_step(cur, nodes, i, a, one);
        lemma_sums_update(cur, i, one);
        assert(fits(next, nodes)) by {
            assert forall|j: int| 0 <= j < next.len() implies #[trigger] next[j].civ + next[j].mil <= nodes[j].slots by {
                if j != i {
                    assert(next[j] == cur[j]);
                }
            };
        };
        let c0 = f(0);
        let big = if sum_civ(cur) > 1 { sum_civ(cur) } else { 1 };
        lemma_cheaper_step(base_cost_spec(a), 10 + 2 * ns.infra, den, big);
        assert(frac_le(step_frac(successors_spec(cur, nodes)[s0]), c0));
        lemma_pos_mul(10 + 2 * ns.infra, den);
        lemma_pos_mul(10 + 2 * ns.infra, big);
        lemma_plan_one(cur, nodes, s0, c0);
        let rest = lemma_build_run(next, nodes, i, t - 1, a, den);
        assert(next[i].infra == ns.infra);
        let g = |u: int| (base_cost_spec(a) * 10, (10 + 2 * next[i].infra) * den);
        assert(Seq::new(t as nat, f) =~= seq![c0] + Seq::new((t - 1) as nat, g));
        lemma_plan_concat(cur, nodes, seq![s0], seq![c0], rest, Seq::new((t - 1) as nat, g));
        assert(next.update(i, built(next[i], a, t - 1)) =~= cur.update(i, built(cur[i], a, t)));
        seq![s0] + rest
    }
}

/// The build stage from position `p` of a distinct order, run from a state
/// that agrees with `st` on the levels and empty slots of the nodes still to
/// visit: each build costs no more than its unit; the built kind's total grows
/// by the units supplied and the other total stays.
proof fn lemma_build_stage(
    cur: Seq<NodeState>,
    nodes: Seq<NodeDesc>,
    st: Seq<NodeState>,
    ord: Seq<usize>,
    p: int,
    need: int,
    a: Action,
    den: int,
) -> (plan: Seq<int>)
    requires
        fits(cur, nodes),
        0 <= p,
        0 <= need,
        a == Action::Military || a == Action::Civilian,
        1 <= den <= max1(sum_civ(cur)),
        den <= i32::MAX,
        sum_civ(cur) + need <= i32::MAX,
        distinct(ord),
        forall|q: int| 0 <= q < ord.len() ==> #[trigger] ord[q] < cur.len(),
        forall|q: int| p <= q < ord.len() ==> empty_slots(cur[#[trigger] ord[q] as int], nodes[ord[q] as int])
            == empty_slots(st[ord[q] as int], nodes[ord[q] as int]) && cur[ord[q] as int].infra == st[ord[q] as int].infra,
    ensures
        plan_within(cur, nodes, plan, unit_costs(build_terms(st, nodes, ord, p, need, base_cost_spec(a) as u32, den))),
        ({
            let e = plan_end(cur, nodes, plan);
            let supplied = need - build_left(st, nodes, ord, p, need);
            &&& e.len() == cur.len()
            &&& a == Action::Military ==> sum_mil(e) == sum_mil(cur) + supplied && sum_civ(e) == sum_civ(cur)
            &&& a == Action::Civilian ==> sum_civ(e) == sum_civ(cur) + supplied && sum_mil(e) == sum_mil(cur)
        }),
    decreases ord.len() - p,
{
    crate::domain::lemma_sums_nonneg(cur);
    let base = base_cost_spec(a) as u32;
    if p >= ord.len() || need == 0 {
        assert(unit_costs(build_terms(st, nodes, ord, p, need, base, den)) =~= Seq::<(int, int)>::empty());
        assert(plan_end(cur, nodes, Seq::<int>::empty()) == cur);
        Seq::empty()
    } else {
        let node = ord[p] as int;
        if empty_slots(st[node], nodes[node]) <= 0 {
            assert(build_terms(st, nodes, ord, p, need, base, den) == build_terms(st, nodes, ord, p + 1, need, base, den));
            lemma_build_stage(cur, nodes, st, ord, p + 1, need, a, den)
        } else {
            let take = min_int(empty_slots(st[node], nodes[node]), need);
            let plan1 = lemma_build_run(cur, nodes, node, take, a, den);
            let mid = cur.update(node, built(cur[node], a, take));
            lemma_sums_update(cur, node, built(cur[node], a, take));
            assert(fits(mid, nodes)) by {
                assert forall|j: int| 0 <= j < mid.len() implies #[trigger] mid[j].civ + mid[j].mil <= nodes[j].slots by {
                    if j != node {
                        assert(mid[j] == cur[j]);
                    }
                };
            };
            assert forall|q: int| p + 1 <= q < ord.len() implies empty_slots(mid[#[trigger] ord[q] as int], nodes[ord[q] as int])
                == empty_slots(st[ord[q] as int], nodes[ord[q] as int]) && mid[ord[q] as int].infra == st[ord[q] as int].infra by {
                assert(ord[q] != ord[p]);
            };
            let plan2 = lemma_build_stage(mid, nodes, st, ord, p + 1, need - take, a, den);
            let t = BoundTerm { base: base, infra: st[node].infra, take: take as i32, den: den as i32 };
            let b = build_terms(st, nodes, ord, p + 1, need - take, base, den);
            assert(build_terms(st, nodes, ord, p, need, base, den) == seq![t] + b);
            lemma_unit_costs_concat(seq![t], b);
            assert(unit_costs(seq![t]) =~= Seq::new(take as nat, |u: int| (base_cost_spec(a) * 10, (10 + 2 * cur[node].infra) * den))) by {
                assert(seq![t].drop_first() =~= Seq::<BoundTerm>::empty());
                assert(seq![t][0] == t);
                assert(unit_costs(Seq::<BoundTerm>::empty()) =~= Seq::<(int, int)>::empty());
            };
            lemma_plan_concat(cur, nodes, plan1, unit_costs(seq![t]), plan2, unit_costs(b));
            plan1 + plan2
        }
    }
}

/// The fractions of `costs` added up.
pub open spec fn frac_sum(costs: Seq<(int, int)>) -> (int, int)
    decreases costs.len(),
{
    if costs.len() == 0 {
        (0, 1)
    } else {
        let (rn, rd) = frac_sum(costs.drop_first());
        (costs[0].0 * rd + rn * costs[0].1, costs[0].1 * rd)
    }
}

proof fn lemma_mul_le(x: int, y: int, m: int)
    by (nonlinear_arith)
    requires
        x <= y,
        m > 0,
    ensures
        x * m <= y * m,
{
}

proof fn lemma_distrib(x: int, y: int, z: int)
    by (nonlinear_arith)
    ensures
        (x + y) * z == x * z + y * z,
{
}

proof fn lemma_regroup(p: int, q: int, r: int, s: int)
    by (nonlinear_arith)
    ensures
        (p * q) * (r * s) == (p * r) * (q * s),
{
}

proof fn lemma_frac_add_le(a: int, b: int, c: int, d: int, pn: int, pd: int, qn: int, qd: int)
    requires
        b > 0,
        d > 0,
        pd > 0,
        qd > 0,
        a * d <= c * b,
        pn * qd <= qn * pd,
    ensures
        (a * pd + pn * b) * (d * qd) <= (c * qd + qn * d) * (b * pd),
        b * pd > 0,
        d * qd > 0,
{
    lemma_pos_mul(b, pd);
    lemma_pos_mul(d, qd);
    lemma_pos_mul(pd, qd);
    lemma_pos_mul(b, d);
    lemma_mul_le(a * d, c * b, pd * qd);
    lemma_mul_le(pn * qd, qn * pd, b * d);
    lemma_distrib(a * pd, pn * b, d * qd);
    lemma_distrib(c * qd, qn * d, b * pd);
    lemma_regroup(a, pd, d, qd);
    lemma_regroup(pn, b, qd, d);
    lemma_regroup(c, qd, b, pd);
    lemma_regroup(qn, d, pd, b);
    vstd::arithmetic::mul::lemma_mul_is_commutative(d, qd);
    vstd::arithmetic::mul::lemma_mul_is_commutative(b, d);
    vstd::arithmetic::mul::lemma_mul_is_commutative(qd, pd);
    vstd::arithmetic::mul::lemma_mul_is_commutative(d, b);
    vstd::arithmetic::mul::lemma_mul_is_commutative(pd, b);
}

/// A plan within `costs` costs in all no more than `costs` add up to.
proof fn lemma_plan_cost_within(st: Seq<NodeState>, nodes: Seq<NodeDesc>, plan: Seq<int>, costs: Seq<(int, int)>)
    requires
        plan_within(st, nodes, plan, costs),
    ensures
        frac_le(plan_cost(st, nodes, plan), frac_sum(costs)),
        plan_cost(st, nodes, plan).1 > 0,
        frac_sum(costs).1 > 0,
    decreases plan.len(),
{
    if plan.len() > 0 {
        let s = successors_spec(st, nodes)[plan[0]];
        lemma_plan_cost_within(s.next_state, nodes, plan.drop_first(), costs.drop_first());
        let (cn, cd) = step_frac(s);
        let (pn, pd) = plan_cost(s.next_state, nodes, plan.drop_first());
        let (qn, qd) = frac_sum(costs.drop_first());
        lemma_frac_add_le(cn, cd, costs[0].0, costs[0].1, pn, pd, qn, qd);
    }
}

/// The upper bound is met by a plan: from a valid state, whenever the greedy
/// upper bound is finite, some plan makes one move per unit the bound counts,
/// in the bound's order (conversions first, each a conversion, then builds),
/// every move costing no more than its unit (the conversions and the
/// military builds exactly as much), and it reaches the target; in all, the
/// plan costs no more than the bound's units add up to.
#[verifier::spinoff_prover]
#[verifier::rlimit(60)]
pub proof fn law_upper_bound_met_by_plan(st: Seq<NodeState>, nodes: Seq<NodeDesc>, target_type: TargetType, target: int)
    requires
        state_valid(st, nodes),
        st.len() <= usize::MAX,
        sum_civ(st) + (if target > 0 { target } else { 0 }) <= i32::MAX,
        upper_bound_spec(st, nodes, target_type, target).1,
    ensures
        exists|plan: Seq<int>| #[trigger] plan_within(st, nodes, plan, unit_costs(upper_bound_spec(st, nodes, target_type, target).0))
            && target_count(plan_end(st, nodes, plan), target_type) >= target
            && frac_le(plan_cost(st, nodes, plan), frac_sum(unit_costs(upper_bound_spec(st, nodes, target_type, target).0))),
{
    let n = st.len() as int;
    assert(paired_len(st, nodes) == n);
    assert(st.take(n) =~= st);
    let ord = infra_order(st, n);
    let hi = max_infra(st, n);
    lemma_order_range_distinct(st, hi, 0, n);
    let need = remaining_units(st, nodes, target_type, target);
    let c = sum_civ(st);
    crate::domain::lemma_sums_nonneg(st);
    assert(fits(st, nodes));
    let terms = upper_bound_spec(st, nodes, target_type, target).0;
    if need == 0 {
        assert(terms =~= Seq::<BoundTerm>::empty());
        assert(unit_costs(terms) =~= Seq::<(int, int)>::empty());
        assert(plan_within(st, nodes, Seq::<int>::empty(), unit_costs(terms)));
        assert(plan_end(st, nodes, Seq::<int>::empty()) == st);
        lemma_plan_cost_within(st, nodes, Seq::<int>::empty(), unit_costs(terms));
    } else {
        match target_type {
            TargetType::Military => {
                let cap = min_int(need, c);
                let plan1 = lemma_conv_stage(st, nodes, st, ord, 0, cap);
                let conv = conv_terms(st, ord, 0, cap, max1(c));
                let e1 = plan_end(st, nodes, plan1);
                lemma_conv_count_amount(st, ord, 0, cap);
                crate::operation_laws::lemma_ord_sum_nonneg(ord, crate::operation_laws::civ_at(st), 0);
                let done = conv_count(st, ord, 0, cap);
                let need2 = need - done;
                if need2 == 0 {
                    assert(terms == conv);
                    assert(target_count(e1, target_type) >= target);
                    lemma_plan_cost_within(st, nodes, plan1, unit_costs(terms));
                } else {
                    let den = max1(c - cap);
                    assert(fits(e1, nodes)) by {
                        assert forall|j: int| 0 <= j < e1.len() implies #[trigger] e1[j].civ + e1[j].mil <= nodes[j].slots by {
                            assert(e1[j].infra == st[j].infra);
                            assert(e1[j].civ + e1[j].mil == st[j].civ + st[j].mil);
                        };
                    };
                    assert forall|q: int| 0 <= q < ord.len() implies empty_slots(e1[#[trigger] ord[q] as int], nodes[ord[q] as int])
                        == empty_slots(st[ord[q] as int], nodes[ord[q] as int]) && e1[ord[q] as int].infra == st[ord[q] as int].infra by {
                        let j = ord[q] as int;
                        assert(e1[j].infra == st[j].infra);
                        assert(e1[j].civ + e1[j].mil == st[j].civ + st[j].mil);
                    };
                    crate::domain::lemma_sums_nonneg(e1);
                    let plan2 = lemma_build_stage(e1, nodes, st, ord, 0, need2, Action::Military, den);
                    let bt = build_terms(st, nodes, ord, 0, need2, 7200, den);
                    assert(base_cost_spec(Action::Military) as u32 == 7200);
                    assert(terms == conv + bt);
                    lemma_unit_costs_concat(conv, bt);
                    lemma_plan_concat(st, nodes, plan1, unit_costs(conv), plan2, unit_costs(bt));
                    let plan = plan1 + plan2;
                    assert(plan_within(st, nodes, plan, unit_costs(terms)));
                    assert(target_count(plan_end(st, nodes, plan), target_type) >= target);
                    lemma_plan_cost_within(st, nodes, plan, unit_costs(terms));
                }
            },
            TargetType::Civilian => {
                let plan = lemma_build_stage(st, nodes, st, ord, 0, need, Action::Civilian, max1(c));
                assert(base_cost_spec(Action::Civilian) as u32 == 10800);
                assert(plan_within(st, nodes, plan, unit_costs(terms)));
                assert(target_count(plan_end(st, nodes, plan), target_type) >= target);
                lemma_plan_cost_within(st, nodes, plan, unit_costs(terms));
            },
            TargetType::Factories => {
                let plan = lemma_build_stage(st, nodes, st, ord, 0, need, Action::Military, max1(c));
                assert(base_cost_spec(Action::Military) as u32 == 7200);
                assert(plan_within(st, nodes, plan, unit_costs(terms)));
                assert(target_count(plan_end(st, nodes, plan), target_type) >= target);
                lemma_plan_cost_within(st, nodes, plan, unit_costs(terms));
            },
        }
    }
}

} // verus!

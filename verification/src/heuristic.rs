//! Heuristics for the search: an optimistic lower bound on the remaining cost
//! and a greedy upper bound used for pruning.
//!
//! A bound is described exactly: the lower bound as a base cost over twice a
//! civilian count, the upper bound as a list of terms
//! `take * base / multiplier(infra) / den`, summed in order, or as unknown when
//! the greedy plan cannot reach the target.
use crate::domain::{
    lemma_prefix_sums_le, lemma_sums_nonneg, sum_civ, sum_mil, target_count, NodeDesc,
    NodeState, State, TargetType,
};
use vstd::prelude::*;
use vstd::string::StringExecFns;

verus! {

/// Empty factory slots of a node, never negative.
pub open spec fn empty_slots(ns: NodeState, nd: NodeDesc) -> int {
    let e = nd.slots - (ns.civ + ns.mil);
    if e > 0 {
        e
    } else {
        0
    }
}

/// Sum of empty slots over the first `n` nodes.
pub open spec fn sum_empty(st: Seq<NodeState>, nodes: Seq<NodeDesc>, n: int) -> int
    decreases n,
{
    if n <= 0 {
        0
    } else {
        sum_empty(st, nodes, n - 1) + empty_slots(st[n - 1], nodes[n - 1])
    }
}

/// Sum of slots over the nodes.
pub open spec fn sum_slots(nodes: Seq<NodeDesc>) -> int
    decreases nodes.len(),
{
    if nodes.len() == 0 {
        0
    } else {
        sum_slots(nodes.drop_last()) + nodes.last().slots
    }
}

/// Number of nodes that both the state and the descriptors cover.
pub open spec fn paired_len(st: Seq<NodeState>, nodes: Seq<NodeDesc>) -> int {
    if st.len() <= nodes.len() {
        st.len() as int
    } else {
        nodes.len() as int
    }
}

/// The sums the upper bound forms over the paired nodes fit its `i32`
/// counters: the civilian total, the military total and the counted total;
/// and the distance to the target does not underflow.
pub open spec fn upper_inputs_fit(st: Seq<NodeState>, nodes: Seq<NodeDesc>, target_type: TargetType, target: i32) -> bool {
    let p = st.take(paired_len(st, nodes));
    &&& sum_civ(p) <= i32::MAX
    &&& sum_mil(p) <= i32::MAX
    &&& target_count(p, target_type) <= i32::MAX
    &&& target - target_count(p, target_type) >= i32::MIN
}

/// The sums the lower bound forms over the paired nodes fit its `i32`
/// counters: those of the upper bound, the empty-slot total, and the civilian
/// total plus the spare empty slots.
pub open spec fn bound_inputs_fit(st: Seq<NodeState>, nodes: Seq<NodeDesc>, target_type: TargetType, target: i32) -> bool {
    let n = paired_len(st, nodes);
    let e = sum_empty(st, nodes, n);
    let r = remaining_units(st, nodes, target_type, target as int);
    &&& upper_inputs_fit(st, nodes, target_type, target)
    &&& e <= i32::MAX
    &&& sum_civ(st.take(n)) + (if e - r > 0 { e - r } else { 0 }) <= i32::MAX
}

/// Units still missing to reach `target` over the paired nodes, never negative.
pub open spec fn remaining_units(st: Seq<NodeState>, nodes: Seq<NodeDesc>, target_type: TargetType, target: int) -> int {
    let c = target_count(st.take(paired_len(st, nodes)), target_type);
    if target - c > 0 {
        target - c
    } else {
        0
    }
}

pub open spec fn min_int(a: int, b: int) -> int {
    if a <= b {
        a
    } else {
        b
    }
}

pub open spec fn max1(a: int) -> int {
    if a >= 1 {
        a
    } else {
        1
    }
}

/// A lower bound on the remaining cost: zero, or `base / 2 / civ_upper`
/// (2 is the infrastructure multiplier at level 5).
#[derive(Clone, Copy, Debug, PartialEq, Eq, Structural)]
pub enum LowerBound {
    Zero,
    Scaled { base: u64, civ_upper: u64 },
}

/// The best-infrastructure lower bound over the paired nodes.
///
/// With `remaining` units missing, `civ_upper = max(1, civ + max(0, empty -
/// remaining))` bounds the civilian denominator from above. Military units
/// cost 4000 for each of the first `min(remaining, civ)` (conversions) and
/// 7200 for the rest; civilian units cost 10800; factories cost 7200.
pub open spec fn lower_bound_spec(st: Seq<NodeState>, nodes: Seq<NodeDesc>, target_type: TargetType, target: int) -> LowerBound {
    let n = paired_len(st, nodes);
    let p = st.take(n);
    let remaining = remaining_units(st, nodes, target_type, target);
    let empty = sum_empty(st, nodes, n);
    let civ = sum_civ(p);
    let civ_upper = max1(civ + (if empty - remaining > 0 { empty - remaining } else { 0 }));
    if remaining == 0 {
        LowerBound::Zero
    } else {
        let base = match target_type {
            TargetType::Military => {
                let conv = min_int(remaining, civ);
                4000 * conv + 7200 * (remaining - conv)
            },
            TargetType::Civilian => 10800 * remaining,
            TargetType::Factories => 7200 * remaining,
        };
        LowerBound::Scaled { base: base as u64, civ_upper: civ_upper as u64 }
    }
}

pub proof fn lemma_slots_prefix(nodes: Seq<NodeDesc>, k: int)
    requires
        0 <= k <= nodes.len(),
    ensures
        0 <= sum_slots(nodes.take(k)) <= sum_slots(nodes),
    decreases nodes.len() - k,
{
    if k < nodes.len() {
        lemma_slots_prefix(nodes, k + 1);
        lemma_slots_nonneg(nodes.take(k));
        assert(nodes.take(k + 1).drop_last() =~= nodes.take(k));
    } else {
        assert(nodes.take(k) =~= nodes);
        lemma_slots_nonneg(nodes);
    }
}

pub proof fn lemma_slots_nonneg(nodes: Seq<NodeDesc>)
    ensures
        sum_slots(nodes) >= 0,
    decreases nodes.len(),
{
    if nodes.len() > 0 {
        lemma_slots_nonneg(nodes.drop_last());
    }
}

pub proof fn lemma_sum_empty_bounds(st: Seq<NodeState>, nodes: Seq<NodeDesc>, k: int)
    requires
        0 <= k <= st.len(),
        k <= nodes.len(),
    ensures
        0 <= sum_empty(st, nodes, k) <= sum_slots(nodes.take(k)),
    decreases k,
{
    if k > 0 {
        lemma_sum_empty_bounds(st, nodes, k - 1);
        assert(nodes.take(k).drop_last() =~= nodes.take(k - 1));
    } else {
        assert(nodes.take(0).len() == 0);
    }
}

/// Civilian and military totals over the paired nodes.
fn paired_totals(st: &State, nodes: &[NodeDesc]) -> (r: (i32, i32))
    requires
        sum_civ(st@.take(paired_len(st@, nodes@))) <= i32::MAX,
        sum_mil(st@.take(paired_len(st@, nodes@))) <= i32::MAX,
    ensures
        r.0 == sum_civ(st@.take(paired_len(st@, nodes@))),
        r.1 == sum_mil(st@.take(paired_len(st@, nodes@))),
        0 <= r.0,
        0 <= r.1,
{
    let n = if st.0.len() <= nodes.len() { st.0.len() } else { nodes.len() };
    let ghost p = st@.take(n as int);
    let mut civ: i32 = 0;
    let mut mil: i32 = 0;
    let mut i: usize = 0;
    while i < n
        invariant
            n == paired_len(st@, nodes@),
            p == st@.take(n as int),
            i <= n,
            sum_civ(p) <= i32::MAX,
            sum_mil(p) <= i32::MAX,
            civ == sum_civ(st@.take(i as int)),
            mil == sum_mil(st@.take(i as int)),
        decreases n - i,
    {
        proof {
            lemma_prefix_sums_le(p, i + 1);
            assert(p.take(i + 1) =~= st@.take(i + 1));
            assert(st@.take(i + 1).drop_last() =~= st@.take(i as int));
        }
        let ns = st.0[i];
        civ = civ + ns.civ as i32;
        mil = mil + ns.mil as i32;
        i = i + 1;
    }
    proof {
        lemma_sums_nonneg(p);
    }
    (civ, mil)
}

proof fn lemma_sum_empty_nonneg(st: Seq<NodeState>, nodes: Seq<NodeDesc>, k: int)
    ensures
        0 <= sum_empty(st, nodes, k),
    decreases k,
{
    if k > 0 {
        lemma_sum_empty_nonneg(st, nodes, k - 1);
    }
}

proof fn lemma_sum_empty_mono(st: Seq<NodeState>, nodes: Seq<NodeDesc>, i: int, n: int)
    requires
        0 <= i <= n,
    ensures
        0 <= sum_empty(st, nodes, i) <= sum_empty(st, nodes, n),
    decreases n,
{
    lemma_sum_empty_nonneg(st, nodes, i);
    if i < n {
        lemma_sum_empty_mono(st, nodes, i, n - 1);
    }
}

/// The empty-slot total over the paired nodes.
fn paired_empty(st: &State, nodes: &[NodeDesc]) -> (r: i32)
    requires
        sum_empty(st@, nodes@, paired_len(st@, nodes@)) <= i32::MAX,
    ensures
        r == sum_empty(st@, nodes@, paired_len(st@, nodes@)),
        0 <= r,
{
    let n = if st.0.len() <= nodes.len() { st.0.len() } else { nodes.len() };
    let mut empty: i32 = 0;
    let mut i: usize = 0;
    while i < n
        invariant
            n == paired_len(st@, nodes@),
            i <= n,
            sum_empty(st@, nodes@, n as int) <= i32::MAX,
            empty == sum_empty(st@, nodes@, i as int),
        decreases n - i,
    {
        proof {
            lemma_sum_empty_mono(st@, nodes@, i + 1, n as int);
        }
        let ns = st.0[i];
        let nd = nodes[i];
        let used = ns.civ as i32 + ns.mil as i32;
        let e = nd.slots as i32 - used;
        empty = empty + if e > 0 { e } else { 0 };
        i = i + 1;
    }
    proof {
        lemma_sum_empty_mono(st@, nodes@, 0, n as int);
    }
    empty
}

/// Units still missing to reach `target`, never negative.
fn remaining_of(civ: i32, mil: i32, target_type: TargetType, target: i32) -> (r: i32)
    requires
        0 <= civ,
        0 <= mil,
        (match target_type {
            TargetType::Military => mil as int,
            TargetType::Civilian => civ as int,
            TargetType::Factories => mil + civ,
        }) <= i32::MAX,
        target - (match target_type {
            TargetType::Military => mil as int,
            TargetType::Civilian => civ as int,
            TargetType::Factories => mil + civ,
        }) >= i32::MIN,
    ensures
        r == (if target - (match target_type {
            TargetType::Military => mil as int,
            TargetType::Civilian => civ as int,
            TargetType::Factories => mil + civ,
        }) > 0 {
            target - (match target_type {
                TargetType::Military => mil as int,
                TargetType::Civilian => civ as int,
                TargetType::Factories => mil + civ,
            })
        } else {
            0
        }),
{
    let d = match target_type {
        TargetType::Military => target - mil,
        TargetType::Civilian => target - civ,
        TargetType::Factories => target - (mil + civ),
    };
    if d > 0 {
        d
    } else {
        0
    }
}

pub proof fn lemma_paired_counts(st: Seq<NodeState>, nodes: Seq<NodeDesc>, target_type: TargetType)
    ensures
        target_count(st.take(paired_len(st, nodes)), target_type) <= target_count(st, target_type),
        target_count(st.take(paired_len(st, nodes)), target_type) >= 0,
{
    lemma_prefix_sums_le(st, paired_len(st, nodes));
}

/// The best-infrastructure lower bound, exactly as `lower_bound_spec` states it.
fn best_infra_lower_bound(st: &State, nodes: &[NodeDesc], target_type: TargetType, target: i32) -> (r: LowerBound)
    requires
        bound_inputs_fit(st@, nodes@, target_type, target),
    ensures
        r == lower_bound_spec(st@, nodes@, target_type, target as int),
{
    let (civ, mil) = paired_totals(st, nodes);
    let empty = paired_empty(st, nodes);
    let remaining = remaining_of(civ, mil, target_type, target);
    if remaining == 0 {
        return LowerBound::Zero;
    }
    let slack = if empty - remaining > 0 { empty - remaining } else { 0 };
    let cu = civ + slack;
    let civ_upper: i32 = if cu >= 1 { cu } else { 1 };
    let base: u64 = match target_type {
        TargetType::Military => {
            let conv = if remaining <= civ { remaining } else { civ };
            4000 * (conv as u64) + 7200 * ((remaining - conv) as u64)
        },
        TargetType::Civilian => 10800 * (remaining as u64),
        TargetType::Factories => 7200 * (remaining as u64),
    };
    LowerBound::Scaled { base, civ_upper: civ_upper as u64 }
}

/// Highest infrastructure level among the first `k` nodes (0 when there are none).
pub open spec fn max_infra(st: Seq<NodeState>, k: int) -> int
    decreases k,
{
    if k <= 0 {
        0
    } else {
        let m = max_infra(st, k - 1);
        if st[k - 1].infra > m {
            st[k - 1].infra as int
        } else {
            m
        }
    }
}

/// Indices below `k` of the nodes at infrastructure `level`, in increasing order.
pub open spec fn indices_at(st: Seq<NodeState>, level: int, k: int) -> Seq<usize>
    decreases k,
{
    if k <= 0 {
        Seq::empty()
    } else {
        indices_at(st, level, k - 1) + (if st[k - 1].infra == level { seq![(k - 1) as usize] } else { Seq::empty() })
    }
}

/// Indices below `n` level by level from `hi` down to `lo`.
pub open spec fn order_range(st: Seq<NodeState>, hi: int, lo: int, n: int) -> Seq<usize>
    decreases hi - lo + 1,
{
    if hi < lo {
        Seq::empty()
    } else {
        indices_at(st, hi, n) + order_range(st, hi - 1, lo, n)
    }
}

/// The first `n` nodes from cheapest to dearest action cost: by infrastructure
/// level, highest first (its multiplier divides every cost), ties by index.
pub open spec fn infra_order(st: Seq<NodeState>, n: int) -> Seq<usize> {
    order_range(st, max_infra(st, n), 0, n)
}

/// A term `take * base / multiplier(infra) / den` of an upper bound.
#[derive(Clone, Copy, Debug, PartialEq, Eq, Structural)]
pub struct BoundTerm {
    pub base: u32,
    pub infra: u8,
    pub take: i32,
    pub den: i32,
}

/// An upper bound on the remaining cost: the sum of `terms` in order, or no
/// bound (infinite) when `complete` is false.
pub struct UpperBound {
    pub terms: Vec<BoundTerm>,
    pub complete: bool,
}

impl View for UpperBound {
    type V = (Seq<BoundTerm>, bool);

    open spec fn view(&self) -> (Seq<BoundTerm>, bool) {
        (self.terms@, self.complete)
    }
}

/// `k` single conversions at infrastructure `infra`, the civilian denominator
/// starting at `den` and dropping by one per conversion, not below 1.
pub open spec fn unit_terms(infra: u8, k: int, den: int) -> Seq<BoundTerm>
    decreases k,
{
    if k <= 0 {
        Seq::empty()
    } else {
        seq![BoundTerm { base: 4000, infra: infra, take: 1, den: den as i32 }] + unit_terms(infra, k - 1, max1(den - 1))
    }
}

/// Conversion stage from position `p` of `ord` with `rem` conversions still
/// wanted: each node converts as many civilians as it has, up to `rem`.
pub open spec fn conv_terms(st: Seq<NodeState>, ord: Seq<usize>, p: int, rem: int, den: int) -> Seq<BoundTerm>
    decreases ord.len() - p,
{
    if p >= ord.len() || p < 0 || rem <= 0 {
        Seq::empty()
    } else {
        let k = min_int(st[ord[p] as int].civ as int, rem);
        unit_terms(st[ord[p] as int].infra, k, den) + conv_terms(st, ord, p + 1, rem - k, max1(den - k))
    }
}

/// Number of conversions the conversion stage makes.
pub open spec fn conv_count(st: Seq<NodeState>, ord: Seq<usize>, p: int, rem: int) -> int
    decreases ord.len() - p,
{
    if p >= ord.len() || p < 0 || rem <= 0 {
        0
    } else {
        let k = min_int(st[ord[p] as int].civ as int, rem);
        k + conv_count(st, ord, p + 1, rem - k)
    }
}

/// Build stage from position `p` of `ord` with `need` units missing: each node
/// takes as many as its empty slots allow; a node without empty slots is
/// passed over.
pub open spec fn build_terms(
    st: Seq<NodeState>,
    nodes: Seq<NodeDesc>,
    ord: Seq<usize>,
    p: int,
    need: int,
    base: u32,
    den: int,
) -> Seq<BoundTerm>
    decreases ord.len() - p,
{
    if p >= ord.len() || p < 0 || need == 0 {
        Seq::empty()
    } else if empty_slots(st[ord[p] as int], nodes[ord[p] as int]) <= 0 {
        build_terms(st, nodes, ord, p + 1, need, base, den)
    } else {
        let take = min_int(empty_slots(st[ord[p] as int], nodes[ord[p] as int]), need);
        seq![BoundTerm { base: base, infra: st[ord[p] as int].infra, take: take as i32, den: den as i32 }]
            + build_terms(st, nodes, ord, p + 1, need - take, base, den)
    }
}

/// Units still missing after the build stage.
pub open spec fn build_left(st: Seq<NodeState>, nodes: Seq<NodeDesc>, ord: Seq<usize>, p: int, need: int) -> int
    decreases ord.len() - p,
{
    if p >= ord.len() || p < 0 || need == 0 {
        need
    } else if empty_slots(st[ord[p] as int], nodes[ord[p] as int]) <= 0 {
        build_left(st, nodes, ord, p + 1, need)
    } else {
        let take = min_int(empty_slots(st[ord[p] as int], nodes[ord[p] as int]), need);
        build_left(st, nodes, ord, p + 1, need - take)
    }
}

/// The greedy upper bound over the paired nodes, cheapest nodes first.
///
/// Military: convert civilians first (up to what is missing), then build
/// military factories at the civilian count left after the conversions.
/// Civilian: build civilian factories. Factories: build military factories.
/// The bound is infinite when the builds cannot cover what is missing.
pub open spec fn upper_bound_spec(st: Seq<NodeState>, nodes: Seq<NodeDesc>, target_type: TargetType, target: int) -> (Seq<BoundTerm>, bool) {
    let n = paired_len(st, nodes);
    let ord = infra_order(st, n);
    let need = remaining_units(st, nodes, target_type, target);
    let civ = sum_civ(st.take(n));
    if need == 0 {
        (Seq::empty(), true)
    } else {
        match target_type {
            TargetType::Military => {
                let cap = min_int(need, civ);
                let conv = conv_terms(st, ord, 0, cap, max1(civ));
                let need2 = need - conv_count(st, ord, 0, cap);
                if need2 == 0 {
                    (conv, true)
                } else {
                    let den = max1(civ - cap);
                    (conv + build_terms(st, nodes, ord, 0, need2, 7200, den), build_left(st, nodes, ord, 0, need2) == 0)
                }
            },
            TargetType::Civilian => (
                build_terms(st, nodes, ord, 0, need, 10800, max1(civ)),
                build_left(st, nodes, ord, 0, need) == 0,
            ),
            TargetType::Factories => (
                build_terms(st, nodes, ord, 0, need, 7200, max1(civ)),
                build_left(st, nodes, ord, 0, need) == 0,
            ),
        }
    }
}

/// Taking the lowest level off the end of a range of levels.
proof fn lemma_order_range_split(st: Seq<NodeState>, hi: int, lo: int, n: int)
    requires
        lo <= hi,
    ensures
        order_range(st, hi, lo, n) == order_range(st, hi, lo + 1, n) + indices_at(st, lo, n),
    decreases hi - lo,
{
    if hi == lo {
        assert(order_range(st, hi - 1, lo, n) =~= Seq::<usize>::empty());
        assert(order_range(st, hi, lo + 1, n) =~= Seq::<usize>::empty());
        assert(order_range(st, hi, lo, n) =~= order_range(st, hi, lo + 1, n) + indices_at(st, lo, n));
    } else {
        lemma_order_range_split(st, hi - 1, lo, n);
        assert(order_range(st, hi, lo, n) =~= order_range(st, hi, lo + 1, n) + indices_at(st, lo, n));
    }
}

/// The first `n` node indices ordered by infrastructure, highest first, ties by index.
fn infra_order_of(st: &State, n: usize) -> (ord: Vec<usize>)
    requires
        n <= st@.len(),
    ensures
        ord@ == infra_order(st@, n as int),
        forall|p: int| 0 <= p < ord@.len() ==> #[trigger] ord@[p] < n,
{
    let mut top: u8 = 0;
    let mut i: usize = 0;
    while i < n
        invariant
            i <= n,
            n <= st@.len(),
            top == max_infra(st@, i as int),
        decreases n - i,
    {
        if st.0[i].infra > top {
            top = st.0[i].infra;
        }
        i = i + 1;
    }
    let mut ord: Vec<usize> = Vec::new();
    let mut level: u8 = top;
    loop
        invariant_except_break
            ord@ == order_range(st@, top as int, level + 1, n as int),
        invariant
            n <= st@.len(),
            level <= top,
            top == max_infra(st@, n as int),
            forall|p: int| 0 <= p < ord@.len() ==> #[trigger] ord@[p] < n,
        ensures
            ord@ == order_range(st@, top as int, 0, n as int),
            forall|p: int| 0 <= p < ord@.len() ==> #[trigger] ord@[p] < n,
        decreases level,
    {
        let ghost before = ord@;
        let mut k: usize = 0;
        while k < n
            invariant
                k <= n,
                n <= st@.len(),
                ord@ == before + indices_at(st@, level as int, k as int),
                forall|p: int| 0 <= p < ord@.len() ==> #[trigger] ord@[p] < n,
            decreases n - k,
        {
            if st.0[k].infra == level {
                ord.push(k);
            }
            k = k + 1;
            assert(ord@ =~= before + indices_at(st@, level as int, k as int));
        }
        proof {
            lemma_order_range_split(st@, top as int, level as int, n as int);
        }
        if level == 0 {
            break;
        }
        level = level - 1;
    }
    ord
}

/// `k` more conversion terms peel off one at a time.
proof fn lemma_unit_terms_step(infra: u8, k: int, den: int)
    requires
        k > 0,
    ensures
        unit_terms(infra, k, den) == seq![BoundTerm { base: 4000, infra: infra, take: 1, den: den as i32 }]
            + unit_terms(infra, k - 1, max1(den - 1)),
{
}

/// The denominator after `k` conversions starting at `den >= 1`.
pub open spec fn den_after(den: int, k: int) -> int {
    max1(den - k)
}

/// Appends the conversion stage to `terms`; returns how many conversions it made.
fn push_conversions(terms: &mut Vec<BoundTerm>, st: &State, ord: &Vec<usize>, cap: i32, den0: i32) -> (done: i32)
    requires
        forall|p: int| 0 <= p < ord@.len() ==> #[trigger] ord@[p] < st@.len(),
        0 <= cap,
        1 <= den0,
    ensures
        final(terms)@ == old(terms)@ + conv_terms(st@, ord@, 0, cap as int, den0 as int),
        done == conv_count(st@, ord@, 0, cap as int),
        0 <= done <= cap,
{
    let mut done: i32 = 0;
    let mut den: i32 = den0;
    let mut p: usize = 0;
    while p < ord.len() && done < cap
        invariant
            forall|p: int| 0 <= p < ord@.len() ==> #[trigger] ord@[p] < st@.len(),
            p <= ord@.len(),
            0 <= done <= cap,
            1 <= den,
            terms@ + conv_terms(st@, ord@, p as int, (cap - done) as int, den as int)
                == old(terms)@ + conv_terms(st@, ord@, 0, cap as int, den0 as int),
            done + conv_count(st@, ord@, p as int, (cap - done) as int) == conv_count(st@, ord@, 0, cap as int),
        decreases ord@.len() - p,
    {
        let node = ord[p];
        let civ = st.0[node].civ as i32;
        let infra = st.0[node].infra;
        let k: i32 = if civ <= cap - done { civ } else { cap - done };
        let ghost rest = conv_terms(st@, ord@, p + 1, (cap - done - k) as int, max1(den - k));
        let ghost t0 = terms@;
        let ghost den_start = den as int;
        assert(conv_terms(st@, ord@, p as int, (cap - done) as int, den as int)
            == unit_terms(infra, k as int, den as int) + rest);
        let mut j: i32 = 0;
        while j < k
            invariant
                0 <= j <= k,
                1 <= den,
                den == max1(den_start - j),
                terms@ + unit_terms(infra, (k - j) as int, den as int) == t0 + unit_terms(infra, k as int, den_start),
            decreases k - j,
        {
            proof {
                lemma_unit_terms_step(infra, (k - j) as int, den as int);
            }
            terms.push(BoundTerm { base: 4000, infra, take: 1, den });
            den = if den - 1 >= 1 { den - 1 } else { 1 };
            j = j + 1;
            assert(terms@ + unit_terms(infra, (k - j) as int, den as int) =~= t0 + unit_terms(infra, k as int, den_start));
        }
        assert(unit_terms(infra, 0, den as int) =~= Seq::<BoundTerm>::empty());
        assert(terms@ =~= t0 + unit_terms(infra, k as int, den_start));
        done = done + k;
        p = p + 1;
        assert(terms@ + conv_terms(st@, ord@, p as int, (cap - done) as int, den as int)
            =~= t0 + conv_terms(st@, ord@, (p - 1) as int, (cap - done + k) as int, den_start));
    }
    assert(conv_terms(st@, ord@, p as int, (cap - done) as int, den as int) =~= Seq::<BoundTerm>::empty());
    done
}

/// Appends the build stage to `terms`; returns the units still missing.
fn push_builds(
    terms: &mut Vec<BoundTerm>,
    st: &State,
    nodes: &[NodeDesc],
    ord: &Vec<usize>,
    need: i32,
    base: u32,
    den: i32,
) -> (left: i32)
    requires
        forall|p: int| 0 <= p < ord@.len() ==> #[trigger] ord@[p] < st@.len() && ord@[p] < nodes@.len(),
        0 <= need,
        1 <= den,
    ensures
        final(terms)@ == old(terms)@ + build_terms(st@, nodes@, ord@, 0, need as int, base, den as int),
        left == build_left(st@, nodes@, ord@, 0, need as int),
{
    let mut left: i32 = need;
    let mut p: usize = 0;
    while p < ord.len()
        invariant
            forall|p: int| 0 <= p < ord@.len() ==> #[trigger] ord@[p] < st@.len() && ord@[p] < nodes@.len(),
            p <= ord@.len(),
            0 <= left,
            terms@ + build_terms(st@, nodes@, ord@, p as int, left as int, base, den as int)
                == old(terms)@ + build_terms(st@, nodes@, ord@, 0, need as int, base, den as int),
            build_left(st@, nodes@, ord@, p as int, left as int) == build_left(st@, nodes@, ord@, 0, need as int),
        ensures
            terms@ == old(terms)@ + build_terms(st@, nodes@, ord@, 0, need as int, base, den as int),
            left == build_left(st@, nodes@, ord@, 0, need as int),
        decreases ord@.len() - p,
    {
        let node = ord[p];
        let ns = st.0[node];
        let used = ns.civ as i32 + ns.mil as i32;
        let e = nodes[node].slots as i32 - used;
        let cap: i32 = if e > 0 { e } else { 0 };
        if left == 0 {
            assert(build_terms(st@, nodes@, ord@, p as int, left as int, base, den as int) =~= Seq::<BoundTerm>::empty());
            break;
        }
        if cap <= 0 {
            p = p + 1;
            continue;
        }
        let take = if cap <= left { cap } else { left };
        let ghost t0 = terms@;
        terms.push(BoundTerm { base, infra: ns.infra, take, den });
        left = left - take;
        p = p + 1;
        assert(terms@ + build_terms(st@, nodes@, ord@, p as int, left as int, base, den as int)
            =~= t0 + build_terms(st@, nodes@, ord@, (p - 1) as int, (left + take) as int, base, den as int));
    }
    left
}

/// The greedy upper bound, exactly as `upper_bound_spec` states it.
fn best_infra_upper_bound(st: &State, nodes: &[NodeDesc], target_type: TargetType, target: i32) -> (r: UpperBound)
    requires
        upper_inputs_fit(st@, nodes@, target_type, target),
    ensures
        r@ == upper_bound_spec(st@, nodes@, target_type, target as int),
{
    let n = if st.0.len() <= nodes.len() { st.0.len() } else { nodes.len() };
    let (civ, mil) = paired_totals(st, nodes);
    let need = remaining_of(civ, mil, target_type, target);
    if need == 0 {
        return UpperBound { terms: Vec::new(), complete: true };
    }
    let ord = infra_order_of(st, n);
    let civ_den: i32 = if civ >= 1 { civ } else { 1 };
    let mut terms: Vec<BoundTerm> = Vec::new();
    match target_type {
        TargetType::Military => {
            let cap = if need <= civ { need } else { civ };
            let done = push_conversions(&mut terms, st, &ord, cap, civ_den);
            let need2 = need - done;
            if need2 == 0 {
                assert(terms@ =~= conv_terms(st@, ord@, 0, cap as int, civ_den as int));
                return UpperBound { terms, complete: true };
            }
            let post: i32 = if civ - cap >= 1 { civ - cap } else { 1 };
            let left = push_builds(&mut terms, st, nodes, &ord, need2, 7200, post);
            assert(terms@ =~= conv_terms(st@, ord@, 0, cap as int, civ_den as int)
                + build_terms(st@, nodes@, ord@, 0, need2 as int, 7200, post as int));
            UpperBound { terms, complete: left == 0 }
        },
        TargetType::Civilian => {
            let left = push_builds(&mut terms, st, nodes, &ord, need, 10800, civ_den);
            assert(terms@ =~= build_terms(st@, nodes@, ord@, 0, need as int, 10800, civ_den as int));
            UpperBound { terms, complete: left == 0 }
        },
        TargetType::Factories => {
            let left = push_builds(&mut terms, st, nodes, &ord, need, 7200, civ_den);
            assert(terms@ =~= build_terms(st@, nodes@, ord@, 0, need as int, 7200, civ_den as int));
            UpperBound { terms, complete: left == 0 }
        },
    }
}

/// Best-case infrastructure with upper-bound civilians heuristic.
///
/// Its lower bound assumes every action gets the best multiplier and the
/// civilian denominator its upper bound; its upper bound follows a greedy
/// "convert then build" plan.
#[derive(Clone, Copy, Debug)]
pub struct BestInfraUpperBoundHeuristic;

impl BestInfraUpperBoundHeuristic {
    /// Optimistic lower bound on the remaining cost from `st`: every action at
    /// the best multiplier, the civilian count at its upper bound.
    pub fn lower_bound(&self, st: &State, nodes: &[NodeDesc], target_type: TargetType, target: i32) -> (r: LowerBound)
        requires
            bound_inputs_fit(st@, nodes@, target_type, target),
        ensures
            r == lower_bound_spec(st@, nodes@, target_type, target as int),
    {
        best_infra_lower_bound(st, nodes, target_type, target)
    }

    /// Upper bound on the remaining cost from `st`.
    pub fn upper_bound(&self, st: &State, nodes: &[NodeDesc], target_type: TargetType, target: i32) -> (r: UpperBound)
        requires
            upper_inputs_fit(st@, nodes@, target_type, target),
        ensures
            r@ == upper_bound_spec(st@, nodes@, target_type, target as int),
    {
        best_infra_upper_bound(st, nodes, target_type, target)
    }

    /// Name of this heuristic.
    pub fn name(&self) -> (r: &'static str)
        ensures
            r@ == "best_infra_upper_bound"@,
    {
        "best_infra_upper_bound"
    }
}

/// The zero heuristic: lower bound 0 and no upper bound, which turns A* into
/// Dijkstra's algorithm.
#[derive(Clone, Copy, Debug)]
pub struct ZeroHeuristic;

impl ZeroHeuristic {
    /// Always zero.
    pub fn lower_bound(&self, st: &State, nodes: &[NodeDesc], target_type: TargetType, target: i32) -> (r: LowerBound)
        ensures
            r == LowerBound::Zero,
    {
        LowerBound::Zero
    }

    /// Always unknown (infinite).
    pub fn upper_bound(&self, st: &State, nodes: &[NodeDesc], target_type: TargetType, target: i32) -> (r: UpperBound)
        ensures
            r@.0.len() == 0,
            !r@.1,
    {
        UpperBound { terms: Vec::new(), complete: false }
    }

    /// Name of this heuristic.
    pub fn name(&self) -> (r: &'static str)
        ensures
            r@ == "dijkstra"@,
    {
        "dijkstra"
    }
}

/// The heuristics this crate provides.
#[derive(Clone, Copy, Debug, PartialEq, Eq, Structural)]
pub enum HeuristicKind {
    BestInfraUpperBound,
    Zero,
}

impl HeuristicKind {
    /// The lower bound of the chosen heuristic.
    pub fn lower_bound(&self, st: &State, nodes: &[NodeDesc], target_type: TargetType, target: i32) -> (r: LowerBound)
        requires
            bound_inputs_fit(st@, nodes@, target_type, target),
        ensures
            r == (match *self {
                HeuristicKind::BestInfraUpperBound => lower_bound_spec(st@, nodes@, target_type, target as int),
                HeuristicKind::Zero => LowerBound::Zero,
            }),
    {
        match self {
            HeuristicKind::BestInfraUpperBound => BestInfraUpperBoundHeuristic.lower_bound(st, nodes, target_type, target),
            HeuristicKind::Zero => ZeroHeuristic.lower_bound(st, nodes, target_type, target),
        }
    }

    /// The upper bound of the chosen heuristic.
    pub fn upper_bound(&self, st: &State, nodes: &[NodeDesc], target_type: TargetType, target: i32) -> (r: UpperBound)
        requires
            upper_inputs_fit(st@, nodes@, target_type, target),
        ensures
            r@ == (match *self {
                HeuristicKind::BestInfraUpperBound => upper_bound_spec(st@, nodes@, target_type, target as int),
                HeuristicKind::Zero => (Seq::<BoundTerm>::empty(), false),
            }),
    {
        match self {
            HeuristicKind::BestInfraUpperBound => BestInfraUpperBoundHeuristic.upper_bound(st, nodes, target_type, target),
            HeuristicKind::Zero => {
                let r = ZeroHeuristic.upper_bound(st, nodes, target_type, target);
                assert(r@.0 =~= Seq::<BoundTerm>::empty());
                r
            },
        }
    }

    /// Name of the chosen heuristic.
    pub fn name(&self) -> (r: &'static str)
        ensures
            r@ == (match *self {
                HeuristicKind::BestInfraUpperBound => "best_infra_upper_bound"@,
                HeuristicKind::Zero => "dijkstra"@,
            }),
    {
        match self {
            HeuristicKind::BestInfraUpperBound => BestInfraUpperBoundHeuristic.name(),
            HeuristicKind::Zero => ZeroHeuristic.name(),
        }
    }
}

/// What `str::to_lowercase` gives for a string: its Unicode lowercase mapping.
pub uninterp spec fn lowercase(s: Seq<char>) -> Seq<char>;

/// Whether every character of `s` is ASCII.
pub open spec fn all_ascii(s: Seq<char>) -> bool {
    forall|i: int| 0 <= i < s.len() ==> (#[trigger] s[i] as u32) < 128
}

/// A character with 'A'..='Z' mapped to 'a'..='z'.
pub open spec fn ascii_lower_char(c: char) -> char {
    if 65 <= (c as u32) <= 90 {
        ((c as u32) + 32) as char
    } else {
        c
    }
}

/// `s` with its ASCII capitals made lowercase.
pub open spec fn ascii_lowercase(s: Seq<char>) -> Seq<char> {
    s.map_values(|c: char| ascii_lower_char(c))
}

/// `str::to_lowercase`: the lowercase mapping of `s`. On ASCII input, as its
/// documentation says, it maps 'A'..='Z' to 'a'..='z' and keeps every other
/// character.
#[verifier::external_body]
pub(crate) fn to_lowercase(s: &str) -> (r: String)
    ensures
        r@ == lowercase(s@),
        all_ascii(s@) ==> r@ == ascii_lowercase(s@),
{
    s.to_lowercase()
}

/// The canonical name for an already lowercased heuristic name:
/// "best_infra_upper_bound" or its alias "standard", "dijkstra" or its alias "zero".
pub open spec fn canonical_of(lower: Seq<char>) -> Option<Seq<char>> {
    if lower == "best_infra_upper_bound"@ || lower == "standard"@ {
        Some("best_infra_upper_bound"@)
    } else if lower == "dijkstra"@ || lower == "zero"@ {
        Some("dijkstra"@)
    } else {
        None
    }
}

/// Map a lowercased name (aliases included) to its canonical name.
pub fn canonical_name_of_lowercase(lower: &String) -> (r: Option<&'static str>)
    ensures
        match r {
            Some(n) => canonical_of(lower@) == Some(n@),
            None => canonical_of(lower@) is None,
        },
{
    let best = String::from_str("best_infra_upper_bound");
    let standard = String::from_str("standard");
    let dijkstra = String::from_str("dijkstra");
    let zero = String::from_str("zero");
    if *lower == best || *lower == standard {
        Some("best_infra_upper_bound")
    } else if *lower == dijkstra || *lower == zero {
        Some("dijkstra")
    } else {
        None
    }
}

/// Map an input name (aliases included, any case) to its canonical name.
pub fn canonical_name(input: &str) -> (r: Option<&'static str>)
    ensures
        match r {
            Some(n) => canonical_of(lowercase(input@)) == Some(n@),
            None => canonical_of(lowercase(input@)) is None,
        },
        all_ascii(input@) ==> lowercase(input@) == ascii_lowercase(input@),
{
    let lower = to_lowercase(input);
    canonical_name_of_lowercase(&lower)
}

/// The canonical heuristic names.
pub fn list_names() -> (r: Vec<&'static str>)
    ensures
        r@.len() == 2,
        r@[0]@ == "best_infra_upper_bound"@,
        r@[1]@ == "dijkstra"@,
{
    vec!["best_infra_upper_bound", "dijkstra"]
}

/// The views of `names` joined by `sep`.
pub open spec fn joined(names: Seq<&'static str>, sep: Seq<char>) -> Seq<char>
    decreases names.len(),
{
    if names.len() == 0 {
        Seq::empty()
    } else if names.len() == 1 {
        names[0]@
    } else {
        joined(names.drop_last(), sep) + sep + names.last()@
    }
}

/// The error text for an unknown heuristic name.
pub open spec fn unknown_heuristic_message(name: Seq<char>) -> Seq<char> {
    "Unknown heuristic: "@ + name + ". Available: "@ + "best_infra_upper_bound"@ + ", "@ + "dijkstra"@
}

/// Create a heuristic by name; an unknown name gives an error listing the known ones.
pub fn create_by_name(name: &str) -> (r: Result<HeuristicKind, String>)
    ensures
        match r {
            Ok(k) => (canonical_of(lowercase(name@)) == Some("best_infra_upper_bound"@) && k == HeuristicKind::BestInfraUpperBound)
                || (canonical_of(lowercase(name@)) == Some("dijkstra"@) && k == HeuristicKind::Zero),
            Err(msg) => canonical_of(lowercase(name@)) is None && msg@ == unknown_heuristic_message(name@),
        },
        all_ascii(name@) ==> lowercase(name@) == ascii_lowercase(name@),
{
    proof {
        reveal_strlit("best_infra_upper_bound");
        reveal_strlit("dijkstra");
    }
    match canonical_name(name) {
        Some(c) => {
            let cs = String::from_str(c);
            let best = String::from_str("best_infra_upper_bound");
            if cs == best {
                Ok(HeuristicKind::BestInfraUpperBound)
            } else {
                Ok(HeuristicKind::Zero)
            }
        },
        None => {
            let names = list_names();
            let mut msg = String::from_str("Unknown heuristic: ");
            msg.append(name);
            msg.append(". Available: ");
            let mut i: usize = 0;
            while i < names.len()
                invariant
                    i <= names@.len(),
                    names@.len() == 2,
                    names@[0]@ == "best_infra_upper_bound"@,
                    names@[1]@ == "dijkstra"@,
                    msg@ == "Unknown heuristic: "@ + name@ + ". Available: "@ + joined(names@.take(i as int), ", "@),
                decreases names@.len() - i,
            {
                let ghost before = msg@;
                if i > 0 {
                    msg.append(", ");
                }
                msg.append(names[i]);
                proof {
                    let t = names@.take(i + 1);
                    assert(t.drop_last() =~= names@.take(i as int));
                    if i == 0 {
                        assert(joined(names@.take(0), ", "@) =~= Seq::<char>::empty());
                    }
                }
                i = i + 1;
                assert(msg@ =~= "Unknown heuristic: "@ + name@ + ". Available: "@ + joined(names@.take(i as int), ", "@));
            }
            proof {
                assert(names@.take(2) =~= names@);
                assert(names@.take(1).drop_last() =~= names@.take(0));
                let d = names@.drop_last();
                assert(d.len() == 1 && d[0] == names@[0]);
                assert(joined(d, ", "@) == names@[0]@);
                assert(joined(names@, ", "@) =~= "best_infra_upper_bound"@ + ", "@ + "dijkstra"@);
                assert(msg@ =~= unknown_heuristic_message(name@));
            }
            Err(msg)
        },
    }
}

} // verus!

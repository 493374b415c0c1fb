//! The build-planning domain: nodes with factory slots, the joint state of all
//! nodes, the four actions, the goal test and successor generation.
use smallvec::SmallVec;
use vstd::prelude::*;

verus! {

/// Static descriptor of a node: its number of factory slots.
#[derive(Clone, Copy, Debug, PartialEq, Eq, Hash, Structural)]
pub struct NodeDesc {
    pub slots: u8,
}

/// Per-node dynamic state: infrastructure level and factory counts.
#[derive(Clone, Copy, Debug, PartialEq, Eq, Hash, Default, Structural)]
pub struct NodeState {
    pub infra: u8,
    pub civ: u8,
    pub mil: u8,
}

/// Joint state across all nodes, in node order.
#[derive(Clone, Debug, PartialEq, Eq, Hash, Default)]
pub struct State(pub Vec<NodeState>);

impl View for State {
    type V = Seq<NodeState>;

    open spec fn view(&self) -> Seq<NodeState> {
        self.0@
    }
}

impl State {
    /// A copy of this state.
    pub fn duplicate(&self) -> (r: State)
        ensures
            r@ == self@,
    {
        let mut v: Vec<NodeState> = Vec::with_capacity(self.0.len());
        let mut i: usize = 0;
        while i < self.0.len()
            invariant
                i <= self.0@.len(),
                v@ == self.0@.take(i as int),
            decreases self.0@.len() - i,
        {
            v.push(self.0[i]);
            i = i + 1;
            assert(v@ =~= self.0@.take(i as int));
        }
        assert(self.0@.take(i as int) =~= self.0@);
        State(v)
    }
}

/// What the goal counts.
#[derive(Clone, Copy, Debug, PartialEq, Eq, Structural)]
pub enum TargetType {
    Military,
    Civilian,
    /// Military and civilian factories together.
    Factories,
}

/// The four actions that change one node.
#[derive(Clone, Copy, Debug, PartialEq, Eq, Hash, Structural)]
pub enum Action {
    Civilian,
    Military,
    Infra,
    Convert,
}

impl Action {
    /// The action's label: "civilian", "military", "infra" or "convert".
    pub fn label(self) -> (r: &'static str)
        ensures
            r@ == label_of(self)@,
    {
        match self {
            Action::Civilian => "civilian",
            Action::Military => "military",
            Action::Infra => "infra",
            Action::Convert => "convert",
        }
    }

    /// Base cost of the action, before dividing by the infrastructure
    /// multiplier and the civilian count.
    pub fn base_cost(self) -> (r: u32)
        ensures
            r == base_cost_spec(self),
    {
        match self {
            Action::Civilian => 10800,
            Action::Military => 7200,
            Action::Infra => 6000,
            Action::Convert => 4000,
        }
    }
}

pub open spec fn label_of(a: Action) -> &'static str {
    match a {
        Action::Civilian => "civilian",
        Action::Military => "military",
        Action::Infra => "infra",
        Action::Convert => "convert",
    }
}

pub open spec fn base_cost_spec(a: Action) -> int {
    match a {
        Action::Civilian => 10800,
        Action::Military => 7200,
        Action::Infra => 6000,
        Action::Convert => 4000,
    }
}

/// Sum of civilian factories over the nodes.
pub open spec fn sum_civ(s: Seq<NodeState>) -> int
    decreases s.len(),
{
    if s.len() == 0 {
        0
    } else {
        sum_civ(s.drop_last()) + s.last().civ
    }
}

/// Sum of military factories over the nodes.
pub open spec fn sum_mil(s: Seq<NodeState>) -> int
    decreases s.len(),
{
    if s.len() == 0 {
        0
    } else {
        sum_mil(s.drop_last()) + s.last().mil
    }
}

/// The quantity the goal of `target_type` counts in `s`.
pub open spec fn target_count(s: Seq<NodeState>, target_type: TargetType) -> int {
    match target_type {
        TargetType::Military => sum_mil(s),
        TargetType::Civilian => sum_civ(s),
        TargetType::Factories => sum_mil(s) + sum_civ(s),
    }
}

pub proof fn lemma_sums_nonneg(s: Seq<NodeState>)
    ensures
        sum_civ(s) >= 0,
        sum_mil(s) >= 0,
    decreases s.len(),
{
    if s.len() > 0 {
        lemma_sums_nonneg(s.drop_last());
    }
}

/// Sums over a prefix never exceed the sums over the whole sequence.
pub proof fn lemma_prefix_sums_le(s: Seq<NodeState>, i: int)
    requires
        0 <= i <= s.len(),
    ensures
        sum_civ(s.take(i)) <= sum_civ(s),
        sum_mil(s.take(i)) <= sum_mil(s),
        sum_civ(s.take(i)) >= 0,
        sum_mil(s.take(i)) >= 0,
    decreases s.len() - i,
{
    lemma_sums_nonneg(s.take(i));
    if i < s.len() {
        lemma_prefix_sums_le(s, i + 1);
        assert(s.take(i + 1).drop_last() =~= s.take(i));
    } else {
        assert(s.take(i) =~= s);
    }
}

/// Return true if a joint state meets the goal: the counted total reaches `target`.
///
/// Only the counted kind is summed (military, civilian, or both for a
/// factories target), so only that sum has to fit its `i32` counter.
pub fn is_terminal(st: &State, target_type: TargetType, target: i32) -> (r: bool)
    requires
        target_count(st@, target_type) <= i32::MAX,
    ensures
        r == (target_count(st@, target_type) >= target),
{
    let mut total: i32 = 0;
    let mut i: usize = 0;
    while i < st.0.len()
        invariant
            i <= st@.len(),
            target_count(st@, target_type) <= i32::MAX,
            total == target_count(st@.take(i as int), target_type),
        decreases st@.len() - i,
    {
        proof {
            lemma_prefix_sums_le(st@, i + 1);
            lemma_sums_nonneg(st@.take(i as int));
            assert(st@.take(i + 1).drop_last() =~= st@.take(i as int));
        }
        let ns = st.0[i];
        let add: i32 = match target_type {
            TargetType::Military => ns.mil as i32,
            TargetType::Civilian => ns.civ as i32,
            TargetType::Factories => ns.mil as i32 + ns.civ as i32,
        };
        total = total + add;
        i = i + 1;
    }
    assert(st@.take(i as int) =~= st@);
    total >= target
}

/// Whether action `a` is feasible on a node in state `ns` with descriptor `nd`.
pub open spec fn action_allowed(ns: NodeState, nd: NodeDesc, a: Action) -> bool {
    match a {
        Action::Civilian => ns.civ + ns.mil < nd.slots,
        Action::Military => ns.civ + ns.mil < nd.slots,
        Action::Infra => ns.infra < 5,
        Action::Convert => ns.civ >= 1,
    }
}

/// The node state after action `a`.
pub open spec fn apply_action(ns: NodeState, a: Action) -> NodeState {
    match a {
        Action::Civilian => NodeState { civ: (ns.civ + 1) as u8, ..ns },
        Action::Military => NodeState { mil: (ns.mil + 1) as u8, ..ns },
        Action::Infra => NodeState { infra: (ns.infra + 1) as u8, ..ns },
        Action::Convert => NodeState { civ: (ns.civ - 1) as u8, mil: (ns.mil + 1) as u8, ..ns },
    }
}

/// The civilian denominator of step costs: the civilian total, at least 1.
pub open spec fn civ_denominator(s: Seq<NodeState>) -> int {
    if sum_civ(s) > 1 {
        sum_civ(s)
    } else {
        1
    }
}

/// The infrastructure multiplier `1 + 2k/10` of level `k`, times 10.
pub open spec fn infra_mult_tenths(infra: int) -> int {
    10 + 2 * infra
}

/// A successor as a value: the node acted on, the action, the next joint state,
/// and the two quantities its step cost is divided by (the node's infrastructure
/// level before the action, and the civilian denominator).
pub struct SuccessorView {
    pub node_index: usize,
    pub action: Action,
    pub next_state: Seq<NodeState>,
    pub infra: u8,
    pub civ_den: i32,
}

pub open spec fn successor_of(st: Seq<NodeState>, i: int, a: Action) -> SuccessorView {
    SuccessorView {
        node_index: i as usize,
        action: a,
        next_state: st.update(i, apply_action(st[i], a)),
        infra: st[i].infra,
        civ_den: civ_denominator(st) as i32,
    }
}

/// A one-element sequence when `c` holds, else an empty one.
pub open spec fn present_if<A>(c: bool, x: A) -> Seq<A> {
    if c {
        seq![x]
    } else {
        Seq::empty()
    }
}

/// The successors through node `i`, in action order civilian, military, infra, convert.
pub open spec fn node_successors(st: Seq<NodeState>, nodes: Seq<NodeDesc>, i: int) -> Seq<SuccessorView> {
    present_if(action_allowed(st[i], nodes[i], Action::Civilian), successor_of(st, i, Action::Civilian))
        + present_if(action_allowed(st[i], nodes[i], Action::Military), successor_of(st, i, Action::Military))
        + present_if(action_allowed(st[i], nodes[i], Action::Infra), successor_of(st, i, Action::Infra))
        + present_if(action_allowed(st[i], nodes[i], Action::Convert), successor_of(st, i, Action::Convert))
}

/// The successors through the first `n` nodes, node by node.
pub open spec fn successors_upto(st: Seq<NodeState>, nodes: Seq<NodeDesc>, n: int) -> Seq<SuccessorView>
    decreases n,
{
    if n <= 0 {
        Seq::empty()
    } else {
        successors_upto(st, nodes, n - 1) + node_successors(st, nodes, n - 1)
    }
}

/// All feasible successors of `st`, node by node.
pub open spec fn successors_spec(st: Seq<NodeState>, nodes: Seq<NodeDesc>) -> Seq<SuccessorView> {
    successors_upto(st, nodes, st.len() as int)
}

/// No node holds more than 255 factories in all, so `civ + mil` fits a `u8`.
pub open spec fn node_sums_fit(s: Seq<NodeState>) -> bool {
    forall|i: int| 0 <= i < s.len() ==> #[trigger] s[i].civ + s[i].mil <= 255
}

/// Information about a successor state generated from an action.
pub struct Successor {
    /// Index of the node that was acted upon.
    pub node_index: usize,
    /// The action taken.
    pub action: Action,
    /// The state after the action.
    pub next_state: State,
    /// Infrastructure level of the node before the action.
    pub infra: u8,
    /// Civilian total of the state before the action, at least 1.
    pub civ_den: i32,
}

impl View for Successor {
    type V = SuccessorView;

    open spec fn view(&self) -> SuccessorView {
        SuccessorView {
            node_index: self.node_index,
            action: self.action,
            next_state: self.next_state@,
            infra: self.infra,
            civ_den: self.civ_den,
        }
    }
}

/// How a state was reached: the action and what its step cost is divided by.
pub struct TransitionInfo {
    pub action: Action,
    pub infra: u8,
    pub civ_den: i32,
}

/// The successors of one node, gathered in a small inline buffer before
/// they join the full list.
///
/// The buffer is held in a field that Verus does not look into; what it holds
/// is named by `node_buffer_items`, and the functions below that call its
/// methods state what each call does to it.
#[verifier::external_body]
pub struct NodeSuccessors {
    buf: SmallVec<[Successor; 4]>,
}

/// What a node buffer holds, in order, each successor by its view.
pub uninterp spec fn node_buffer_items(b: NodeSuccessors) -> Seq<SuccessorView>;

/// `SmallVec::new`: an empty buffer.
#[verifier::external_body]
fn node_buffer_new() -> (b: NodeSuccessors)
    ensures
        node_buffer_items(b) =~= Seq::<SuccessorView>::empty(),
{
    NodeSuccessors { buf: SmallVec::new() }
}

/// `SmallVec::push`: appends `s` at the end. The buffer holds at most three
/// items before the call, which stays within its inline capacity of four.
#[verifier::external_body]
fn node_buffer_push(b: &mut NodeSuccessors, s: Successor)
    requires
        node_buffer_items(*old(b)).len() <= 3,
    ensures
        node_buffer_items(*final(b)) == node_buffer_items(*old(b)).push(s@),
{
    b.buf.push(s);
}

/// `SmallVec::into_vec`: the buffer's items as a `Vec`, in the same order.
#[verifier::external_body]
fn node_buffer_into_vec(b: NodeSuccessors) -> (v: Vec<Successor>)
    ensures
        v@.len() == node_buffer_items(b).len(),
        forall|k: int| 0 <= k < v@.len() ==> #[trigger] v@[k]@ == node_buffer_items(b)[k],
{
    b.buf.into_vec()
}

/// Pushes the successor for action `a` on node `i` when it is feasible.
fn push_if_allowed(
    out: &mut NodeSuccessors,
    st: &State,
    nodes: &[NodeDesc],
    i: usize,
    a: Action,
    civ_den: i32,
)
    requires
        i < st@.len(),
        i < nodes@.len(),
        node_sums_fit(st@),
        civ_den == civ_denominator(st@),
        node_buffer_items(*old(out)).len() <= 3,
    ensures
        node_buffer_items(*final(out)) == node_buffer_items(*old(out)) + present_if(
            action_allowed(st@[i as int], nodes@[i as int], a),
            successor_of(st@, i as int, a),
        ),
{
    let ns = st.0[i];
    let nd = nodes[i];
    assert(ns.civ + ns.mil <= 255);
    let allowed = match a {
        Action::Civilian => ns.civ + ns.mil < nd.slots,
        Action::Military => ns.civ + ns.mil < nd.slots,
        Action::Infra => ns.infra < 5,
        Action::Convert => ns.civ >= 1,
    };
    if allowed {
        let mut next = st.duplicate();
        let changed = match a {
            Action::Civilian => NodeState { civ: ns.civ + 1, ..ns },
            Action::Military => NodeState { mil: ns.mil + 1, ..ns },
            Action::Infra => NodeState { infra: ns.infra + 1, ..ns },
            Action::Convert => NodeState { civ: ns.civ - 1, mil: ns.mil + 1, ..ns },
        };
        next.0.set(i, changed);
        let succ = Successor { node_index: i, action: a, next_state: next, infra: ns.infra, civ_den };
        assert(succ@ == successor_of(st@, i as int, a)) by {
            assert(succ@.next_state =~= successor_of(st@, i as int, a).next_state);
        };
        node_buffer_push(out, succ);
        assert(node_buffer_items(*out) =~= node_buffer_items(*old(out)) + seq![successor_of(st@, i as int, a)]);
    } else {
        assert(node_buffer_items(*out) =~= node_buffer_items(*old(out)) + Seq::<SuccessorView>::empty());
    }
}

/// Generate the feasible successors of a state, node by node; for each node in
/// the order civilian, military, infra, convert.
pub fn iter_successors(st: &State, nodes: &[NodeDesc]) -> (r: Vec<Successor>)
    requires
        st@.len() <= nodes@.len(),
        sum_civ(st@) <= i32::MAX,
        node_sums_fit(st@),
    ensures
        r@.len() == successors_spec(st@, nodes@).len(),
        forall|k: int| 0 <= k < r@.len() ==> #[trigger] r@[k]@ == successors_spec(st@, nodes@)[k],
{
    let mut sum: i32 = 0;
    let mut i: usize = 0;
    while i < st.0.len()
        invariant
            i <= st@.len(),
            sum_civ(st@) <= i32::MAX,
            sum == sum_civ(st@.take(i as int)),
        decreases st@.len() - i,
    {
        proof {
            lemma_prefix_sums_le(st@, i + 1);
            lemma_sums_nonneg(st@);
            assert(st@.take(i + 1).drop_last() =~= st@.take(i as int));
        }
        sum = sum + st.0[i].civ as i32;
        i = i + 1;
    }
    assert(st@.take(i as int) =~= st@);
    let civ_den: i32 = if sum > 1 { sum } else { 1 };
    let mut out: Vec<Successor> = Vec::new();
    let mut n: usize = 0;
    while n < st.0.len()
        invariant
            n <= st@.len(),
            st@.len() <= nodes@.len(),
            node_sums_fit(st@),
            civ_den == civ_denominator(st@),
            out@.len() == successors_upto(st@, nodes@, n as int).len(),
            forall|k: int| 0 <= k < out@.len() ==> #[trigger] out@[k]@ == successors_upto(st@, nodes@, n as int)[k],
        decreases st@.len() - n,
    {
        let mut buf = node_buffer_new();
        push_if_allowed(&mut buf, st, nodes, n, Action::Civilian, civ_den);
        push_if_allowed(&mut buf, st, nodes, n, Action::Military, civ_den);
        push_if_allowed(&mut buf, st, nodes, n, Action::Infra, civ_den);
        push_if_allowed(&mut buf, st, nodes, n, Action::Convert, civ_den);
        let ghost block = node_buffer_items(buf);
        proof {
            let c1 = present_if(action_allowed(st@[n as int], nodes@[n as int], Action::Civilian), successor_of(st@, n as int, Action::Civilian));
            let c2 = present_if(action_allowed(st@[n as int], nodes@[n as int], Action::Military), successor_of(st@, n as int, Action::Military));
            let c3 = present_if(action_allowed(st@[n as int], nodes@[n as int], Action::Infra), successor_of(st@, n as int, Action::Infra));
            let c4 = present_if(action_allowed(st@[n as int], nodes@[n as int], Action::Convert), successor_of(st@, n as int, Action::Convert));
            assert(block =~= c1 + c2 + c3 + c4);
            assert(block == node_successors(st@, nodes@, n as int));
        }
        let mut more = node_buffer_into_vec(buf);
        let ghost before = out@;
        let ghost moved = more@;
        out.append(&mut more);
        proof {
            let prev = successors_upto(st@, nodes@, n as int);
            assert(successors_upto(st@, nodes@, n + 1) == prev + block);
            assert forall|k: int| 0 <= k < out@.len() implies #[trigger] out@[k]@ == (prev + block)[k] by {
                if k >= prev.len() {
                    assert(out@[k] == moved[k - before.len()]);
                } else {
                    assert(out@[k] == before[k]);
                }
            };
        }
        n = n + 1;
    }
    out
}

} // verus!

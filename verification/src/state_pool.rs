//! Dense, reference-counted storage of search states with stable indices and an
//! indexed open set.
//!
//! Each state gets a stable index that stays valid until its reference count
//! reaches zero; freed indices are reused, last freed first. References come
//! from handles, from membership in the open set, and from children whose
//! parent the state is. Costs are `u64` keys: the pool only compares them.
use crate::domain::{NodeState, State};
use crate::heap_growth::{
    drain_open, grow_heap_if_needed, lists_entries, open_decrease_key, open_entries,
    open_index_bound, open_key_of, open_len, open_pop, open_push, open_snapshot, open_with_index_bound,
    OpenHeap,
};
use crate::non_max_usize::NonMaxUsize;
use std::collections::HashMap;
use std::collections::HashSet;
use vstd::prelude::*;

verus! {

broadcast use vstd::std_specs::hash::group_hash_axioms;

/// The key of a cost that is not known: above every finite cost key.
pub const COST_INFINITY: u64 = 0xFFF0_0000_0000_0000u64;

/// The key of a zero cost.
pub const COST_ZERO: u64 = 0x8000_0000_0000_0000u64;

/// A key of a cost that is a number and not negative: from the key of zero up
/// to the key of an unknown (infinite) cost. Keys below stand for negative
/// costs, keys above for costs that are not numbers.
pub open spec fn valid_cost_key(k: u64) -> bool {
    COST_ZERO <= k <= COST_INFINITY
}

/// The map from a state's factory layout to its stable index.
///
/// The map is held in a field that Verus does not look into; what it holds is
/// named by `state_index_entries`, and the functions below that call its
/// methods state what each call does to it.
#[verifier::external_body]
pub struct StateIndex {
    map: HashMap<State, usize, rapidhash::fast::RandomState>,
}

/// What the state index holds: the layout of each state present, mapped to its index.
pub uninterp spec fn state_index_entries(m: StateIndex) -> Map<Seq<NodeState>, usize>;

/// `HashMap::with_hasher` with rapidhash's `RandomState::new()`: an empty map.
#[verifier::external_body]
fn index_new() -> (m: StateIndex)
    ensures
        state_index_entries(m).dom() =~= Set::<Seq<NodeState>>::empty(),
{
    StateIndex { map: HashMap::with_hasher(rapidhash::fast::RandomState::new()) }
}

/// `HashMap::get`: the index stored for a state equal to `s`, if any.
/// `State`'s derived `Eq` and `Hash` compare and hash the node sequence.
#[verifier::external_body]
fn index_get(m: &StateIndex, s: &State) -> (r: Option<usize>)
    ensures
        r == state_index_entries(*m).get(s@),
{
    m.map.get(s).copied()
}

/// `HashMap::insert`: maps `s` to `i`, replacing any earlier index.
#[verifier::external_body]
fn index_insert(m: &mut StateIndex, s: State, i: usize)
    ensures
        state_index_entries(*final(m)) == state_index_entries(*old(m)).insert(s@, i),
{
    m.map.insert(s, i);
}

/// `HashMap::remove`: removes the entry of a state equal to `s`, if any.
#[verifier::external_body]
fn index_remove(m: &mut StateIndex, s: &State)
    ensures
        state_index_entries(*final(m)) == state_index_entries(*old(m)).remove(s@),
{
    m.map.remove(s);
}

/// A finite set of indices all below `n` has at most `n` members.
pub proof fn lemma_bounded_set_len(s: Set<usize>, n: usize)
    requires
        s.finite(),
        forall|i: usize| #[trigger] s.contains(i) ==> i < n,
    ensures
        s.len() <= n,
    decreases n,
{
    if n == 0 {
        if s.len() > 0 {
            let x = s.choose();
            assert(s.contains(x));
        }
    } else {
        let t = s.remove((n - 1) as usize);
        assert forall|i: usize| #[trigger] t.contains(i) implies i < (n - 1) as usize by {
            assert(s.contains(i));
        };
        lemma_bounded_set_len(t, (n - 1) as usize);
    }
}

/// One slot of the pool as a value.
pub struct SlotView<T> {
    pub state: Seq<NodeState>,
    pub refs: nat,
    pub cost: u64,
    pub parent: Option<usize>,
    pub component: Option<usize>,
    pub transition: Option<T>,
}

/// The pool as a value: its slots, the state index, the free list (last entry
/// reused first), the open set with its index bound, and the highest reference
/// count any slot has reached.
pub struct PoolModel<T> {
    pub slots: Seq<SlotView<T>>,
    pub index: Map<Seq<NodeState>, usize>,
    pub free: Seq<usize>,
    pub open: Map<usize, u64>,
    pub bound: nat,
    pub peak: nat,
}

/// A freshly appended slot.
pub open spec fn fresh_slot<T>() -> SlotView<T> {
    SlotView {
        state: Seq::empty(),
        refs: 0,
        cost: COST_INFINITY,
        parent: None,
        component: None,
        transition: None,
    }
}

/// The heap bound after doubling `b` until it exceeds `idx`.
pub open spec fn grown_bound(b: nat, idx: nat) -> nat
    decreases (if b > idx { 0 } else { idx + 1 - b }),
{
    if b == 0 || b > idx {
        b
    } else {
        grown_bound(b * 2, idx)
    }
}

impl<T> PoolModel<T> {
    /// Every index on the free list, in the state index and in the open set is a slot.
    pub open spec fn consistent(self) -> bool {
        &&& forall|j: int| 0 <= j < self.free.len() ==> #[trigger] self.free[j] < self.slots.len()
        &&& forall|k: Seq<NodeState>| #[trigger] self.index.dom().contains(k) ==> self.index[k] < self.slots.len()
        &&& forall|i: usize| #[trigger] self.open.dom().contains(i) ==> i < self.slots.len()
    }

    /// The open set's, the free list's and the index's bookkeeping: every
    /// member of the open set is a slot with a reference, and the index maps
    /// its state to it; the free list holds distinct slots without references
    /// or parent, none of them in the open set; the index maps each state to a
    /// slot that holds it and is not on the free list.
    pub open spec fn accounted(self) -> bool {
        &&& forall|i: usize| #[trigger] self.open.dom().contains(i) ==> {
            &&& i < self.slots.len()
            &&& self.slots[i as int].refs > 0
            &&& self.index.dom().contains(self.slots[i as int].state)
            &&& self.index[self.slots[i as int].state] == i
        }
        &&& forall|j: int| 0 <= j < self.free.len() ==> {
            &&& #[trigger] self.free[j] < self.slots.len()
            &&& self.slots[self.free[j] as int].refs == 0
            &&& self.slots[self.free[j] as int].parent is None
            &&& !self.open.dom().contains(self.free[j])
        }
        &&& forall|j: int, l: int| 0 <= j < l < self.free.len() ==> #[trigger] self.free[j] != #[trigger] self.free[l]
        &&& forall|k: Seq<NodeState>| #[trigger] self.index.dom().contains(k) ==> {
            &&& self.index[k] < self.slots.len()
            &&& self.slots[self.index[k] as int].state == k
            &&& forall|j: int| 0 <= j < self.free.len() ==> #[trigger] self.free[j] != self.index[k]
        }
    }

    /// One more reference to slot `idx`; out-of-range indices change nothing.
    pub open spec fn increment(self, idx: int) -> Self {
        if 0 <= idx < self.slots.len() {
            let r = self.slots[idx].refs + 1;
            PoolModel {
                slots: self.slots.update(idx, SlotView { refs: r, ..self.slots[idx] }),
                peak: if r > self.peak { r } else { self.peak },
                ..self
            }
        } else {
            self
        }
    }

    /// One reference fewer to slot `idx`. When the count goes from one to zero
    /// the slot is freed: its state leaves the index, its metadata is cleared
    /// and the index goes on the free list. A count already at zero, and an
    /// out-of-range index, change nothing.
    pub open spec fn decrement(self, idx: int) -> Self {
        if 0 <= idx < self.slots.len() && self.slots[idx].refs > 0 {
            let s = self.slots[idx];
            if s.refs == 1 {
                PoolModel {
                    slots: self.slots.update(
                        idx,
                        SlotView {
                            refs: 0,
                            cost: COST_INFINITY,
                            parent: None,
                            component: None,
                            transition: None,
                            ..s
                        },
                    ),
                    index: self.index.remove(s.state),
                    free: self.free.push(idx as usize),
                    ..self
                }
            } else {
                PoolModel { slots: self.slots.update(idx, SlotView { refs: (s.refs - 1) as nat, ..s }), ..self }
            }
        } else {
            self
        }
    }

    /// The slot a new state gets: the last freed one, reset to no references and
    /// unknown cost, or else a fresh slot appended at the end.
    pub open spec fn allocated(self) -> (Self, usize) {
        if self.free.len() > 0 {
            let idx = self.free.last();
            (
                PoolModel {
                    slots: self.slots.update(idx as int, SlotView { refs: 0, cost: COST_INFINITY, ..self.slots[idx as int] }),
                    free: self.free.drop_last(),
                    ..self
                },
                idx,
            )
        } else {
            (PoolModel { slots: self.slots.push(fresh_slot()), ..self }, self.slots.len() as usize)
        }
    }

    /// Stores state `s` at slot `i` and maps `s` to `i` in the index.
    pub open spec fn placed(self, i: int, s: Seq<NodeState>) -> Self {
        PoolModel {
            slots: self.slots.update(i, SlotView { state: s, ..self.slots[i] }),
            index: self.index.insert(s, i as usize),
            ..self
        }
    }

    /// Inserting state `s`: allocate a slot and place `s` there.
    pub open spec fn inserted(self, s: Seq<NodeState>) -> (Self, usize) {
        let (m, i) = self.allocated();
        (m.placed(i as int, s), i)
    }

    /// Sets the cost of slot `i`.
    pub open spec fn with_cost(self, i: int, cost: u64) -> Self {
        PoolModel { slots: self.slots.update(i, SlotView { cost: cost, ..self.slots[i] }), ..self }
    }

    /// Records a path of cost `cost` to state `s`: a known state takes it only
    /// when it is lower than its best cost; an unknown state is inserted with it.
    /// Returns the index when the pool changed.
    pub open spec fn best_cost_updated(self, s: Seq<NodeState>, cost: u64) -> (Self, Option<usize>) {
        if self.index.dom().contains(s) {
            let i = self.index[s];
            if cost < self.slots[i as int].cost {
                (self.with_cost(i as int, cost), Some(i))
            } else {
                (self, None)
            }
        } else {
            let (m, i) = self.inserted(s);
            (m.with_cost(i as int, cost), Some(i))
        }
    }

    /// Links `child` to `parent`: the old parent loses the child's reference,
    /// the new one gains it; component and transition are replaced.
    pub open spec fn relinked(
        self,
        child: int,
        parent: Option<usize>,
        component: usize,
        transition: Option<T>,
    ) -> Self {
        let m1 = match self.slots[child].parent {
            Some(op) => self.decrement(op as int),
            None => self,
        };
        let m2 = match parent {
            Some(p) => m1.increment(p as int),
            None => m1,
        };
        PoolModel {
            slots: m2.slots.update(
                child,
                SlotView { parent: parent, component: Some(component), transition: transition, ..m2.slots[child] },
            ),
            ..m2
        }
    }

    /// The heap bound made large enough for index `idx`.
    pub open spec fn bound_for(self, idx: int) -> Self {
        PoolModel { bound: grown_bound(self.bound, idx as nat), ..self }
    }

    /// Pushing slot `idx` into the open set with key `key`: the bound grows to
    /// cover it, the open set holds a reference, and the entry is added.
    pub open spec fn pushed(self, idx: int, key: u64) -> Self {
        let m = self.bound_for(idx).increment(idx);
        PoolModel { open: m.open.insert(idx as usize, key), ..m }
    }

    /// Popping slot `idx` from the open set: the entry leaves, a handle takes a
    /// reference and the open set's reference is dropped.
    pub open spec fn popped(self, idx: int) -> Self {
        PoolModel { open: self.open.remove(idx as usize), ..self }.increment(idx).decrement(idx)
    }

    /// Lowering the key of `idx` in the open set to `key`, when it is there and
    /// `key` is lower than its present key. Returns whether the key changed.
    pub open spec fn decreased(self, idx: usize, key: u64) -> (Self, bool) {
        if self.open.dom().contains(idx) && key < self.open[idx] {
            (PoolModel { open: self.open.insert(idx, key), ..self }, true)
        } else {
            (self, false)
        }
    }

    /// The growth step that follows every enqueue: the bound doubles when the
    /// slot count reaches 90% of it.
    pub open spec fn capacity_checked(self) -> Self {
        if self.slots.len() >= self.bound * 9 / 10 {
            PoolModel { bound: self.bound * 2, ..self }
        } else {
            self
        }
    }

    /// Enqueue or update state `s` reached with cost `cost` through `parent`.
    /// Returns whether the state was inserted or improved; the open set then
    /// holds it with key `est`, or keeps its present key when that is lower.
    pub open spec fn enqueued(
        self,
        s: Seq<NodeState>,
        cost: u64,
        parent: Option<usize>,
        component: usize,
        transition: Option<T>,
        est: u64,
    ) -> (Self, bool) {
        let (m1, r) = self.best_cost_updated(s, cost);
        match r {
            None => (self, false),
            Some(i) => {
                let m2 = m1.relinked(i as int, parent, component, transition).bound_for(i as int);
                let m3 = if m2.open.dom().contains(i) {
                    m2.decreased(i, est).0
                } else {
                    m2.increment(i as int).pushed(i as int, est).decrement(i as int)
                };
                (m3.capacity_checked(), true)
            },
        }
    }
}

/// Per-index record of a state and its search metadata.
struct StateWithMetadata<T> {
    state: State,
    ref_count: u32,
    cost_from_start: u64,
    parent_idx: Option<NonMaxUsize>,
    component_idx: Option<NonMaxUsize>,
    transition_info: Option<T>,
}

impl<T> StateWithMetadata<T> {
    closed spec fn view_slot(&self) -> SlotView<T> {
        SlotView {
            state: self.state@,
            refs: self.ref_count as nat,
            cost: self.cost_from_start,
            parent: match self.parent_idx {
                Some(p) => Some(p@),
                None => None,
            },
            component: match self.component_idx {
                Some(c) => Some(c@),
                None => None,
            },
            transition: self.transition_info,
        }
    }
}

/// Largest heap bound a pool works with; doubling and `9/10` stay in range below it.
pub open spec fn bound_limit() -> int {
    (usize::MAX / 16) as int
}

/// Largest slot count at which operations that may add a slot or grow the heap
/// are accepted.
pub open spec fn slot_limit() -> int {
    (usize::MAX / 64) as int
}

/// Dense pool that owns all states and manages their lifecycle and the open set.
///
/// The pool maps each state to its stable index, counts references to each
/// index, reuses freed indices, and keeps the open set: a heap of indices
/// keyed by estimated total cost, popped lowest first.
pub struct StatePool<T> {
    /// Dense storage of states and metadata; the position is the stable index.
    states: Vec<StateWithMetadata<T>>,
    /// State payload to stable index, for duplicate detection.
    state_to_idx: StateIndex,
    /// Indices available for reuse, the last one first.
    free_indices: Vec<usize>,
    /// The open set, keyed by estimated total cost.
    open: OpenHeap,
    /// Membership in the open set.
    in_open: HashSet<usize>,
    /// Index bound of `open`; it grows before an index at or above it is pushed.
    heap_bound: usize,
    /// Number of entries in `open`.
    heap_len: usize,
    /// Highest reference count any slot has reached.
    ref_peak: u32,
}

impl<T> StatePool<T> {
    /// The pool as a value.
    pub closed spec fn model(&self) -> PoolModel<T> {
        PoolModel {
            slots: Seq::new(self.states@.len(), |i: int| self.states@[i].view_slot()),
            index: state_index_entries(self.state_to_idx),
            free: self.free_indices@,
            open: open_entries(self.open),
            bound: self.heap_bound as nat,
            peak: self.ref_peak as nat,
        }
    }

    /// The pool's bookkeeping is consistent: the open set, its membership set
    /// and its count agree, every index in it is a slot below the heap bound,
    /// every index in the state index and the free list is a slot, and no
    /// reference count exceeds the recorded peak.
    pub closed spec fn wf(&self) -> bool {
        &&& open_entries(self.open).dom() == self.in_open@
        &&& self.in_open@.finite()
        &&& self.heap_len == self.in_open@.len()
        &&& open_index_bound(self.open) == self.heap_bound
        &&& 1 <= self.heap_bound <= bound_limit()
        &&& forall|i: usize| #[trigger] self.in_open@.contains(i) ==> i < self.states@.len() && i < self.heap_bound
        &&& forall|k: Seq<NodeState>| #[trigger] state_index_entries(self.state_to_idx).dom().contains(k)
            ==> state_index_entries(self.state_to_idx)[k] < self.states@.len()
        &&& forall|j: int| 0 <= j < self.free_indices@.len() ==> #[trigger] self.free_indices@[j] < self.states@.len()
        &&& forall|i: int| 0 <= i < self.states@.len() ==> #[trigger] self.states@[i].ref_count <= self.ref_peak
    }

    proof fn lemma_model_slots(&self)
        ensures
            self.model().slots.len() == self.states@.len(),
            forall|i: int| 0 <= i < self.states@.len() ==> #[trigger] self.model().slots[i] == self.states@[i].view_slot(),
    {
    }

    /// A well-formed pool's model is consistent.
    pub proof fn lemma_wf_consistent(&self)
        requires
            self.wf(),
        ensures
            self.model().consistent(),
    {
        self.lemma_model_slots();
    }

    /// No slot's reference count exceeds the recorded peak.
    pub proof fn lemma_refs_within_peak(&self)
        requires
            self.wf(),
        ensures
            forall|i: int| 0 <= i < self.model().slots.len() ==> #[trigger] self.model().slots[i].refs <= self.model().peak,
    {
        self.lemma_model_slots();
    }

    /// Create a new, empty pool with an initial heap index bound; a bound of 0
    /// is taken as 1, so that doubling it makes it grow.
    pub fn new(initial_heap_bound: usize) -> (r: Self)
        requires
            initial_heap_bound <= bound_limit(),
        ensures
            r.wf(),
            r.model().slots == Seq::<SlotView<T>>::empty(),
            r.model().index.dom() =~= Set::<Seq<NodeState>>::empty(),
            r.model().free == Seq::<usize>::empty(),
            r.model().open.dom() =~= Set::<usize>::empty(),
            r.model().bound == (if initial_heap_bound == 0 { 1 } else { initial_heap_bound }),
            r.model().peak == 0,
            r.model().accounted(),
    {
        let bound = if initial_heap_bound == 0 { 1 } else { initial_heap_bound };
        let r = StatePool {
            states: Vec::new(),
            state_to_idx: index_new(),
            free_indices: Vec::new(),
            open: open_with_index_bound(bound),
            in_open: HashSet::new(),
            heap_bound: bound,
            heap_len: 0,
            ref_peak: 0,
        };
        assert(r.model().slots =~= Seq::<SlotView<T>>::empty());
        assert(open_entries(r.open).dom() =~= r.in_open@);
        r
    }

    /// Look up the stable index of a state; `None` if it was never inserted or was freed.
    pub fn get_index(&self, state: &State) -> (r: Option<usize>)
        ensures
            r == self.model().index.get(state@),
    {
        index_get(&self.state_to_idx, state)
    }

    /// Increment a state's reference count if the index is valid.
    pub fn increment_ref_count(&mut self, idx: usize)
        requires
            old(self).wf(),
            old(self).model().peak < u32::MAX,
        ensures
            final(self).wf(),
            final(self).model() == old(self).model().increment(idx as int),
    {
        proof { self.lemma_model_slots(); }
        if idx < self.states.len() {
            let r = self.states[idx].ref_count + 1;
            self.states[idx].ref_count = r;
            if r > self.ref_peak {
                self.ref_peak = r;
            }
            proof {
                self.lemma_model_slots();
                assert(self.model().slots =~= old(self).model().increment(idx as int).slots);
            }
        }
    }

    /// Decrement a state's reference count, freeing the state when it reaches zero.
    ///
    /// A freed state leaves the state index, its cost, parent, component and
    /// transition are cleared, and its index is pushed on the free list.
    /// Out-of-range indices and counts already at zero are left alone, so an
    /// index is never freed twice.
    pub fn decrement_ref_count(&mut self, idx: usize)
        requires
            old(self).wf(),
        ensures
            final(self).wf(),
            final(self).model() == old(self).model().decrement(idx as int),
    {
        proof { self.lemma_model_slots(); }
        if idx >= self.states.len() || self.states[idx].ref_count == 0 {
            return;
        }
        let r = self.states[idx].ref_count - 1;
        self.states[idx].ref_count = r;
        if r == 0 {
            index_remove(&mut self.state_to_idx, &self.states[idx].state);
            self.states[idx].cost_from_start = COST_INFINITY;
            self.states[idx].parent_idx = None;
            self.states[idx].component_idx = None;
            self.states[idx].transition_info = None;
            self.free_indices.push(idx);
        }
        proof {
            self.lemma_model_slots();
            assert(self.model().slots =~= old(self).model().decrement(idx as int).slots);
        }
    }

    /// Allocate a slot for a new state: reuse the last freed index, resetting
    /// its count and cost, or append a fresh slot.
    fn allocate_index(&mut self) -> (idx: usize)
        requires
            old(self).wf(),
        ensures
            final(self).wf(),
            (final(self).model(), idx) == old(self).model().allocated(),
            idx < final(self).model().slots.len(),
            idx != usize::MAX,
    {
        proof { self.lemma_model_slots(); }
        let slot_count = self.states.len();
        match self.free_indices.pop() {
            Some(idx) => {
                self.states[idx].ref_count = 0;
                self.states[idx].cost_from_start = COST_INFINITY;
                proof {
                    self.lemma_model_slots();
                    assert(self.model().slots =~= old(self).model().allocated().0.slots);
                    assert(self.free_indices@ =~= old(self).free_indices@.drop_last());
                }
                idx
            },
            None => {
                let idx = self.states.len();
                self.states.push(
                    StateWithMetadata {
                        state: State(Vec::new()),
                        ref_count: 0,
                        cost_from_start: COST_INFINITY,
                        parent_idx: None,
                        component_idx: None,
                        transition_info: None,
                    },
                );
                let grown_count = self.states.len();
                proof {
                    self.lemma_model_slots();
                    assert(self.states@[idx as int].view_slot().state =~= Seq::<NodeState>::empty());
                    assert(self.model().slots =~= old(self).model().allocated().0.slots);
                }
                idx
            },
        }
    }

    /// Stores `state` at slot `idx` and maps it to `idx` in the state index.
    fn place_state(&mut self, idx: usize, state: State)
        requires
            old(self).wf(),
            idx < old(self).model().slots.len(),
        ensures
            final(self).wf(),
            final(self).model() == old(self).model().placed(idx as int, state@),
    {
        proof { self.lemma_model_slots(); }
        let copy = state.duplicate();
        self.states[idx].state = copy;
        index_insert(&mut self.state_to_idx, state, idx);
        proof {
            self.lemma_model_slots();
            assert(self.model().slots =~= old(self).model().placed(idx as int, state@).slots);
        }
    }

    /// Insert a new state into the pool, returning its stable index. An equal
    /// state already present keeps its slot but the index maps to the new one.
    pub fn insert_state(&mut self, state: State) -> (idx: usize)
        requires
            old(self).wf(),
        ensures
            final(self).wf(),
            (final(self).model(), idx) == old(self).model().inserted(state@),
    {
        let idx = self.allocate_index();
        self.place_state(idx, state);
        idx
    }

    /// Record cost `g_value` for `state` as a candidate for the open set: a
    /// known state takes it only when it improves on its best cost; an unknown
    /// state is inserted with it. Returns the index when the pool changed.
    pub fn try_enqueue_state(&mut self, state: State, g_value: u64) -> (r: Option<usize>)
        requires
            old(self).wf(),
        ensures
            final(self).wf(),
            (final(self).model(), r) == old(self).model().best_cost_updated(state@, g_value),
    {
        match self.try_update_best_cost(state, g_value) {
            Some(i) => Some(i.get()),
            None => None,
        }
    }

    /// Record cost `path_cost` for `state`: a known state takes it only when it
    /// improves on its best cost; an unknown state is inserted with it. Returns
    /// the index when the pool changed.
    fn try_update_best_cost(&mut self, state: State, path_cost: u64) -> (r: Option<NonMaxUsize>)
        requires
            old(self).wf(),
        ensures
            final(self).wf(),
            (final(self).model(), match r { Some(x) => Some(x@), None => None })
                == old(self).model().best_cost_updated(state@, path_cost),
            r matches Some(x) ==> x@ < final(self).model().slots.len(),
    {
        proof { self.lemma_model_slots(); }
        let slot_count = self.states.len();
        match self.get_index(&state) {
            Some(idx) => {
                if path_cost < self.states[idx].cost_from_start {
                    self.states[idx].cost_from_start = path_cost;
                    proof {
                        self.lemma_model_slots();
                        assert(self.model().slots =~= old(self).model().with_cost(idx as int, path_cost).slots);
                    }
                    Some(NonMaxUsize::new_unchecked(idx))
                } else {
                    None
                }
            },
            None => {
                let idx = self.allocate_index();
                self.place_state(idx, state);
                proof { self.lemma_model_slots(); }
                self.states[idx].cost_from_start = path_cost;
                proof {
                    self.lemma_model_slots();
                    let m = old(self).model().inserted(state@).0;
                    assert(self.model().slots =~= m.with_cost(idx as int, path_cost).slots);
                }
                Some(NonMaxUsize::new_unchecked(idx))
            },
        }
    }

    /// Update parent, component and transition of `child_idx`, keeping reference
    /// counts: the old parent (if any) loses the child's reference, the new
    /// parent (if any) gains it.
    fn set_parent_component_and_transition(
        &mut self,
        child_idx: usize,
        parent_idx: Option<usize>,
        component_idx: usize,
        transition_info: Option<T>,
    )
        requires
            old(self).wf(),
            child_idx < old(self).model().slots.len(),
            parent_idx matches Some(p) ==> p < old(self).model().slots.len(),
            component_idx != usize::MAX,
            old(self).model().peak < u32::MAX,
        ensures
            final(self).wf(),
            final(self).model() == old(self).model().relinked(child_idx as int, parent_idx, component_idx, transition_info),
    {
        proof { self.lemma_model_slots(); }
        let slot_count = self.states.len();
        let ghost m0 = self.model();
        if let Some(old_parent) = self.states[child_idx].parent_idx {
            self.decrement_ref_count(old_parent.get());
        }
        let ghost m1 = self.model();
        assert(m1 == match m0.slots[child_idx as int].parent {
            Some(op) => m0.decrement(op as int),
            None => m0,
        });
        match parent_idx {
            Some(p) => {
                self.increment_ref_count(p);
                proof { self.lemma_model_slots(); }
                self.states[child_idx].parent_idx = Some(NonMaxUsize::new_unchecked(p));
            },
            None => {
                proof { self.lemma_model_slots(); }
                self.states[child_idx].parent_idx = None;
            },
        }
        self.states[child_idx].component_idx = Some(NonMaxUsize::new_unchecked(component_idx));
        self.states[child_idx].transition_info = transition_info;
        proof {
            self.lemma_model_slots();
            assert(self.model().slots =~= m0.relinked(child_idx as int, parent_idx, component_idx, transition_info).slots);
        }
    }

    /// Get the state payload at `idx`; `None` if out of range.
    pub fn get_state(&self, idx: usize) -> (r: Option<&State>)
        ensures
            match r {
                Some(s) => idx < self.model().slots.len() && s@ == self.model().slots[idx as int].state,
                None => idx >= self.model().slots.len(),
            },
    {
        if idx < self.states.len() {
            Some(&self.states[idx].state)
        } else {
            None
        }
    }

    /// The highest reference count any slot has reached.
    pub fn ref_count_peak(&self) -> (r: u32)
        ensures
            r == self.model().peak,
    {
        self.ref_peak
    }

    /// The reference count of `idx`; 0 if out of range.
    pub fn ref_count(&self, idx: usize) -> (r: u32)
        ensures
            r == (if idx < self.model().slots.len() { self.model().slots[idx as int].refs } else { 0 }),
    {
        if idx < self.states.len() {
            self.states[idx].ref_count
        } else {
            0
        }
    }

    /// Whether `idx` is a slot with a positive reference count.
    pub fn is_active(&self, idx: usize) -> (r: bool)
        ensures
            r == (idx < self.model().slots.len() && self.model().slots[idx as int].refs > 0),
    {
        idx < self.states.len() && self.states[idx].ref_count > 0
    }

    /// The best known cost from the start to `idx`; `COST_INFINITY` if out of range.
    pub fn cost_from_start(&self, idx: usize) -> (r: u64)
        ensures
            r == (if idx < self.model().slots.len() { self.model().slots[idx as int].cost } else { COST_INFINITY }),
    {
        if idx < self.states.len() {
            self.states[idx].cost_from_start
        } else {
            COST_INFINITY
        }
    }

    /// Set the cost from the start of `idx`; out-of-range indices are ignored.
    pub fn set_initial_cost(&mut self, idx: usize, cost: u64)
        requires
            old(self).wf(),
        ensures
            final(self).wf(),
            final(self).model() == (if idx < old(self).model().slots.len() {
                old(self).model().with_cost(idx as int, cost)
            } else {
                old(self).model()
            }),
    {
        proof { self.lemma_model_slots(); }
        if idx < self.states.len() {
            self.states[idx].cost_from_start = cost;
            proof {
                self.lemma_model_slots();
                assert(self.model().slots =~= old(self).model().with_cost(idx as int, cost).slots);
            }
        }
    }

    /// The parent index of `idx`; `None` for a state without parent or out of range.
    pub fn parent_idx(&self, idx: usize) -> (r: Option<usize>)
        ensures
            r == (if idx < self.model().slots.len() { self.model().slots[idx as int].parent } else { None }),
    {
        if idx < self.states.len() {
            match self.states[idx].parent_idx {
                Some(p) => Some(p.get()),
                None => None,
            }
        } else {
            None
        }
    }

    /// The component index of `idx`; `None` if not set or out of range.
    pub fn component_idx(&self, idx: usize) -> (r: Option<usize>)
        ensures
            r == (if idx < self.model().slots.len() { self.model().slots[idx as int].component } else { None }),
    {
        if idx < self.states.len() {
            match self.states[idx].component_idx {
                Some(c) => Some(c.get()),
                None => None,
            }
        } else {
            None
        }
    }

    /// The transition info of `idx`; `None` if not set or out of range.
    pub fn transition_info(&self, idx: usize) -> (r: Option<&T>)
        ensures
            match r {
                Some(t) => idx < self.model().slots.len() && self.model().slots[idx as int].transition == Some(*t),
                None => idx >= self.model().slots.len() || self.model().slots[idx as int].transition is None,
            },
    {
        if idx < self.states.len() {
            match &self.states[idx].transition_info {
                Some(t) => Some(t),
                None => None,
            }
        } else {
            None
        }
    }

    /// Total number of slots ever allocated, active and freed.
    pub fn total_states(&self) -> (r: usize)
        ensures
            r == self.model().slots.len(),
    {
        self.states.len()
    }

    /// Slots not on the free list. The free list is never longer than the
    /// slot list in a pool kept accounted (`laws::law_free_list_fits`).
    pub fn used_states(&self) -> (r: usize)
        requires
            self.model().free.len() <= self.model().slots.len(),
        ensures
            r == self.model().slots.len() - self.model().free.len(),
    {
        self.states.len() - self.free_indices.len()
    }

    /// Number of indices on the free list.
    pub fn free_indices_count(&self) -> (r: usize)
        ensures
            r == self.model().free.len(),
    {
        self.free_indices.len()
    }

    /// Capacity suggested to the heap: the number of slots.
    pub fn heap_capacity(&self) -> (r: usize)
        ensures
            r == self.model().slots.len(),
    {
        self.states.len()
    }

    /// The heap's index bound.
    pub fn heap_bound(&self) -> (r: usize)
        ensures
            r == self.model().bound,
    {
        self.heap_bound
    }

    /// Number of entries in the open set.
    pub fn heap_len(&self) -> (r: usize)
        requires
            self.wf(),
        ensures
            r == self.model().open.len(),
    {
        self.heap_len
    }

    /// Number of entries in the open set, as the heap counts them.
    pub fn heap_size(&self) -> (r: usize)
        ensures
            r == self.model().open.len(),
    {
        open_len(&self.open)
    }

    /// Whether `idx` is in the open set.
    pub fn is_in_heap(&self, idx: usize) -> (r: bool)
        requires
            self.wf(),
        ensures
            r == self.model().open.dom().contains(idx),
    {
        self.in_open.contains(&idx)
    }

    /// The key of `idx` in the open set, if it is there.
    pub fn heap_prio(&self, idx: usize) -> (r: Option<u64>)
        requires
            self.wf(),
        ensures
            r == self.model().open.get(idx),
    {
        if idx < self.heap_bound {
            open_key_of(&self.open, idx)
        } else {
            proof {
                assert(!open_entries(self.open).dom().contains(idx));
            }
            None
        }
    }

    /// Every entry of the open set with its key.
    pub fn heap_entries(&self) -> (r: Vec<(usize, u64)>)
        ensures
            lists_entries(r@, self.model().open),
    {
        open_snapshot(&self.open)
    }

    /// Re-inserts every entry of the open set and recounts its membership set
    /// and length; the entries and keys stay as they are.
    fn rebuild_open_accounting(&mut self)
        requires
            open_index_bound(old(self).open) == old(self).heap_bound,
            1 <= old(self).heap_bound <= bound_limit(),
            forall|i: usize| #[trigger] open_entries(old(self).open).dom().contains(i)
                ==> i < old(self).states@.len() && i < old(self).heap_bound,
            forall|k: Seq<NodeState>| #[trigger] state_index_entries(old(self).state_to_idx).dom().contains(k)
                ==> state_index_entries(old(self).state_to_idx)[k] < old(self).states@.len(),
            forall|j: int| 0 <= j < old(self).free_indices@.len() ==> #[trigger] old(self).free_indices@[j] < old(self).states@.len(),
            forall|i: int| 0 <= i < old(self).states@.len() ==> #[trigger] old(self).states@[i].ref_count <= old(self).ref_peak,
        ensures
            final(self).wf(),
            final(self).model() == old(self).model(),
    {
        let ghost orig = open_entries(self.open);
        self.in_open.clear();
        self.heap_len = 0;
        let tmp = drain_open(&mut self.open);
        let mut i: usize = 0;
        while i < tmp.len()
            invariant
                i <= tmp@.len(),
                lists_entries(tmp@, orig),
                open_index_bound(self.open) == self.heap_bound,
                forall|i: usize| #[trigger] orig.dom().contains(i) ==> i < self.states@.len() && i < self.heap_bound,
                forall|k: usize| #[trigger] open_entries(self.open).dom().contains(k)
                    <==> exists|j: int| 0 <= j < i && tmp@[j].0 == k,
                forall|j: int| 0 <= j < i ==> open_entries(self.open)[#[trigger] tmp@[j].0] == tmp@[j].1,
                open_entries(self.open).dom() == self.in_open@,
                self.in_open@.finite(),
                self.heap_len == self.in_open@.len(),
                self.heap_len == i,
                self.states == old(self).states,
                self.state_to_idx == old(self).state_to_idx,
                self.free_indices == old(self).free_indices,
                self.ref_peak == old(self).ref_peak,
                self.heap_bound == old(self).heap_bound,
            decreases tmp@.len() - i,
        {
            let (idx, key) = tmp[i];
            assert(orig.dom().contains(tmp@[i as int].0));
            assert(!open_entries(self.open).dom().contains(idx)) by {
                if open_entries(self.open).dom().contains(idx) {
                    let j = choose|j: int| 0 <= j < i && tmp@[j].0 == idx;
                    assert(tmp@[j].0 != tmp@[i as int].0);
                }
            };
            open_push(&mut self.open, idx, key);
            self.in_open.insert(idx);
            self.heap_len = self.heap_len + 1;
            i = i + 1;
            assert(open_entries(self.open).dom() =~= self.in_open@);
        }
        proof {
            assert forall|k: usize| #[trigger] orig.dom().contains(k) implies open_entries(self.open).dom().contains(k) by {
                let j = choose|j: int| 0 <= j < tmp@.len() && tmp@[j].0 == k;
            };
            assert forall|k: usize| #[trigger] open_entries(self.open).dom().contains(k) implies orig.dom().contains(k) by {
                let j = choose|j: int| 0 <= j < i && tmp@[j].0 == k;
            };
            assert forall|k: usize| #[trigger] orig.dom().contains(k) implies open_entries(self.open)[k] == orig[k] by {
                let j = choose|j: int| 0 <= j < tmp@.len() && tmp@[j].0 == k;
            };
            assert(open_entries(self.open) =~= orig);
            self.lemma_model_slots();
            assert(self.model().slots =~= old(self).model().slots);
        }
    }

    /// Grows the heap bound until it exceeds `idx`, then recounts the open set.
    fn ensure_heap_covers(&mut self, idx: usize)
        requires
            old(self).wf(),
            idx < slot_limit(),
        ensures
            final(self).wf(),
            final(self).model() == old(self).model().bound_for(idx as int),
            final(self).model().bound > idx,
    {
        if idx >= self.heap_bound {
            while self.heap_bound <= idx
                invariant
                    0 < self.heap_bound <= bound_limit(),
                    idx < slot_limit(),
                    open_entries(self.open) == open_entries(old(self).open),
                    open_index_bound(self.open) == self.heap_bound,
                    forall|i: usize| #[trigger] open_entries(self.open).dom().contains(i)
                        ==> i < self.states@.len() && i < self.heap_bound,
                    grown_bound(self.heap_bound as nat, idx as nat) == grown_bound(old(self).heap_bound as nat, idx as nat),
                    self.states == old(self).states,
                    self.state_to_idx == old(self).state_to_idx,
                    self.free_indices == old(self).free_indices,
                    self.ref_peak == old(self).ref_peak,
                    old(self).wf(),
                decreases (if self.heap_bound > idx { 0 } else { idx + 1 - self.heap_bound }),
            {
                assert(open_entries(self.open) == open_entries(old(self).open));
                assert(idx + 1 >= self.heap_bound * 9 / 10) by (nonlinear_arith)
                    requires self.heap_bound <= idx;
                let _ = grow_heap_if_needed(&mut self.open, idx + 1, &mut self.heap_bound);
            }
            self.rebuild_open_accounting();
            proof {
                self.lemma_model_slots();
                assert(self.model().slots =~= old(self).model().slots);
            }
        }
    }

    /// Push a state into the open set with key `estimated_total_cost`.
    ///
    /// The heap bound first grows to cover the index; the open set's
    /// membership holds a reference to the state.
    pub fn heap_push(&mut self, handle: &StateHandle, estimated_total_cost: u64)
        requires
            old(self).wf(),
            handle@.0 < old(self).model().slots.len(),
            !old(self).model().open.dom().contains(handle@.0),
            old(self).model().slots.len() < slot_limit(),
            old(self).model().peak < u32::MAX,
        ensures
            final(self).wf(),
            final(self).model() == old(self).model().pushed(handle@.0 as int, estimated_total_cost),
    {
        let idx = handle.idx;
        self.ensure_heap_covers(idx);
        self.increment_ref_count(idx);
        proof {
            lemma_bounded_set_len(self.in_open@, self.heap_bound);
            self.lemma_model_slots();
        }
        open_push(&mut self.open, idx, estimated_total_cost);
        self.in_open.insert(idx);
        self.heap_len = self.heap_len + 1;
        assert(open_entries(self.open).dom() =~= self.in_open@);
    }

    /// Pop a state with the lowest estimated total cost from the open set.
    ///
    /// The returned handle holds a reference; the open set's reference is dropped.
    pub fn heap_pop(&mut self) -> (r: Option<StateHandle>)
        requires
            old(self).wf(),
            old(self).model().peak < u32::MAX,
        ensures
            final(self).wf(),
            match r {
                None => old(self).model().open.dom() =~= Set::<usize>::empty() && final(self).model() == old(self).model(),
                Some(h) => {
                    &&& old(self).model().open.dom().contains(h@.0)
                    &&& h@.1 == old(self).model().open[h@.0]
                    &&& forall|m: usize| #[trigger] old(self).model().open.dom().contains(m) ==> h@.1 <= old(self).model().open[m]
                    &&& final(self).model() == old(self).model().popped(h@.0 as int)
                },
            },
    {
        match open_pop(&mut self.open) {
            Some((idx, key)) => {
                self.in_open.remove(&idx);
                self.heap_len = self.heap_len - 1;
                assert(open_entries(self.open).dom() =~= self.in_open@);
                let ghost m1 = self.model();
                let handle = self.make_handle(idx, key);
                self.decrement_ref_count(idx);
                Some(handle)
            },
            None => None,
        }
    }

    /// Lower the key of `idx` in the open set to `estimated_total_cost` when it
    /// is there and the new key is lower. Returns whether the key changed.
    pub fn heap_decrease_key(&mut self, idx: usize, estimated_total_cost: u64) -> (r: bool)
        requires
            old(self).wf(),
        ensures
            final(self).wf(),
            (final(self).model(), r) == old(self).model().decreased(idx, estimated_total_cost),
    {
        if !self.in_open.contains(&idx) {
            return false;
        }
        match open_key_of(&self.open, idx) {
            Some(current) => {
                if estimated_total_cost < current {
                    open_decrease_key(&mut self.open, idx, estimated_total_cost);
                    assert(open_entries(self.open).dom() =~= self.in_open@);
                    proof {
                        self.lemma_model_slots();
                        assert(self.model().slots =~= old(self).model().slots);
                    }
                    true
                } else {
                    false
                }
            },
            None => false,
        }
    }

    /// Main A* enqueue: insert a state or record a better path to it.
    ///
    /// A cost key that is not valid (a negative cost or one that is not a
    /// number) leaves the pool alone and gives `false`. A known state reached at a cost not below its best cost is left alone
    /// and `false` is returned. Otherwise the state is inserted or its best
    /// cost improved, its parent, component and transition are set (moving the
    /// child's reference from the old parent to the new), and it enters the
    /// open set with key `estimated_total_cost`; when it is there already, its
    /// key is lowered to `estimated_total_cost` if that is lower. Last, the heap
    /// bound doubles when the slot count reaches 90% of it. Returns `true`.
    pub fn enqueue_or_update_state(
        &mut self,
        state: State,
        path_cost: u64,
        parent: Option<&StateHandle>,
        component_idx: usize,
        transition_info: Option<T>,
        estimated_total_cost: u64,
    ) -> (r: bool)
        requires
            old(self).wf(),
            component_idx != usize::MAX,
            parent matches Some(h) ==> h@.0 < old(self).model().slots.len(),
            old(self).model().slots.len() + 1 < slot_limit(),
            old(self).model().peak + 2 < u32::MAX,
        ensures
            final(self).wf(),
            (final(self).model(), r) == (if valid_cost_key(path_cost) && valid_cost_key(estimated_total_cost) {
                old(self).model().enqueued(
                    state@,
                    path_cost,
                    match parent { Some(h) => Some(h@.0), None => None },
                    component_idx,
                    transition_info,
                    estimated_total_cost,
                )
            } else {
                (old(self).model(), false)
            }),
    {
        if path_cost < COST_ZERO || path_cost > COST_INFINITY || estimated_total_cost < COST_ZERO
            || estimated_total_cost > COST_INFINITY {
            return false;
        }
        match self.try_update_best_cost(state, path_cost) {
            Some(state_idx_nm) => {
                let state_idx = state_idx_nm.get();
                let parent_idx = match parent {
                    Some(p) => Some(p.index()),
                    None => None,
                };
                self.set_parent_component_and_transition(state_idx, parent_idx, component_idx, transition_info);
                self.ensure_heap_covers(state_idx);
                if self.is_in_heap(state_idx) {
                    self.heap_decrease_key(state_idx, estimated_total_cost);
                } else {
                    let handle = self.make_handle(state_idx, estimated_total_cost);
                    self.heap_push(&handle, estimated_total_cost);
                    self.release_handle(handle);
                }
                let heap_capacity = self.heap_capacity();
                proof {
                    lemma_bounded_set_len(self.in_open@, self.heap_bound);
                    assert(self.heap_bound * 9 / 10 <= heap_capacity ==> self.heap_bound * 2 <= bound_limit()) by (nonlinear_arith)
                        requires heap_capacity < slot_limit(), self.heap_bound <= bound_limit();
                }
                grow_heap_if_needed(&mut self.open, heap_capacity, &mut self.heap_bound);
                proof {
                    self.lemma_model_slots();
                }
                true
            },
            None => false,
        }
    }

    /// Create a handle for `idx`; the handle holds a reference.
    pub fn make_handle(&mut self, idx: usize, cost: u64) -> (h: StateHandle)
        requires
            old(self).wf(),
            old(self).model().peak < u32::MAX,
        ensures
            final(self).wf(),
            final(self).model() == old(self).model().increment(idx as int),
            h@ == (idx, cost),
    {
        self.increment_ref_count(idx);
        StateHandle { idx, cost }
    }

    /// Give up a handle: its reference is dropped, which may free the state.
    pub fn release_handle(&mut self, handle: StateHandle)
        requires
            old(self).wf(),
        ensures
            final(self).wf(),
            final(self).model() == old(self).model().decrement(handle@.0 as int),
    {
        self.decrement_ref_count(handle.idx);
    }
}

/// A reference to a state in a pool, with the cost it was created with.
///
/// A handle holds one reference to its state; `StatePool::release_handle`
/// gives it back.
pub struct StateHandle {
    idx: usize,
    cost: u64,
}

impl View for StateHandle {
    type V = (usize, u64);

    closed spec fn view(&self) -> (usize, u64) {
        (self.idx, self.cost)
    }
}

impl StateHandle {
    /// The cost this handle was created with.
    pub fn cost(&self) -> (r: u64)
        ensures
            r == self@.1,
    {
        self.cost
    }

    /// The stable index of the state.
    pub fn index(&self) -> (r: usize)
        ensures
            r == self@.0,
    {
        self.idx
    }

    /// The best known cost from the start to this state.
    pub fn cost_from_start<T>(&self, pool: &StatePool<T>) -> (r: u64)
        ensures
            r == (if self@.0 < pool.model().slots.len() { pool.model().slots[self@.0 as int].cost } else { COST_INFINITY }),
    {
        pool.cost_from_start(self.idx)
    }

    /// The state payload.
    pub fn state<'a, T>(&self, pool: &'a StatePool<T>) -> (r: Option<&'a State>)
        ensures
            match r {
                Some(s) => self@.0 < pool.model().slots.len() && s@ == pool.model().slots[self@.0 as int].state,
                None => self@.0 >= pool.model().slots.len(),
            },
    {
        pool.get_state(self.idx)
    }

    /// A handle to the parent state, created with the parent's best cost (0
    /// when the parent index is out of range); `None` for a state without parent.
    pub fn parent<T>(&self, pool: &mut StatePool<T>) -> (r: Option<StateHandle>)
        requires
            old(pool).wf(),
            old(pool).model().peak < u32::MAX,
        ensures
            final(pool).wf(),
            match (if self@.0 < old(pool).model().slots.len() { old(pool).model().slots[self@.0 as int].parent } else { None }) {
                None => r is None && final(pool).model() == old(pool).model(),
                Some(p) => r matches Some(h) && h@ == (p, if p < old(pool).model().slots.len() {
                    old(pool).model().slots[p as int].cost
                } else {
                    COST_ZERO
                }) && final(pool).model() == old(pool).model().increment(p as int),
            },
    {
        match pool.parent_idx(self.idx) {
            Some(parent_idx) => {
                let parent_cost = match pool.get_state(parent_idx) {
                    Some(_) => pool.cost_from_start(parent_idx),
                    None => COST_ZERO,
                };
                Some(pool.make_handle(parent_idx, parent_cost))
            },
            None => None,
        }
    }

    /// How this state was reached.
    pub fn transition_info<'a, T>(&self, pool: &'a StatePool<T>) -> (r: Option<&'a T>)
        ensures
            match r {
                Some(t) => self@.0 < pool.model().slots.len() && pool.model().slots[self@.0 as int].transition == Some(*t),
                None => self@.0 >= pool.model().slots.len() || pool.model().slots[self@.0 as int].transition is None,
            },
    {
        pool.transition_info(self.idx)
    }

    /// The component (node) acted on to reach this state.
    pub fn component_index<T>(&self, pool: &StatePool<T>) -> (r: Option<usize>)
        ensures
            r == (if self@.0 < pool.model().slots.len() { pool.model().slots[self@.0 as int].component } else { None }),
    {
        pool.component_idx(self.idx)
    }
}

} // verus!

//! The open set's indexed heap, and growing the heap's index bound as the
//! number of states rises, keeping every entry.
use orx_priority_queue::{PriorityQueue, PriorityQueueDecKey, QuaternaryHeapOfIndices};
use vstd::prelude::*;

verus! {

/// The open set of the search: a quaternary heap of node indices keyed by `u64`.
///
/// The heap is held in a field that Verus does not look into; what it holds is
/// named by `open_entries` and `open_index_bound`, and the functions below that
/// call the heap's methods state what each call does to it.
#[verifier::external_body]
pub struct OpenHeap(pub QuaternaryHeapOfIndices<usize, u64>);

/// What the heap holds: each node in it, mapped to its key.
pub uninterp spec fn open_entries(h: OpenHeap) -> Map<usize, u64>;

/// The index bound an indexed quaternary heap was built with: node indices pushed
/// into it must be below it.
pub uninterp spec fn open_index_bound(h: OpenHeap) -> nat;

/// `m` holds finitely many entries, `n` of them.
pub open spec fn counts_entries(m: Map<usize, u64>, n: usize) -> bool {
    m.dom().finite() && m.len() == n
}

/// `QuaternaryHeapOfIndices::with_index_bound`: an empty heap accepting node
/// indices below `index_bound`.
#[verifier::external_body]
pub(crate) fn open_with_index_bound(index_bound: usize) -> (h: OpenHeap)
    ensures
        open_entries(h).dom() =~= Set::<usize>::empty(),
        open_index_bound(h) == index_bound,
{
    OpenHeap(QuaternaryHeapOfIndices::with_index_bound(index_bound))
}

/// `PriorityQueue::len`: the number of nodes in the heap, which holds finitely many.
#[verifier::external_body]
pub(crate) fn open_len(h: &OpenHeap) -> (n: usize)
    ensures
        counts_entries(open_entries(*h), n),
{
    h.0.len()
}

/// `PriorityQueue::push`: adds `node` with `key`. The node must be absent and
/// below the index bound (the crate indexes its position table by the node).
#[verifier::external_body]
pub(crate) fn open_push(h: &mut OpenHeap, node: usize, key: u64)
    requires
        node < open_index_bound(*old(h)),
        !open_entries(*old(h)).dom().contains(node),
    ensures
        open_entries(*final(h)) == open_entries(*old(h)).insert(node, key),
        open_index_bound(*final(h)) == open_index_bound(*old(h)),
{
    h.0.push(node, key)
}

/// `PriorityQueue::pop`: removes and returns a node with the lowest key, or
/// `None` on an empty heap. Which of several nodes with equal lowest keys
/// comes out is not stated.
#[verifier::external_body]
pub(crate) fn open_pop(h: &mut OpenHeap) -> (r: Option<(usize, u64)>)
    ensures
        open_index_bound(*final(h)) == open_index_bound(*old(h)),
        match r {
            None => open_entries(*old(h)).dom() =~= Set::<usize>::empty()
                && open_entries(*final(h)) == open_entries(*old(h)),
            Some((node, key)) => {
                &&& open_entries(*old(h)).dom().contains(node)
                &&& open_entries(*old(h))[node] == key
                &&& forall|m: usize| #[trigger] open_entries(*old(h)).dom().contains(m)
                    ==> key <= open_entries(*old(h))[m]
                &&& open_entries(*final(h)) == open_entries(*old(h)).remove(node)
            },
        },
{
    h.0.pop()
}

/// `DaryHeapOfIndices::as_slice`, copied into a `Vec`: every node with its key, in heap order.
#[verifier::external_body]
pub(crate) fn open_snapshot(h: &OpenHeap) -> (r: Vec<(usize, u64)>)
    ensures
        lists_entries(r@, open_entries(*h)),
{
    h.0.as_slice().to_vec()
}

/// `PriorityQueueDecKey::key_of`: the key of `node`, if it is in the heap.
#[verifier::external_body]
pub(crate) fn open_key_of(h: &OpenHeap, node: usize) -> (r: Option<u64>)
    requires
        node < open_index_bound(*h),
    ensures
        r == open_entries(*h).get(node),
{
    h.0.key_of(&node)
}

/// `PriorityQueueDecKey::decrease_key`: lowers the key of `node`, which must be
/// in the heap; the crate panics on a key greater than the present one.
#[verifier::external_body]
pub(crate) fn open_decrease_key(h: &mut OpenHeap, node: usize, key: u64)
    requires
        open_entries(*old(h)).dom().contains(node),
        key <= open_entries(*old(h))[node],
    ensures
        open_entries(*final(h)) == open_entries(*old(h)).insert(node, key),
        open_index_bound(*final(h)) == open_index_bound(*old(h)),
{
    h.0.decrease_key(&node, key)
}

/// `e` lists exactly the entries of `m`, each node once.
pub open spec fn lists_entries(e: Seq<(usize, u64)>, m: Map<usize, u64>) -> bool {
    &&& forall|j: int, l: int| 0 <= j < l < e.len() ==> #[trigger] e[j].0 != #[trigger] e[l].0
    &&& forall|j: int| 0 <= j < e.len() ==> m.dom().contains(#[trigger] e[j].0) && m[e[j].0] == e[j].1
    &&& forall|k: usize| #[trigger] m.dom().contains(k) ==> exists|j: int| 0 <= j < e.len() && e[j].0 == k
}

/// Pops every entry out of `open`, returning them; the index bound stays.
pub(crate) fn drain_open(open: &mut OpenHeap) -> (entries: Vec<(usize, u64)>)
    ensures
        open_entries(*final(open)).dom() =~= Set::<usize>::empty(),
        open_index_bound(*final(open)) == open_index_bound(*old(open)),
        lists_entries(entries@, open_entries(*old(open))),
{
    let ghost orig = open_entries(*open);
    let n = open_len(open);
    let mut entries: Vec<(usize, u64)> = Vec::with_capacity(n);
    loop
        invariant
            open_entries(*open).dom().finite(),
            open_index_bound(*open) == open_index_bound(*old(open)),
            orig == open_entries(*old(open)),
            forall|k: usize| #[trigger] open_entries(*open).dom().contains(k)
                ==> orig.dom().contains(k) && open_entries(*open)[k] == orig[k],
            forall|j: int| 0 <= j < entries@.len() ==> {
                &&& orig.dom().contains(#[trigger] entries@[j].0)
                &&& orig[entries@[j].0] == entries@[j].1
                &&& !open_entries(*open).dom().contains(entries@[j].0)
            },
            forall|j: int, l: int| 0 <= j < l < entries@.len() ==> #[trigger] entries@[j].0 != #[trigger] entries@[l].0,
            forall|k: usize| #[trigger] orig.dom().contains(k) ==> open_entries(*open).dom().contains(k)
                || exists|j: int| 0 <= j < entries@.len() && entries@[j].0 == k,
        ensures
            open_entries(*open).dom() =~= Set::<usize>::empty(),
            open_index_bound(*open) == open_index_bound(*old(open)),
            lists_entries(entries@, orig),
        decreases open_entries(*open).len(),
    {
        let ghost prev = open_entries(*open);
        match open_pop(open) {
            Some((idx, key)) => {
                assert(open_entries(*open).dom() =~= prev.dom().remove(idx));
                let ghost before = entries@;
                entries.push((idx, key));
                assert forall|k: usize| #[trigger] orig.dom().contains(k) implies open_entries(*open).dom().contains(k)
                    || exists|j: int| 0 <= j < entries@.len() && entries@[j].0 == k by {
                    if !open_entries(*open).dom().contains(k) && k != idx {
                        let j = choose|j: int| 0 <= j < before.len() && before[j].0 == k;
                        assert(entries@[j].0 == k);
                    } else if k == idx {
                        assert(entries@[before.len() as int].0 == k);
                    }
                };
            },
            None => {
                break;
            },
        }
    }
    entries
}

/// Rebuilds `open` with index bound `new_bound`, keeping every node and key.
///
/// Every node in the heap must lie below the new bound.
pub fn grow_heap_vector(open: &mut OpenHeap, new_bound: usize)
    requires
        forall|i: usize| #[trigger] open_entries(*old(open)).dom().contains(i) ==> i < new_bound,
    ensures
        open_entries(*final(open)) == open_entries(*old(open)),
        open_index_bound(*final(open)) == new_bound,
{
    let ghost orig = open_entries(*open);
    let entries = drain_open(open);
    let mut rebuilt = open_with_index_bound(new_bound);
    let mut i: usize = 0;
    while i < entries.len()
        invariant
            i <= entries@.len(),
            open_index_bound(rebuilt) == new_bound,
            forall|i: usize| #[trigger] orig.dom().contains(i) ==> i < new_bound,
            lists_entries(entries@, orig),
            forall|k: usize| #[trigger] open_entries(rebuilt).dom().contains(k)
                <==> exists|j: int| 0 <= j < i && entries@[j].0 == k,
            forall|j: int| 0 <= j < i ==> open_entries(rebuilt)[#[trigger] entries@[j].0] == entries@[j].1,
        decreases entries@.len() - i,
    {
        let (idx, key) = entries[i];
        assert(orig.dom().contains(entries@[i as int].0));
        open_push(&mut rebuilt, idx, key);
        i = i + 1;
    }
    proof {
        assert forall|k: usize| #[trigger] orig.dom().contains(k) implies open_entries(rebuilt).dom().contains(k) by {
            let j = choose|j: int| 0 <= j < entries@.len() && entries@[j].0 == k;
        };
        assert forall|k: usize| #[trigger] open_entries(rebuilt).dom().contains(k) implies orig.dom().contains(k) by {
            let j = choose|j: int| 0 <= j < i && entries@[j].0 == k;
        };
        assert forall|k: usize| #[trigger] orig.dom().contains(k) implies open_entries(rebuilt)[k] == orig[k] by {
            let j = choose|j: int| 0 <= j < entries@.len() && entries@[j].0 == k;
        };
        assert(open_entries(rebuilt) =~= orig);
    }
    *open = rebuilt;
}

/// Doubles the heap's index bound once `states_len` reaches 90% of it.
///
/// Returns whether it grew. The heap keeps every node and key; on growth its
/// index bound and `*heap_bound` become twice the old bound.
pub fn grow_heap_if_needed(open: &mut OpenHeap, states_len: usize, heap_bound: &mut usize) -> (grew: bool)
    requires
        *old(heap_bound) * 9 <= usize::MAX,
        states_len >= *old(heap_bound) * 9 / 10 ==> forall|i: usize|
            #[trigger] open_entries(*old(open)).dom().contains(i) ==> i < *old(heap_bound) * 2,
    ensures
        grew == (states_len >= *old(heap_bound) * 9 / 10),
        grew ==> *final(heap_bound) == *old(heap_bound) * 2 && open_index_bound(*final(open))
            == *old(heap_bound) * 2,
        !grew ==> *final(heap_bound) == *old(heap_bound) && *final(open) == *old(open),
        open_entries(*final(open)) == open_entries(*old(open)),
{
    if states_len >= *heap_bound * 9 / 10 {
        let new_bound = *heap_bound * 2;
        grow_heap_vector(open, new_bound);
        *heap_bound = new_bound;
        return true;
    }
    false
}

} // verus!

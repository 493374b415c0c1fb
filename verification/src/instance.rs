//! Reading a problem instance from plain per-node rows: the target type by
//! name, each count checked against its range, and the target checked
//! against the total number of slots.
use crate::domain::{NodeDesc, NodeState, State, TargetType};
use crate::heuristic::{all_ascii, ascii_lowercase, lowercase, sum_slots, to_lowercase};
use vstd::prelude::*;
use vstd::string::StringExecFns;

verus! {

/// The target type a lowercased name stands for.
pub open spec fn target_type_of(lower: Seq<char>) -> Option<TargetType> {
    if lower == "military"@ {
        Some(TargetType::Military)
    } else if lower == "civilian"@ {
        Some(TargetType::Civilian)
    } else if lower == "factories"@ {
        Some(TargetType::Factories)
    } else {
        None
    }
}

/// The target type named by `name`, in any case: "military", "civilian" or
/// "factories".
pub fn parse_target_type(name: &str) -> (r: Option<TargetType>)
    ensures
        r == target_type_of(lowercase(name@)),
        all_ascii(name@) ==> lowercase(name@) == ascii_lowercase(name@),
{
    let lower = to_lowercase(name);
    let military = String::from_str("military");
    let civilian = String::from_str("civilian");
    let factories = String::from_str("factories");
    if lower == military {
        Some(TargetType::Military)
    } else if lower == civilian {
        Some(TargetType::Civilian)
    } else if lower == factories {
        Some(TargetType::Factories)
    } else {
        None
    }
}

/// The message for a target type name that names none.
pub open spec fn invalid_target_type_message(name: Seq<char>) -> Seq<char> {
    "Invalid target_type: "@ + name + ". Must be 'military', 'civilian', or 'factories'"@
}

/// The error text for a target type name that names none.
pub fn invalid_target_type_text(name: &str) -> (r: String)
    ensures
        r@ == invalid_target_type_message(name@),
{
    let mut msg = String::from_str("Invalid target_type: ");
    msg.append(name);
    msg.append(". Must be 'military', 'civilian', or 'factories'");
    msg
}

/// A per-node input count.
#[derive(Clone, Copy, Debug, PartialEq, Eq, Structural)]
pub enum Field {
    NumSlots,
    NumInfra,
    NumCivilian,
    NumMilitary,
}

pub open spec fn field_max(f: Field) -> u8 {
    match f {
        Field::NumInfra => 5,
        _ => 255,
    }
}

pub open spec fn field_message(f: Field) -> Seq<char> {
    match f {
        Field::NumSlots => "numSlots out of range (0..=255)"@,
        Field::NumInfra => "numInfra out of range (0..=5)"@,
        Field::NumCivilian => "numCivilian out of range (0..=255)"@,
        Field::NumMilitary => "numMilitary out of range (0..=255)"@,
    }
}

impl Field {
    /// Largest value the count may take: 5 for infrastructure, 255 otherwise.
    pub fn max(self) -> (r: u8)
        ensures
            r == field_max(self),
    {
        match self {
            Field::NumInfra => 5,
            _ => 255,
        }
    }

    /// The error text for a count out of its range, such as
    /// "numInfra out of range (0..=5)".
    pub fn out_of_range_text(self) -> (r: &'static str)
        ensures
            r@ == field_message(self),
    {
        match self {
            Field::NumSlots => "numSlots out of range (0..=255)",
            Field::NumInfra => "numInfra out of range (0..=5)",
            Field::NumCivilian => "numCivilian out of range (0..=255)",
            Field::NumMilitary => "numMilitary out of range (0..=255)",
        }
    }
}

/// A count as a byte, when it lies in `0..=max`.
pub fn field_to_u8(v: i32, max: u8) -> (r: Option<u8>)
    ensures
        r == (if 0 <= v <= max {
            Some(v as u8)
        } else {
            None
        }),
{
    if v < 0 || v > max as i32 {
        None
    } else {
        Some(v as u8)
    }
}

/// Why an instance is refused.
#[derive(Clone, Copy, Debug, PartialEq, Eq, Structural)]
pub enum InputError {
    /// A count lies outside its range.
    OutOfRange(Field),
    /// The target is larger than the total number of slots.
    TargetExceedsCapacity,
}

/// The error text of an [`InputError`].
pub open spec fn input_error_message(e: InputError) -> Seq<char> {
    match e {
        InputError::OutOfRange(f) => field_message(f),
        InputError::TargetExceedsCapacity => "target exceeds capacity"@,
    }
}

impl InputError {
    /// The error text: the field's range message, or "target exceeds capacity".
    pub fn text(self) -> (r: &'static str)
        ensures
            r@ == input_error_message(self),
    {
        match self {
            InputError::OutOfRange(f) => f.out_of_range_text(),
            InputError::TargetExceedsCapacity => "target exceeds capacity",
        }
    }
}

/// A node row: (slots, infrastructure, civilian, military).
pub open spec fn in_range(v: i32, f: Field) -> bool {
    0 <= v <= field_max(f)
}

/// The first count of a row's state part (infrastructure, then civilian, then
/// military) that lies outside its range.
pub open spec fn row_state_error(row: (i32, i32, i32, i32)) -> Option<Field> {
    if !in_range(row.1, Field::NumInfra) {
        Some(Field::NumInfra)
    } else if !in_range(row.2, Field::NumCivilian) {
        Some(Field::NumCivilian)
    } else if !in_range(row.3, Field::NumMilitary) {
        Some(Field::NumMilitary)
    } else {
        None
    }
}

/// The first state-part error over the rows from `i` on, in row order.
pub open spec fn first_state_error(rows: Seq<(i32, i32, i32, i32)>, i: int) -> Option<Field>
    decreases rows.len() - i,
{
    if i < 0 || i >= rows.len() {
        None
    } else {
        match row_state_error(rows[i]) {
            Some(f) => Some(f),
            None => first_state_error(rows, i + 1),
        }
    }
}

/// Whether some row's slot count lies outside its range.
pub open spec fn some_slots_bad(rows: Seq<(i32, i32, i32, i32)>) -> bool {
    exists|i: int| 0 <= i < rows.len() && !in_range(#[trigger] rows[i].0, Field::NumSlots)
}

/// The descriptors the rows give.
pub open spec fn descs_of(rows: Seq<(i32, i32, i32, i32)>) -> Seq<NodeDesc> {
    Seq::new(rows.len(), |i: int| NodeDesc { slots: rows[i].0 as u8 })
}

/// The joint state the rows give.
pub open spec fn states_of(rows: Seq<(i32, i32, i32, i32)>) -> Seq<NodeState> {
    Seq::new(rows.len(), |i: int| NodeState { infra: rows[i].1 as u8, civ: rows[i].2 as u8, mil: rows[i].3 as u8 })
}

/// What reading the rows with `target` gives: every slot count is checked
/// first, then each row's infrastructure, civilian and military counts in row
/// order, then the target against the total number of slots.
pub open spec fn instance_of(rows: Seq<(i32, i32, i32, i32)>, target: i32) -> Result<(Seq<NodeDesc>, Seq<NodeState>), InputError> {
    if some_slots_bad(rows) {
        Err(InputError::OutOfRange(Field::NumSlots))
    } else if first_state_error(rows, 0) is Some {
        Err(InputError::OutOfRange(first_state_error(rows, 0)->0))
    } else if target > sum_slots(descs_of(rows)) {
        Err(InputError::TargetExceedsCapacity)
    } else {
        Ok((descs_of(rows), states_of(rows)))
    }
}

proof fn lemma_sum_slots_push(d: Seq<NodeDesc>, x: NodeDesc)
    ensures
        sum_slots(d.push(x)) == sum_slots(d) + x.slots,
{
    assert(d.push(x).drop_last() =~= d);
}

proof fn lemma_sum_slots_monotone(d: Seq<NodeDesc>, k: int)
    requires
        0 <= k <= d.len(),
    ensures
        sum_slots(d.take(k)) <= sum_slots(d),
    decreases d.len() - k,
{
    if k < d.len() {
        lemma_sum_slots_monotone(d, k + 1);
        assert(d.take(k + 1).drop_last() =~= d.take(k));
    } else {
        assert(d.take(k) =~= d);
    }
}

/// Whether `target` exceeds the total number of slots of `desc`.
pub fn exceeds_capacity(desc: &Vec<NodeDesc>, target: i32) -> (r: bool)
    ensures
        r == (target > sum_slots(desc@)),
{
    let mut total: i64 = 0;
    let mut i: usize = 0;
    while i < desc.len()
        invariant
            i <= desc@.len(),
            total == sum_slots(desc@.take(i as int)),
            total <= i32::MAX,
        decreases desc@.len() - i,
    {
        proof {
            assert(desc@.take(i + 1) =~= desc@.take(i as int).push(desc@[i as int]));
            lemma_sum_slots_push(desc@.take(i as int), desc@[i as int]);
        }
        total = total + desc[i].slots as i64;
        i = i + 1;
        if total > i32::MAX as i64 {
            proof {
                lemma_sum_slots_monotone(desc@, i as int);
            }
            return false;
        }
    }
    proof {
        assert(desc@.take(i as int) =~= desc@);
    }
    target as i64 > total
}

/// Read the instance from its rows: the node descriptors and the start state,
/// or the first error met (see [`instance_of`]).
pub fn build_instance(rows: &Vec<(i32, i32, i32, i32)>, target: i32) -> (r: Result<(Vec<NodeDesc>, State), InputError>)
    ensures
        match (r, instance_of(rows@, target)) {
            (Ok((d, s)), Ok((ds, ss))) => d@ == ds && s@ == ss,
            (Err(e), Err(es)) => e == es,
            _ => false,
        },
{
    let mut desc: Vec<NodeDesc> = Vec::with_capacity(rows.len());
    let mut i: usize = 0;
    while i < rows.len()
        invariant
            i <= rows@.len(),
            desc@ == descs_of(rows@).take(i as int),
            forall|j: int| 0 <= j < i ==> in_range(#[trigger] rows@[j].0, Field::NumSlots),
        decreases rows@.len() - i,
    {
        match field_to_u8(rows[i].0, 255) {
            Some(slots) => desc.push(NodeDesc { slots }),
            None => {
                assert(!in_range(rows@[i as int].0, Field::NumSlots));
                return Err(InputError::OutOfRange(Field::NumSlots));
            },
        }
        i = i + 1;
        assert(desc@ =~= descs_of(rows@).take(i as int));
    }
    assert(desc@ =~= descs_of(rows@));
    assert(!some_slots_bad(rows@));
    let mut cells: Vec<NodeState> = Vec::with_capacity(rows.len());
    let mut i: usize = 0;
    while i < rows.len()
        invariant
            i <= rows@.len(),
            cells@ == states_of(rows@).take(i as int),
            first_state_error(rows@, 0) == first_state_error(rows@, i as int),
            !some_slots_bad(rows@),
            desc@ == descs_of(rows@),
        decreases rows@.len() - i,
    {
        let row = rows[i];
        proof {
            assert(row == rows@[i as int]);
            assert(first_state_error(rows@, i as int) == match row_state_error(row) {
                Some(f) => Some(f),
                None => first_state_error(rows@, i + 1),
            });
        }
        let infra = match field_to_u8(row.1, 5) {
            Some(v) => v,
            None => return Err(InputError::OutOfRange(Field::NumInfra)),
        };
        let civ = match field_to_u8(row.2, 255) {
            Some(v) => v,
            None => return Err(InputError::OutOfRange(Field::NumCivilian)),
        };
        let mil = match field_to_u8(row.3, 255) {
            Some(v) => v,
            None => return Err(InputError::OutOfRange(Field::NumMilitary)),
        };
        assert(row_state_error(row) is None);
        cells.push(NodeState { infra, civ, mil });
        i = i + 1;
        assert(cells@ =~= states_of(rows@).take(i as int));
    }
    assert(cells@ =~= states_of(rows@));
    assert(first_state_error(rows@, i as int) is None);
    if exceeds_capacity(&desc, target) {
        return Err(InputError::TargetExceedsCapacity);
    }
    Ok((desc, State(cells)))
}

} // verus!

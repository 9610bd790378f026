//! The base as planned: the blueprint of rooms, who is assigned where, and
//! the assignment plan the orchestration layer produces.

use vstd::prelude::*;

use crate::roster::OperatorProgress;
use crate::text::str_eq;
use crate::tier::{spec_tier_of, PromotionTier};
use crate::types::RecipeKind;

verus! {

/// Kind of a base facility.
#[derive(Debug, Clone, Copy, PartialEq, Eq, Structural)]
pub enum FacilityKind {
    ControlCenter,
    TradePost,
    Factory,
    PowerPlant,
    Dormitory,
    Office,
    MeetingRoom,
    TrainingRoom,
    Workshop,
}

/// Trade posts, factories and power plants.
pub open spec fn is_production(kind: FacilityKind) -> bool {
    kind == FacilityKind::TradePost || kind == FacilityKind::Factory || kind == FacilityKind::PowerPlant
}

/// Identifier of a room in a blueprint.
#[derive(Debug)]
pub struct RoomId(pub String);

impl Clone for RoomId {
    fn clone(&self) -> (res: Self)
        ensures
            res == *self,
    {
        RoomId(self.0.clone())
    }
}

impl RoomId {
    /// A room id from its text.
    pub fn from_str(id: &str) -> (res: RoomId)
        ensures
            res.0@ == id@,
    {
        RoomId(String::from_str(id))
    }

    /// The two ids name the same room.
    pub fn same(&self, other: &RoomId) -> (res: bool)
        ensures
            res == (self.0@ == other.0@),
    {
        self.0 == other.0
    }
}

/// What a production room makes.
#[derive(Debug)]
pub enum RoomProduct {
    Trade { order: String },
    Factory { recipe: RecipeKind },
}

/// Two products are the same.
pub open spec fn same_product(a: RoomProduct, b: RoomProduct) -> bool {
    match (a, b) {
        (RoomProduct::Trade { order: x }, RoomProduct::Trade { order: y }) => x@ == y@,
        (RoomProduct::Factory { recipe: x }, RoomProduct::Factory { recipe: y }) => x == y,
        _ => false,
    }
}

/// Whether two products are the same.
pub fn product_eq(a: &RoomProduct, b: &RoomProduct) -> (res: bool)
    ensures
        res == same_product(*a, *b),
{
    match (a, b) {
        (RoomProduct::Trade { order: x }, RoomProduct::Trade { order: y }) => *x == *y,
        (RoomProduct::Factory { recipe: x }, RoomProduct::Factory { recipe: y }) => *x == *y,
        _ => false,
    }
}

/// One room of a blueprint.
#[derive(Debug)]
pub struct BlueprintRoom {
    pub id: RoomId,
    pub kind: FacilityKind,
    pub level: u8,
    pub product: Option<RoomProduct>,
}

/// How many operators a room holds.
pub open spec fn spec_operator_capacity(kind: FacilityKind, level: u8) -> usize {
    match kind {
        FacilityKind::ControlCenter | FacilityKind::Dormitory => 5,
        FacilityKind::TradePost | FacilityKind::Factory => if level < 1 {
            1
        } else if level > 3 {
            3
        } else {
            level as usize
        },
        FacilityKind::MeetingRoom => 2,
        _ => 1,
    }
}

impl BlueprintRoom {
    /// Operator slots of the room: five in the control center and dormitories,
    /// one per level (up to three) in trade posts and factories, two in the
    /// meeting room, one elsewhere.
    pub fn operator_capacity(&self) -> (res: usize)
        ensures
            res == spec_operator_capacity(self.kind, self.level),
    {
        match self.kind {
            FacilityKind::ControlCenter | FacilityKind::Dormitory => 5,
            FacilityKind::TradePost | FacilityKind::Factory => {
                if self.level < 1 {
                    1
                } else if self.level > 3 {
                    3
                } else {
                    self.level as usize
                }
            },
            FacilityKind::MeetingRoom => 2,
            _ => 1,
        }
    }
}

/// The rooms of a base.
#[derive(Debug)]
pub struct BaseBlueprint {
    pub rooms: Vec<BlueprintRoom>,
}

/// The first room of the blueprint with id `id`.
pub open spec fn blueprint_room(rooms: Seq<BlueprintRoom>, id: Seq<char>) -> Option<BlueprintRoom>
    decreases rooms.len(),
{
    if rooms.len() == 0 {
        None
    } else if rooms[0].id.0@ == id {
        Some(rooms[0])
    } else {
        blueprint_room(rooms.drop_first(), id)
    }
}

impl BaseBlueprint {
    /// The room with id `id`.
    pub fn room(&self, id: &RoomId) -> (res: Option<&BlueprintRoom>)
        ensures
            match res {
                Some(r) => blueprint_room(self.rooms@, id.0@) == Some(*r),
                None => blueprint_room(self.rooms@, id.0@) is None,
            },
    {
        let mut i: usize = 0;
        assert(self.rooms@.skip(0) == self.rooms@);
        while i < self.rooms.len()
            invariant
                0 <= i <= self.rooms@.len(),
                blueprint_room(self.rooms@, id.0@) == blueprint_room(self.rooms@.skip(i as int), id.0@),
            decreases self.rooms@.len() - i,
        {
            let r = &self.rooms[i];
            assert(self.rooms@.skip(i as int)[0] == *r);
            assert(self.rooms@.skip(i as int).drop_first() == self.rooms@.skip(i + 1));
            if r.id.same(id) {
                return Some(r);
            }
            i += 1;
        }
        None
    }
}

/// Room efficiency in thousandths (integers keep candidate order free of
/// floating-point noise).
#[derive(Debug, Clone, Copy, PartialEq, Eq, Default, Structural)]
pub struct Efficiency {
    pub milli: i64,
}

impl Efficiency {
    pub fn is_zero(&self) -> (res: bool)
        ensures
            res == (self.milli == 0),
    {
        self.milli == 0
    }
}

/// An operator placed in a room.
#[derive(Debug)]
pub struct AssignedOperator {
    pub name: String,
    pub elite: u8,
    pub progress: OperatorProgress,
}

impl Clone for AssignedOperator {
    fn clone(&self) -> (res: Self)
        ensures
            res == *self,
    {
        AssignedOperator { name: self.name.clone(), elite: self.elite, progress: self.progress }
    }
}

impl AssignedOperator {
    /// An operator known by elite stage only.
    pub fn new(name: &str, elite: u8) -> (res: Self)
        ensures
            res.name@ == name@,
            res.elite == elite,
            res.progress == (OperatorProgress { elite, level: 1, rarity: 0 }),
    {
        AssignedOperator { name: String::from_str(name), elite, progress: OperatorProgress::elite_only(elite) }
    }

    /// An operator with full account progress.
    pub fn from_progress(name: &str, progress: OperatorProgress) -> (res: Self)
        ensures
            res.name@ == name@,
            res.elite == progress.elite,
            res.progress == progress,
    {
        AssignedOperator { name: String::from_str(name), elite: progress.elite, progress }
    }

    /// The promotion tier the operator's progress gives.
    pub fn tier(&self) -> (res: PromotionTier)
        ensures
            res == spec_tier_of(self.progress.elite, self.progress.rarity),
    {
        PromotionTier::from_progress(self.progress)
    }
}

/// The operators of one room.
#[derive(Debug)]
pub struct RoomAssignment {
    pub room_id: RoomId,
    pub operators: Vec<AssignedOperator>,
    pub efficiency: Option<Efficiency>,
}

/// A copy of a list of assigned operators.
pub fn clone_operators(ops: &Vec<AssignedOperator>) -> (res: Vec<AssignedOperator>)
    ensures
        res@ == ops@,
{
    let mut out: Vec<AssignedOperator> = Vec::new();
    let mut i: usize = 0;
    while i < ops.len()
        invariant
            0 <= i <= ops@.len(),
            out@ == ops@.take(i as int),
        decreases ops@.len() - i,
    {
        out.push(ops[i].clone());
        assert(out@ =~= ops@.take(i + 1));
        i += 1;
    }
    assert(ops@.take(ops@.len() as int) =~= ops@);
    out
}

impl Clone for RoomAssignment {
    fn clone(&self) -> (res: Self)
        ensures
            res.room_id == self.room_id,
            res.operators@ == self.operators@,
            res.efficiency == self.efficiency,
    {
        RoomAssignment {
            room_id: self.room_id.clone(),
            operators: clone_operators(&self.operators),
            efficiency: self.efficiency,
        }
    }
}

/// Who works where in one shift.
#[derive(Debug)]
pub struct BaseAssignment {
    pub rooms: Vec<RoomAssignment>,
}

/// Index of the first room entry with id `id`.
pub open spec fn room_index(rooms: Seq<RoomAssignment>, id: Seq<char>) -> Option<int>
    decreases rooms.len(),
{
    if rooms.len() == 0 {
        None
    } else if rooms[0].room_id.0@ == id {
        Some(0)
    } else {
        match room_index(rooms.drop_first(), id) {
            Some(i) => Some(i + 1),
            None => None,
        }
    }
}

/// The operators of room `id` (none when the room has no entry).
pub open spec fn room_operators(rooms: Seq<RoomAssignment>, id: Seq<char>) -> Seq<AssignedOperator> {
    match room_index(rooms, id) {
        Some(i) => rooms[i].operators@,
        None => Seq::empty(),
    }
}

/// `name` works in one of the rooms.
pub open spec fn assigned_anywhere(rooms: Seq<RoomAssignment>, name: Seq<char>) -> bool {
    exists|r: int, k: int|
        0 <= r < rooms.len() && 0 <= k < rooms[r].operators@.len() && #[trigger] rooms[r].operators@[k].name@
            == name
}

pub proof fn lemma_room_index(rooms: Seq<RoomAssignment>, id: Seq<char>)
    ensures
        match room_index(rooms, id) {
            Some(i) => 0 <= i < rooms.len() && rooms[i].room_id.0@ == id && forall|j: int|
                0 <= j < i ==> #[trigger] rooms[j].room_id.0@ != id,
            None => forall|j: int| 0 <= j < rooms.len() ==> #[trigger] rooms[j].room_id.0@ != id,
        },
    decreases rooms.len(),
{
    if rooms.len() > 0 {
        lemma_room_index(rooms.drop_first(), id);
        assert forall|j: int| 0 < j < rooms.len() implies #[trigger] rooms[j] == rooms.drop_first()[j - 1] by {}
    }
}

impl BaseAssignment {
    /// An assignment with no rooms.
    pub fn new() -> (res: Self)
        ensures
            res.rooms@.len() == 0,
    {
        BaseAssignment { rooms: Vec::new() }
    }

    /// Position of the room entry `id`.
    pub fn room_position(&self, id: &str) -> (res: Option<usize>)
        ensures
            match res {
                Some(i) => i < self.rooms@.len() && room_index(self.rooms@, id@) == Some(i as int),
                None => room_index(self.rooms@, id@) is None,
            },
    {
        proof {
            lemma_room_index(self.rooms@, id@);
        }
        let mut i: usize = 0;
        while i < self.rooms.len()
            invariant
                0 <= i <= self.rooms@.len(),
                forall|j: int| 0 <= j < i ==> #[trigger] self.rooms@[j].room_id.0@ != id@,
            decreases self.rooms@.len() - i,
        {
            if str_eq(self.rooms[i].room_id.0.as_str(), id) {
                proof {
                    lemma_room_index(self.rooms@, id@);
                    match room_index(self.rooms@, id@) {
                        Some(k) => {
                            if k < i {
                                assert(self.rooms@[k].room_id.0@ != id@);
                            }
                            if k > i {
                                assert(self.rooms@[i as int].room_id.0@ != id@);
                            }
                        },
                        None => {
                            assert(self.rooms@[i as int].room_id.0@ != id@);
                        },
                    }
                }
                return Some(i);
            }
            i += 1;
        }
        proof {
            lemma_room_index(self.rooms@, id@);
            if let Some(k) = room_index(self.rooms@, id@) {
                assert(self.rooms@[k].room_id.0@ != id@);
            }
        }
        None
    }

    /// The entry of room `id`.
    pub fn room_assignment(&self, id: &RoomId) -> (res: Option<&RoomAssignment>)
        ensures
            match res {
                Some(r) => room_index(self.rooms@, id.0@) matches Some(i) && *r == self.rooms@[i],
                None => room_index(self.rooms@, id.0@) is None,
            },
    {
        match self.room_position(id.0.as_str()) {
            Some(i) => Some(&self.rooms[i]),
            None => None,
        }
    }

    /// The operators of room `id` (none when the room has no entry).
    pub fn operators_in(&self, id: &RoomId) -> (res: &[AssignedOperator])
        ensures
            res@ == room_operators(self.rooms@, id.0@),
    {
        match self.room_position(id.0.as_str()) {
            Some(i) => self.rooms[i].operators.as_slice(),
            None => &[],
        }
    }

    /// Puts `operators` into room `id`: replaces the entry's operators and
    /// clears its efficiency, or appends a new entry.
    pub fn set_room(&mut self, id: &str, operators: Vec<AssignedOperator>)
        ensures
            match room_index(old(self).rooms@, id@) {
                Some(i) => final(self).rooms@ == old(self).rooms@.update(
                    i,
                    RoomAssignment { room_id: old(self).rooms@[i].room_id, operators, efficiency: None },
                ),
                None => {
                    &&& final(self).rooms@.len() == old(self).rooms@.len() + 1
                    &&& final(self).rooms@.drop_last() == old(self).rooms@
                    &&& final(self).rooms@.last().room_id.0@ == id@
                    &&& final(self).rooms@.last().operators == operators
                    &&& final(self).rooms@.last().efficiency is None
                },
            },
    {
        match self.room_position(id) {
            Some(i) => {
                let room_id = self.rooms[i].room_id.clone();
                self.rooms.set(i, RoomAssignment { room_id, operators, efficiency: None });
            },
            None => {
                self.rooms.push(RoomAssignment { room_id: RoomId::from_str(id), operators, efficiency: None });
            },
        }
    }

    /// Replaces the entry of the room `room.room_id`, or appends `room`.
    pub fn set_room_assignment(&mut self, room: RoomAssignment)
        ensures
            match room_index(old(self).rooms@, room.room_id.0@) {
                Some(i) => final(self).rooms@ == old(self).rooms@.update(i, room),
                None => final(self).rooms@ == old(self).rooms@.push(room),
            },
    {
        match self.room_position(room.room_id.0.as_str()) {
            Some(i) => {
                self.rooms.set(i, room);
            },
            None => {
                self.rooms.push(room);
            },
        }
    }

    /// Every assigned operator name, once each.
    pub fn operator_names(&self) -> (res: Vec<String>)
        ensures
            forall|a: int, b: int| 0 <= a < b < res@.len() ==> #[trigger] res@[a]@ != #[trigger] res@[b]@,
            forall|n: Seq<char>| crate::text::has_name(res@, n) <==> assigned_anywhere(self.rooms@, n),
    {
        let mut out: Vec<String> = Vec::new();
        let mut r: usize = 0;
        while r < self.rooms.len()
            invariant
                0 <= r <= self.rooms@.len(),
                forall|a: int, b: int| 0 <= a < b < out@.len() ==> #[trigger] out@[a]@ != #[trigger] out@[b]@,
                forall|n: Seq<char>|
                    crate::text::has_name(out@, n) <==> assigned_anywhere(self.rooms@.take(r as int), n),
            decreases self.rooms@.len() - r,
        {
            let ops = &self.rooms[r].operators;
            let mut k: usize = 0;
            while k < ops.len()
                invariant
                    0 <= r < self.rooms@.len(),
                    *ops == self.rooms@[r as int].operators,
                    0 <= k <= ops@.len(),
                    forall|a: int, b: int| 0 <= a < b < out@.len() ==> #[trigger] out@[a]@ != #[trigger] out@[b]@,
                    forall|n: Seq<char>|
                        crate::text::has_name(out@, n) <==> (assigned_anywhere(self.rooms@.take(r as int), n)
                            || exists|j: int| 0 <= j < k && #[trigger] ops@[j].name@ == n),
                decreases ops@.len() - k,
            {
                let ghost before = out@;
                crate::text::push_unique(&mut out, ops[k].name.clone());
                proof {
                    assert forall|a: int, b: int| 0 <= a < b < out@.len() implies #[trigger] out@[a]@
                        != #[trigger] out@[b]@ by {
                        if b == before.len() && out@.len() > before.len() {
                            assert(before[a]@ != ops@[k as int].name@) by {
                                if before[a]@ == ops@[k as int].name@ {
                                    assert(crate::text::has_name(before, ops@[k as int].name@));
                                }
                            }
                        } else if out@.len() > before.len() {
                            assert(out@[a] == before[a] && out@[b] == before[b]);
                        }
                    }
                    assert forall|n: Seq<char>| crate::text::has_name(out@, n) <==> (assigned_anywhere(
                        self.rooms@.take(r as int),
                        n,
                    ) || exists|j: int| 0 <= j < k + 1 && #[trigger] ops@[j].name@ == n) by {
                        if crate::text::has_name(out@, n) && !crate::text::has_name(before, n) {
                            let t = choose|t: int| 0 <= t < out@.len() && #[trigger] out@[t]@ == n;
                            if t < before.len() {
                                assert(out@[t] == before[t]);
                            }
                        }
                        if crate::text::has_name(before, n) {
                            let t = choose|t: int| 0 <= t < before.len() && #[trigger] before[t]@ == n;
                            assert(out@[t] == before[t]);
                        }
                        if n == ops@[k as int].name@ && !crate::text::has_name(before, n) {
                            assert(out@[before.len() as int]@ == n);
                        }
                    }
                }
                k += 1;
            }
            proof {
                assert forall|n: Seq<char>| assigned_anywhere(self.rooms@.take(r + 1), n) <==> (
                assigned_anywhere(self.rooms@.take(r as int), n) || exists|j: int|
                    0 <= j < ops@.len() && #[trigger] ops@[j].name@ == n) by {
                    let t1 = self.rooms@.take(r + 1);
                    let t0 = self.rooms@.take(r as int);
                    if assigned_anywhere(t1, n) {
                        let (x, y) = choose|x: int, y: int|
                            0 <= x < t1.len() && 0 <= y < t1[x].operators@.len() && #[trigger] t1[x].operators@[y].name@
                                == n;
                        if x < r {
                            assert(t0[x] == t1[x]);
                        } else {
                            assert(ops@[y].name@ == n);
                        }
                    }
                    if assigned_anywhere(t0, n) {
                        let (x, y) = choose|x: int, y: int|
                            0 <= x < t0.len() && 0 <= y < t0[x].operators@.len() && #[trigger] t0[x].operators@[y].name@
                                == n;
                        assert(t1[x] == t0[x]);
                    }
                    if exists|j: int| 0 <= j < ops@.len() && #[trigger] ops@[j].name@ == n {
                        let j = choose|j: int| 0 <= j < ops@.len() && #[trigger] ops@[j].name@ == n;
                        assert(t1[r as int].operators@[j].name@ == n);
                    }
                }
            }
            r += 1;
        }
        assert(self.rooms@.take(self.rooms@.len() as int) == self.rooms@);
        out
    }

    /// Operators of the control center (room `control`).
    pub fn control_operators(&self) -> (res: Vec<AssignedOperator>)
        ensures
            res@ == room_operators(self.rooms@, "control"@),
    {
        match self.room_position("control") {
            Some(i) => clone_operators(&self.rooms[i].operators),
            None => Vec::new(),
        }
    }
}

impl Default for BaseAssignment {
    fn default() -> (res: Self)
        ensures
            res.rooms@.len() == 0,
    {
        BaseAssignment::new()
    }
}

/// A system slot the plan fills.
#[derive(Debug)]
pub enum SlotFill {
    Fixed { facility: FacilityKind, room_id: Option<RoomId>, operator: String },
    PickOne { facility: FacilityKind, room_id: Option<RoomId>, candidates: Vec<String> },
    OptionalFixed { facility: FacilityKind, operator: String },
}

/// Facility of a slot.
pub open spec fn slot_facility(slot: SlotFill) -> FacilityKind {
    match slot {
        SlotFill::Fixed { facility, .. } => facility,
        SlotFill::PickOne { facility, .. } => facility,
        SlotFill::OptionalFixed { facility, .. } => facility,
    }
}

/// Facility of a slot.
pub fn slot_facility_of(slot: &SlotFill) -> (res: FacilityKind)
    ensures
        res == slot_facility(*slot),
{
    match slot {
        SlotFill::Fixed { facility, .. } => *facility,
        SlotFill::PickOne { facility, .. } => *facility,
        SlotFill::OptionalFixed { facility, .. } => *facility,
    }
}

/// A system the plan activated, with its slots.
#[derive(Debug)]
pub struct ActivatedSystem {
    pub slots: Vec<SlotFill>,
}

/// An operator the plan pins to a facility.
#[derive(Debug)]
pub struct PlanAnchor {
    pub facility: FacilityKind,
    pub operator: String,
}

/// A group that must rotate together (on `on_shifts`, off `off_shifts`).
#[derive(Debug)]
pub struct ShiftBindDecl {
    pub operators: Vec<String>,
    pub on_shifts: u8,
    pub off_shifts: u8,
}

/// The orchestration plan of a shift.
#[derive(Debug)]
pub struct AssignmentPlan {
    pub anchors: Vec<PlanAnchor>,
    pub activated: Vec<ActivatedSystem>,
    pub shift_binds: Vec<ShiftBindDecl>,
}

} // verus!

//! Manual edits of a generated schedule, keeping slots and ledger in step.

use vstd::prelude::*;
use vstd::multiset::Multiset;
use crate::calendar::Date;
use crate::generator::{DatePlan, SchedulePreview, history_row, qualified_slot, slots_distinct};
use crate::model::{Assignment, HistoryEntry, JobId, Person, PersonId};

verus! {

broadcast use vstd::multiset::group_multiset_axioms;

/// The identity of a slot: date, job and position.
#[derive(Clone, Copy, Debug, PartialEq, Eq, Structural)]
pub struct SlotKey {
    pub service_date: Date,
    pub job_id: JobId,
    pub position: u32,
}

pub open spec fn key_of(a: Assignment) -> SlotKey {
    SlotKey { service_date: a.service_date, job_id: a.job_id, position: a.position }
}

/// Why an edit was refused. Nothing is written when an edit is refused.
#[derive(Clone, Copy, Debug, PartialEq, Eq, Structural)]
pub enum EditError {
    /// No slot has this key.
    SlotNotFound(SlotKey),
    /// No person on the roster has this id.
    PersonNotFound(PersonId),
    /// The person is not qualified for the job.
    NotQualified(PersonId, JobId),
}

/// The ledger rows a slot contributes: one when it is filled, none when empty.
pub open spec fn row_of(a: Assignment) -> Multiset<HistoryEntry> {
    if a.person_id is Some {
        Multiset::singleton(history_row(a))
    } else {
        Multiset::empty()
    }
}

/// The ledger rows that mirror the filled slots.
pub open spec fn filled_rows(s: Seq<Assignment>) -> Multiset<HistoryEntry>
    decreases s.len(),
{
    if s.len() == 0 {
        Multiset::empty()
    } else {
        filled_rows(s.drop_last()).add(row_of(s.last()))
    }
}

/// The slots of a schedule and the ledger rows of its dates and jobs.
#[derive(Clone, Debug)]
pub struct ScheduleBook {
    pub slots: Vec<Assignment>,
    pub ledger: Vec<HistoryEntry>,
}

impl ScheduleBook {
    /// No two slots share a key, and the ledger holds exactly one row for each filled
    /// slot, with its person, job, date and position, and nothing else.
    pub open spec fn well_formed(&self) -> bool {
        &&& forall|i: int, j: int|
            0 <= i < self.slots@.len() && 0 <= j < self.slots@.len() && i != j ==> key_of(
                #[trigger] self.slots@[i],
            ) != key_of(#[trigger] self.slots@[j])
        &&& self.ledger@.to_multiset() == filled_rows(self.slots@)
    }
}

/// Some roster record with this id is qualified for the job.
pub open spec fn qualifies(people: Seq<Person>, pid: PersonId, job: JobId) -> bool {
    exists|i: int|
        0 <= i < people.len() && #[trigger] people[i].id == pid && people[i].job_ids@.contains(job)
}

pub open spec fn on_roster(people: Seq<Person>, pid: PersonId) -> bool {
    exists|i: int| 0 <= i < people.len() && #[trigger] people[i].id == pid
}

/// Whether some roster record with this id is qualified for the job.
pub fn is_person_qualified_for_job(people: &Vec<Person>, person_id: PersonId, job_id: JobId) -> (r:
    bool)
    ensures
        r == qualifies(people@, person_id, job_id),
{
    let mut i: usize = 0;
    while i < people.len()
        invariant
            0 <= i <= people.len(),
            forall|k: int|
                0 <= k < i ==> !(people@[k].id == person_id && people@[k].job_ids@.contains(job_id)),
        decreases people.len() - i,
    {
        if people[i].id == person_id && crate::util::contains_id(&people[i].job_ids, job_id) {
            assert(people@[i as int].id == person_id);
            return true;
        }
        i += 1;
    }
    false
}

/// Whether some roster record has this id.
fn is_on_roster(people: &Vec<Person>, person_id: PersonId) -> (r: bool)
    ensures
        r == on_roster(people@, person_id),
{
    let mut i: usize = 0;
    while i < people.len()
        invariant
            0 <= i <= people.len(),
            forall|k: int| 0 <= k < i ==> people@[k].id != person_id,
        decreases people.len() - i,
    {
        if people[i].id == person_id {
            assert(people@[i as int].id == person_id);
            return true;
        }
        i += 1;
    }
    false
}

/// Replacing one slot changes the filled rows by that slot's rows.
proof fn lemma_filled_rows_update(s: Seq<Assignment>, i: int, x: Assignment)
    requires
        0 <= i < s.len(),
    ensures
        filled_rows(s.update(i, x)).add(row_of(s[i])) == filled_rows(s).add(row_of(x)),
    decreases s.len(),
{
    let u = s.update(i, x);
    if i == s.len() - 1 {
        assert(u.drop_last() =~= s.drop_last());
        assert(filled_rows(u).add(row_of(s[i])) =~= filled_rows(s).add(row_of(x)));
    } else {
        assert(u.drop_last() =~= s.drop_last().update(i, x));
        assert(u.last() == s.last());
        assert(s.drop_last()[i] == s[i]);
        lemma_filled_rows_update(s.drop_last(), i, x);
        let a = filled_rows(s.drop_last().update(i, x));
        let b = filled_rows(s.drop_last());
        assert(filled_rows(u) == a.add(row_of(s.last())));
        assert(filled_rows(s) == b.add(row_of(s.last())));
        assert forall|v: HistoryEntry|
            filled_rows(u).add(row_of(s[i])).count(v) == filled_rows(s).add(row_of(x)).count(v) by {
            assert(a.add(row_of(s[i])).count(v) == b.add(row_of(x)).count(v));
        }
        assert(filled_rows(u).add(row_of(s[i])) =~= filled_rows(s).add(row_of(x)));
    }
}

/// A filled slot's row is among the filled rows.
proof fn lemma_filled_row_present(s: Seq<Assignment>, i: int)
    requires
        0 <= i < s.len(),
        s[i].person_id is Some,
    ensures
        filled_rows(s).count(history_row(s[i])) > 0,
    decreases s.len(),
{
    if i < s.len() - 1 {
        lemma_filled_row_present(s.drop_last(), i);
    }
}

/// The place of the slot with this key.
pub fn find_slot(slots: &Vec<Assignment>, key: SlotKey) -> (r: Option<usize>)
    ensures
        r matches Some(i) ==> i < slots@.len() && key_of(slots@[i as int]) == key,
        r is None ==> forall|i: int| 0 <= i < slots@.len() ==> key_of(#[trigger] slots@[i]) != key,
{
    let mut i: usize = 0;
    while i < slots.len()
        invariant
            0 <= i <= slots.len(),
            forall|k: int| 0 <= k < i ==> key_of(#[trigger] slots@[k]) != key,
        decreases slots.len() - i,
    {
        let a = &slots[i];
        if a.service_date == key.service_date && a.job_id == key.job_id && a.position == key.position {
            return Some(i);
        }
        i += 1;
    }
    None
}

/// Takes one copy of `row` out of the ledger, which must hold it.
fn remove_row(ledger: &mut Vec<HistoryEntry>, row: HistoryEntry)
    requires
        old(ledger)@.to_multiset().count(row) > 0,
    ensures
        final(ledger)@.to_multiset() == old(ledger)@.to_multiset().remove(row),
{
    proof {
        vstd::seq_lib::to_multiset_contains(old(ledger)@, row);
    }
    let mut i: usize = 0;
    while i < ledger.len()
        invariant
            0 <= i <= ledger.len(),
            ledger@ == old(ledger)@,
            old(ledger)@.contains(row),
            forall|k: int| 0 <= k < i ==> ledger@[k] != row,
        decreases ledger.len() - i,
    {
        if ledger[i] == row {
            proof {
                vstd::seq_lib::to_multiset_remove(ledger@, i as int);
            }
            ledger.remove(i);
            return;
        }
        i += 1;
    }
}

/// Puts `row` in the ledger.
fn add_row(ledger: &mut Vec<HistoryEntry>, row: HistoryEntry)
    ensures
        final(ledger)@.to_multiset() == old(ledger)@.to_multiset().insert(row),
{
    proof {
        vstd::seq_lib::to_multiset_build(ledger@, row);
    }
    ledger.push(row);
}

/// The ledger row that mirrors a filled slot.
fn row_for(a: &Assignment) -> (r: HistoryEntry)
    requires
        a.person_id is Some,
    ensures
        r == history_row(*a),
{
    HistoryEntry {
        person_id: match a.person_id {
            Some(p) => p,
            None => 0,
        },
        job_id: a.job_id,
        service_date: a.service_date,
        position: a.position,
    }
}

/// The slot with a new occupant (or none), marked as a manual edit.
pub open spec fn with_person(a: Assignment, p: Option<PersonId>) -> Assignment {
    Assignment {
        service_date: a.service_date,
        job_id: a.job_id,
        position: a.position,
        person_id: p,
        manual_override: true,
    }
}

fn set_person(a: &Assignment, p: Option<PersonId>) -> (r: Assignment)
    ensures
        r == with_person(*a, p),
{
    Assignment {
        service_date: a.service_date,
        job_id: a.job_id,
        position: a.position,
        person_id: p,
        manual_override: true,
    }
}

/// Every filled slot is held by someone qualified for its job.
pub open spec fn slots_qualified(people: Seq<Person>, slots: Seq<Assignment>) -> bool {
    forall|k: int|
        0 <= k < slots.len() ==> ((#[trigger] slots[k]).person_id matches Some(pid) ==> qualifies(
            people,
            pid,
            slots[k].job_id,
        ))
}

pub open spec fn has_key(slots: Seq<Assignment>, key: SlotKey) -> bool {
    exists|i: int| 0 <= i < slots.len() && key_of(#[trigger] slots[i]) == key
}

/// A slot that nobody holds yet.
#[derive(Clone, Copy, Debug, PartialEq, Eq, Structural)]
pub struct EmptySlot {
    pub service_date: Date,
    pub job_id: JobId,
    pub position: u32,
}

pub open spec fn empty_slot_of(a: Assignment) -> EmptySlot {
    EmptySlot { service_date: a.service_date, job_id: a.job_id, position: a.position }
}

/// The slots' counts and the slots still empty.
#[derive(Clone, Debug)]
pub struct CompletenessResponse {
    pub is_complete: bool,
    pub total_slots: u64,
    pub filled_slots: u64,
    pub empty_slots: Vec<EmptySlot>,
}

/// The empty slots, in order.
pub open spec fn empty_keys(s: Seq<Assignment>) -> Seq<EmptySlot>
    decreases s.len(),
{
    if s.len() == 0 {
        seq![]
    } else if s.last().person_id is Some {
        empty_keys(s.drop_last())
    } else {
        empty_keys(s.drop_last()).push(empty_slot_of(s.last()))
    }
}

/// A new occupant for a slot.
#[derive(Clone, Copy, Debug, PartialEq, Eq, Structural)]
pub struct UpdateAssignmentRequest {
    pub slot: SlotKey,
    pub new_person_id: PersonId,
}

/// Two slots whose occupants trade places.
#[derive(Clone, Copy, Debug, PartialEq, Eq, Structural)]
pub struct SwapAssignmentsRequest {
    pub slot_1: SlotKey,
    pub slot_2: SlotKey,
}

/// Where a slot's occupant goes.
#[derive(Clone, Copy, Debug, PartialEq, Eq, Structural)]
pub struct MoveAssignmentRequest {
    pub target_service_date: Date,
    pub target_job_id: JobId,
    pub target_position: u32,
}

impl MoveAssignmentRequest {
    pub open spec fn key(self) -> SlotKey {
        SlotKey {
            service_date: self.target_service_date,
            job_id: self.target_job_id,
            position: self.target_position,
        }
    }
}

impl ScheduleBook {
    /// Puts `x` in slot `i` (same key), taking the old slot's row out of the ledger and
    /// putting the new one's in.
    fn replace_slot(&mut self, i: usize, x: Assignment)
        requires
            old(self).well_formed(),
            i < old(self).slots@.len(),
            key_of(x) == key_of(old(self).slots@[i as int]),
        ensures
            final(self).well_formed(),
            final(self).slots@ == old(self).slots@.update(i as int, x),
    {
        let a = self.slots[i];
        let ghost s0 = self.slots@;
        let ghost m0 = self.ledger@.to_multiset();
        if a.person_id.is_some() {
            proof {
                lemma_filled_row_present(s0, i as int);
            }
            remove_row(&mut self.ledger, row_for(&a));
        }
        if x.person_id.is_some() {
            add_row(&mut self.ledger, row_for(&x));
        }
        self.slots.set(i, x);
        proof {
            lemma_filled_rows_update(s0, i as int, x);
            let m1 = self.ledger@.to_multiset();
            assert(m1.add(row_of(a)) =~= m0.add(row_of(x)));
            assert(m1 =~= filled_rows(self.slots@)) by {
                assert forall|v: HistoryEntry| m1.count(v) == filled_rows(self.slots@).count(v) by {
                    assert(m1.add(row_of(a)).count(v) == filled_rows(self.slots@).add(row_of(a)).count(
                        v,
                    ));
                }
            }
            assert forall|p: int, q: int|
                0 <= p < self.slots@.len() && 0 <= q < self.slots@.len() && p != q implies key_of(
                #[trigger] self.slots@[p],
            ) != key_of(#[trigger] self.slots@[q]) by {
                assert(key_of(self.slots@[p]) == key_of(s0[p]));
                assert(key_of(self.slots@[q]) == key_of(s0[q]));
            }
        }
    }
}

impl ScheduleBook {
    /// Reassigns a slot to `new_person_id`, who must be on the roster and qualified for
    /// the slot's job; the ledger loses the old occupant's row and gains the new one's.
    pub fn update_assignment(&mut self, request: &UpdateAssignmentRequest, people: &Vec<Person>) -> (r:
        Result<(), EditError>)
        requires
            old(self).well_formed(),
        ensures
            final(self).well_formed(),
            r is Err ==> final(self).slots@ == old(self).slots@ && final(self).ledger@ == old(
                self,
            ).ledger@,
            r == Err::<(), EditError>(EditError::SlotNotFound(request.slot)) <==> !has_key(
                old(self).slots@,
                request.slot,
            ),
            forall|i: int|
                0 <= i < old(self).slots@.len() && key_of(#[trigger] old(self).slots@[i])
                    == request.slot ==> {
                    &&& (r == Err::<(), EditError>(EditError::PersonNotFound(request.new_person_id))
                        <==> !on_roster(people@, request.new_person_id))
                    &&& (r == Err::<(), EditError>(
                        EditError::NotQualified(request.new_person_id, request.slot.job_id),
                    ) <==> on_roster(people@, request.new_person_id) && !qualifies(
                        people@,
                        request.new_person_id,
                        request.slot.job_id,
                    ))
                    &&& (r is Ok <==> qualifies(people@, request.new_person_id, request.slot.job_id))
                    &&& (r is Ok ==> final(self).slots@ == old(self).slots@.update(
                        i,
                        with_person(old(self).slots@[i], Some(request.new_person_id)),
                    ))
                },
            r is Ok ==> (slots_qualified(people@, old(self).slots@) ==> slots_qualified(
                people@,
                final(self).slots@,
            )),
    {
        let key = request.slot;
        let new_person_id = request.new_person_id;
        let i = match find_slot(&self.slots, key) {
            Some(i) => i,
            None => {
                return Err(EditError::SlotNotFound(key));
            },
        };
        proof {
            assert(has_key(self.slots@, key));
            lemma_unique_key(self.slots@, key, i as int);
        }
        if !is_on_roster(people, new_person_id) {
            proof {
                if qualifies(people@, new_person_id, key.job_id) {
                    let k = choose|k: int| 0 <= k < people@.len() && #[trigger] people@[k].id == new_person_id
                        && people@[k].job_ids@.contains(key.job_id);
                }
            }
            return Err(EditError::PersonNotFound(new_person_id));
        }
        if !is_person_qualified_for_job(people, new_person_id, key.job_id) {
            return Err(EditError::NotQualified(new_person_id, key.job_id));
        }
        let x = set_person(&self.slots[i], Some(new_person_id));
        let ghost s0 = self.slots@;
        self.replace_slot(i, x);
        proof {
            lemma_qualified_update(people@, s0, i as int, x);
        }
        Ok(())
    }

    /// Empties a slot; the ledger loses its row, if it had one.
    pub fn clear_assignment(&mut self, key: SlotKey) -> (r: Result<(), EditError>)
        requires
            old(self).well_formed(),
        ensures
            final(self).well_formed(),
            r is Err ==> final(self).slots@ == old(self).slots@ && final(self).ledger@ == old(
                self,
            ).ledger@,
            r == Err::<(), EditError>(EditError::SlotNotFound(key)) <==> !has_key(old(self).slots@, key),
            r is Ok <==> has_key(old(self).slots@, key),
            forall|i: int|
                0 <= i < old(self).slots@.len() && key_of(#[trigger] old(self).slots@[i]) == key ==> (
                r is Ok ==> final(self).slots@ == old(self).slots@.update(
                    i,
                    with_person(old(self).slots@[i], None),
                )),
            r is Ok ==> forall|people: Seq<Person>|
                slots_qualified(people, old(self).slots@) ==> #[trigger] slots_qualified(
                    people,
                    final(self).slots@,
                ),
    {
        let i = match find_slot(&self.slots, key) {
            Some(i) => i,
            None => {
                return Err(EditError::SlotNotFound(key));
            },
        };
        proof {
            lemma_unique_key(self.slots@, key, i as int);
        }
        let x = set_person(&self.slots[i], None);
        let ghost s0 = self.slots@;
        self.replace_slot(i, x);
        proof {
            assert forall|people: Seq<Person>|
                slots_qualified(people, s0) implies #[trigger] slots_qualified(people, self.slots@) by {
                lemma_qualified_update(people, s0, i as int, x);
            }
        }
        Ok(())
    }
}

/// Validation of a swap: which occupant, if any, is not qualified for the other job.
pub open spec fn swap_refusal(people: Seq<Person>, a: Assignment, b: Assignment) -> Option<EditError> {
    if a.job_id != b.job_id && a.person_id is Some && !qualifies(people, a.person_id->0, b.job_id) {
        Some(EditError::NotQualified(a.person_id->0, b.job_id))
    } else if a.job_id != b.job_id && b.person_id is Some && !qualifies(
        people,
        b.person_id->0,
        a.job_id,
    ) {
        Some(EditError::NotQualified(b.person_id->0, a.job_id))
    } else {
        None
    }
}

/// The slots after the occupants of slots `ia` and `ib` trade places.
pub open spec fn swapped(s: Seq<Assignment>, ia: int, ib: int) -> Seq<Assignment> {
    s.update(ia, with_person(s[ia], None)).update(ib, with_person(s[ib], s[ia].person_id)).update(
        ia,
        with_person(s[ia], s[ib].person_id),
    )
}

impl ScheduleBook {
    /// Trades the occupants of two slots. Where the jobs differ, each occupant must be
    /// qualified for the other job. Slot A is emptied first, then B takes A's person,
    /// then A takes B's; the ledger follows each step.
    pub fn swap_assignments(&mut self, request: &SwapAssignmentsRequest, people: &Vec<Person>) -> (r:
        Result<(), EditError>)
        requires
            old(self).well_formed(),
        ensures
            final(self).well_formed(),
            r is Err ==> final(self).slots@ == old(self).slots@ && final(self).ledger@ == old(
                self,
            ).ledger@,
            r == Err::<(), EditError>(EditError::SlotNotFound(request.slot_1)) <==> !has_key(
                old(self).slots@,
                request.slot_1,
            ),
            has_key(old(self).slots@, request.slot_1) ==> (r == Err::<(), EditError>(
                EditError::SlotNotFound(request.slot_2),
            ) <==> !has_key(old(self).slots@, request.slot_2)),
            forall|ia: int, ib: int|
                0 <= ia < old(self).slots@.len() && 0 <= ib < old(self).slots@.len() && key_of(
                    #[trigger] old(self).slots@[ia],
                ) == request.slot_1 && key_of(#[trigger] old(self).slots@[ib]) == request.slot_2 ==> {
                    &&& (swap_refusal(people@, old(self).slots@[ia], old(self).slots@[ib]) matches Some(
                        e,
                    ) ==> r == Err::<(), EditError>(e))
                    &&& (swap_refusal(people@, old(self).slots@[ia], old(self).slots@[ib]) is None
                        ==> r is Ok)
                    &&& (r is Ok ==> final(self).slots@ == swapped(old(self).slots@, ia, ib))
                },
            r is Ok ==> (slots_qualified(people@, old(self).slots@) ==> slots_qualified(
                people@,
                final(self).slots@,
            )),
    {
        let key_a = request.slot_1;
        let key_b = request.slot_2;
        let ia = match find_slot(&self.slots, key_a) {
            Some(i) => i,
            None => {
                return Err(EditError::SlotNotFound(key_a));
            },
        };
        let ib = match find_slot(&self.slots, key_b) {
            Some(i) => i,
            None => {
                proof {
                    if key_a == key_b {
                        assert(key_of(self.slots@[ia as int]) == key_b);
                    }
                }
                return Err(EditError::SlotNotFound(key_b));
            },
        };
        proof {
            lemma_unique_key(self.slots@, key_a, ia as int);
            lemma_unique_key(self.slots@, key_b, ib as int);
        }
        let a = self.slots[ia];
        let b = self.slots[ib];
        if a.job_id != b.job_id {
            if let Some(p) = a.person_id {
                if !is_person_qualified_for_job(people, p, b.job_id) {
                    return Err(EditError::NotQualified(p, b.job_id));
                }
            }
            if let Some(q) = b.person_id {
                if !is_person_qualified_for_job(people, q, a.job_id) {
                    return Err(EditError::NotQualified(q, a.job_id));
                }
            }
        }
        let ghost s0 = self.slots@;
        let x1 = set_person(&a, None);
        self.replace_slot(ia, x1);
        let ghost s1 = self.slots@;
        let x2 = set_person(&b, a.person_id);
        self.replace_slot(ib, x2);
        let ghost s2 = self.slots@;
        let x3 = set_person(&a, b.person_id);
        self.replace_slot(ia, x3);
        proof {
            if slots_qualified(people@, s0) {
                assert(a == s0[ia as int]);
                assert(b == s0[ib as int]);
                lemma_qualified_update(people@, s0, ia as int, x1);
                lemma_qualified_update(people@, s1, ib as int, x2);
                lemma_qualified_update(people@, s2, ia as int, x3);
            }
        }
        Ok(())
    }

    /// Moves a slot's occupant to the target slot. An occupied target makes this a swap;
    /// an empty one takes the person, who must be qualified where the jobs differ, and
    /// the source is emptied.
    pub fn move_assignment(
        &mut self,
        source: SlotKey,
        request: &MoveAssignmentRequest,
        people: &Vec<Person>,
    ) -> (r: Result<(), EditError>)
        requires
            old(self).well_formed(),
        ensures
            final(self).well_formed(),
            r is Err ==> final(self).slots@ == old(self).slots@ && final(self).ledger@ == old(
                self,
            ).ledger@,
            r == Err::<(), EditError>(EditError::SlotNotFound(source)) <==> !has_key(
                old(self).slots@,
                source,
            ),
            has_key(old(self).slots@, source) ==> (r == Err::<(), EditError>(
                EditError::SlotNotFound(request.key()),
            ) <==> !has_key(old(self).slots@, request.key())),
            forall|is: int, it: int|
                0 <= is < old(self).slots@.len() && 0 <= it < old(self).slots@.len() && key_of(
                    #[trigger] old(self).slots@[is],
                ) == source && key_of(#[trigger] old(self).slots@[it]) == request.key() ==> {
                    let s = old(self).slots@;
                    if s[it].person_id is Some {
                        &&& (swap_refusal(people@, s[is], s[it]) matches Some(e) ==> r == Err::<
                            (),
                            EditError,
                        >(e))
                        &&& (swap_refusal(people@, s[is], s[it]) is None ==> r is Ok)
                        &&& (r is Ok ==> final(self).slots@ == swapped(s, is, it))
                    } else {
                        &&& (r is Ok <==> !(s[is].job_id != s[it].job_id && s[is].person_id is Some
                            && !qualifies(people@, s[is].person_id->0, s[it].job_id)))
                        &&& (r is Err ==> r == Err::<(), EditError>(
                            EditError::NotQualified(s[is].person_id->0, s[it].job_id),
                        ))
                        &&& (r is Ok ==> final(self).slots@ == s.update(
                            it,
                            with_person(s[it], s[is].person_id),
                        ).update(is, with_person(s[is], None)))
                    }
                },
            r is Ok ==> (slots_qualified(people@, old(self).slots@) ==> slots_qualified(
                people@,
                final(self).slots@,
            )),
    {
        let target = SlotKey {
            service_date: request.target_service_date,
            job_id: request.target_job_id,
            position: request.target_position,
        };
        let is = match find_slot(&self.slots, source) {
            Some(i) => i,
            None => {
                return Err(EditError::SlotNotFound(source));
            },
        };
        let it = match find_slot(&self.slots, target) {
            Some(i) => i,
            None => {
                proof {
                    if source == target {
                        assert(key_of(self.slots@[is as int]) == target);
                    }
                }
                return Err(EditError::SlotNotFound(target));
            },
        };
        proof {
            lemma_unique_key(self.slots@, source, is as int);
            lemma_unique_key(self.slots@, target, it as int);
        }
        let src = self.slots[is];
        let dst = self.slots[it];
        if dst.person_id.is_some() {
            return self.swap_assignments(&SwapAssignmentsRequest { slot_1: source, slot_2: target }, people);
        }
        if src.job_id != dst.job_id {
            if let Some(p) = src.person_id {
                if !is_person_qualified_for_job(people, p, dst.job_id) {
                    return Err(EditError::NotQualified(p, dst.job_id));
                }
            }
        }
        let ghost s0 = self.slots@;
        let x1 = set_person(&dst, src.person_id);
        self.replace_slot(it, x1);
        let ghost s1 = self.slots@;
        let x2 = set_person(&src, None);
        self.replace_slot(is, x2);
        proof {
            if slots_qualified(people@, s0) {
                assert(src == s0[is as int]);
                lemma_qualified_update(people@, s0, it as int, x1);
                lemma_qualified_update(people@, s1, is as int, x2);
            }
        }
        Ok(())
    }

    /// How many slots there are, how many are filled, and which are still empty.
    pub fn get_schedule_completeness(&self) -> (r: CompletenessResponse)
        ensures
            r.total_slots == self.slots@.len(),
            r.empty_slots@ == empty_keys(self.slots@),
            r.filled_slots + r.empty_slots@.len() == self.slots@.len(),
            r.is_complete == (r.empty_slots@.len() == 0),
    {
        let mut empty: Vec<EmptySlot> = Vec::new();
        let mut i: usize = 0;
        while i < self.slots.len()
            invariant
                0 <= i <= self.slots.len(),
                empty@ == empty_keys(self.slots@.subrange(0, i as int)),
                empty@.len() <= i,
            decreases self.slots.len() - i,
        {
            proof {
                assert(self.slots@.subrange(0, i + 1).drop_last() =~= self.slots@.subrange(0, i as int));
            }
            let a = &self.slots[i];
            if a.person_id.is_none() {
                empty.push(EmptySlot { service_date: a.service_date, job_id: a.job_id, position: a.position });
            }
            i += 1;
        }
        proof {
            assert(self.slots@.subrange(0, self.slots@.len() as int) =~= self.slots@);
        }
        let total = self.slots.len() as u64;
        let filled = total - empty.len() as u64;
        CompletenessResponse {
            is_complete: empty.len() == 0,
            total_slots: total,
            filled_slots: filled,
            empty_slots: empty,
        }
    }
}

/// The row is the mirror of some filled slot.
pub open spec fn mirrors_filled_slot(slots: Seq<Assignment>, v: HistoryEntry) -> bool {
    exists|i: int| 0 <= i < slots.len() && (#[trigger] slots[i]).person_id is Some && history_row(slots[i]) == v
}

proof fn lemma_row_has_slot(s: Seq<Assignment>, v: HistoryEntry)
    requires
        filled_rows(s).count(v) > 0,
    ensures
        exists|k: int|
            0 <= k < s.len() && (#[trigger] s[k]).person_id is Some && history_row(s[k]) == v,
    decreases s.len(),
{
    if s.len() > 0 {
        if filled_rows(s.drop_last()).count(v) > 0 {
            lemma_row_has_slot(s.drop_last(), v);
            let k = choose|k: int|
                0 <= k < s.drop_last().len() && (#[trigger] s.drop_last()[k]).person_id is Some
                    && history_row(s.drop_last()[k]) == v;
            assert(s[k] == s.drop_last()[k]);
        } else {
            assert(s[s.len() - 1] == s.last());
        }
    }
}

proof fn lemma_row_once(s: Seq<Assignment>, i: int)
    requires
        0 <= i < s.len(),
        s[i].person_id is Some,
        forall|p: int, q: int|
            0 <= p < s.len() && 0 <= q < s.len() && p != q ==> key_of(#[trigger] s[p]) != key_of(
                #[trigger] s[q],
            ),
    ensures
        filled_rows(s).count(history_row(s[i])) == 1,
    decreases s.len(),
{
    let d = s.drop_last();
    let v = history_row(s[i]);
    if i == s.len() - 1 {
        if filled_rows(d).count(v) > 0 {
            lemma_row_has_slot(d, v);
            let k = choose|k: int| 0 <= k < d.len() && (#[trigger] d[k]).person_id is Some && history_row(d[k]) == v;
            assert(s[k] == d[k]);
            assert(key_of(s[k]) == key_of(s[i]));
        }
    } else {
        assert(d[i] == s[i]);
        assert forall|p: int, q: int|
            0 <= p < d.len() && 0 <= q < d.len() && p != q implies key_of(#[trigger] d[p]) != key_of(
            #[trigger] d[q],
        ) by {
            assert(d[p] == s[p] && d[q] == s[q]);
        }
        lemma_row_once(d, i);
        assert(key_of(s.last()) != key_of(s[i]));
    }
}

/// The ledger and the slots agree: after any sequence of reassign, clear, swap and move
/// (each keeps the book well formed), every filled slot has exactly one ledger row with
/// its person, job, date and position, and every ledger row is such a row of a filled slot.
pub proof fn lemma_history_matches_slots(book: ScheduleBook)
    requires
        book.well_formed(),
    ensures
        forall|i: int|
            0 <= i < book.slots@.len() && (#[trigger] book.slots@[i]).person_id is Some
                ==> book.ledger@.to_multiset().count(history_row(book.slots@[i])) == 1,
        forall|j: int|
            0 <= j < book.ledger@.len() ==> mirrors_filled_slot(book.slots@, #[trigger] book.ledger@[j]),
{
    assert forall|i: int|
        0 <= i < book.slots@.len() && (#[trigger] book.slots@[i]).person_id is Some implies book.ledger@.to_multiset().count(
        history_row(book.slots@[i]),
    ) == 1 by {
        lemma_row_once(book.slots@, i);
    }
    assert forall|j: int|
        0 <= j < book.ledger@.len() implies mirrors_filled_slot(book.slots@, #[trigger] book.ledger@[j]) by {
        let v = book.ledger@[j];
        assert(book.ledger@.contains(v));
        vstd::seq_lib::to_multiset_contains(book.ledger@, v);
        lemma_row_has_slot(book.slots@, v);
    }
}

/// What a generated draft guarantees about its shape: each date's slots carry that date
/// and do not share a job and position, and no date repeats.
pub open spec fn draft_consistent(plans: Seq<DatePlan>) -> bool {
    &&& forall|i: int, k: int|
        0 <= i < plans.len() && 0 <= k < plans[i].assignments@.len() ==> (#[trigger] plans[i].assignments@[k]).service_date
            == plans[i].service_date
    &&& forall|i: int| 0 <= i < plans.len() ==> slots_distinct(#[trigger] plans[i].assignments@)
    &&& forall|i: int, j: int|
        0 <= i < plans.len() && 0 <= j < plans.len() && i != j ==> (#[trigger] plans[i]).service_date
            != (#[trigger] plans[j]).service_date
}

/// Every date's slots, dates in order.
pub open spec fn all_slots(plans: Seq<DatePlan>) -> Seq<Assignment>
    decreases plans.len(),
{
    if plans.len() == 0 {
        seq![]
    } else {
        all_slots(plans.drop_last()) + plans.last().assignments@
    }
}

impl ScheduleBook {
    /// Commits a generated draft: its slots, dates in order, with one ledger row for each
    /// filled slot.
    pub fn save_schedule(preview: &SchedulePreview) -> (r: ScheduleBook)
        requires
            draft_consistent(preview.service_dates@),
        ensures
            r.well_formed(),
            r.slots@ == all_slots(preview.service_dates@),
    {
        let plans = &preview.service_dates;
        let mut slots: Vec<Assignment> = Vec::new();
        let mut ledger: Vec<HistoryEntry> = Vec::new();
        let mut i: usize = 0;
        proof {
            assert(plans@.subrange(0, 0) =~= Seq::<DatePlan>::empty());
            assert(slots@ =~= all_slots(plans@.subrange(0, 0)));
            assert forall|v: HistoryEntry| ledger@.to_multiset().count(v) == 0 by {
                vstd::seq_lib::to_multiset_contains(ledger@, v);
            }
            assert(ledger@.to_multiset() =~= filled_rows(slots@));
        }
        while i < plans.len()
            invariant
                0 <= i <= plans.len(),
                draft_consistent(plans@),
                slots@ == all_slots(plans@.subrange(0, i as int)),
                ledger@.to_multiset() == filled_rows(slots@),
                forall|q: int|
                    0 <= q < slots@.len() ==> exists|j: int|
                        0 <= j < i && (#[trigger] slots@[q]).service_date == plans@[j].service_date,
                forall|p: int, q: int|
                    0 <= p < slots@.len() && 0 <= q < slots@.len() && p != q ==> key_of(
                        #[trigger] slots@[p],
                    ) != key_of(#[trigger] slots@[q]),
            decreases plans.len() - i,
        {
            let plan = &plans[i];
            let ghost base = slots@.len() as int;
            let ghost before = slots@;
            let mut k: usize = 0;
            while k < plan.assignments.len()
                invariant
                    0 <= i < plans.len(),
                    *plan == plans@[i as int],
                    0 <= k <= plan.assignments.len(),
                    draft_consistent(plans@),
                    base == before.len(),
                    slots@ == before + plan.assignments@.subrange(0, k as int),
                    ledger@.to_multiset() == filled_rows(slots@),
                    forall|q: int|
                        0 <= q < base ==> exists|j: int|
                            0 <= j < i && (#[trigger] slots@[q]).service_date == plans@[j].service_date,
                    forall|p: int, q: int|
                        0 <= p < slots@.len() && 0 <= q < slots@.len() && p != q ==> key_of(
                            #[trigger] slots@[p],
                        ) != key_of(#[trigger] slots@[q]),
                decreases plan.assignments.len() - k,
            {
                let a = plan.assignments[k];
                proof {
                    assert(plans@[i as int].assignments@[k as int] == a);
                }
                let ghost old_slots = slots@;
                let ghost old_ms = ledger@.to_multiset();
                slots.push(a);
                if a.person_id.is_some() {
                    let row = row_for(&a);
                    proof {
                        vstd::seq_lib::to_multiset_build(ledger@, row);
                    }
                    ledger.push(row);
                }
                proof {
                    assert(slots@.drop_last() =~= old_slots);
                    assert(filled_rows(slots@) == filled_rows(old_slots).add(row_of(a)));
                    assert(ledger@.to_multiset() =~= filled_rows(slots@));
                    assert(slots@ =~= before + plan.assignments@.subrange(0, k + 1));
                    let n = slots@.len() as int - 1;
                    assert forall|p: int, q: int|
                        0 <= p < slots@.len() && 0 <= q < slots@.len() && p != q implies key_of(
                            #[trigger] slots@[p],
                        ) != key_of(#[trigger] slots@[q]) by {
                        if p == n || q == n {
                            let o = if p == n { q } else { p };
                            assert(slots@[n] == a);
                            if o < base {
                                let j = choose|j: int|
                                    0 <= j < i && (#[trigger] slots@[o]).service_date == plans@[j].service_date;
                                assert(plans@[j].service_date != plans@[i as int].service_date);
                            } else {
                                let ko = o - base;
                                assert(slots@[o] == plan.assignments@[ko]);
                                assert(slots_distinct(plans@[i as int].assignments@));
                                assert(plan.assignments@[ko] != a || ko == k);
                            }
                        } else {
                            assert(slots@[p] == old_slots[p] && slots@[q] == old_slots[q]);
                        }
                    }
                    assert forall|q: int|
                        0 <= q < base implies exists|j: int|
                            0 <= j < i && (#[trigger] slots@[q]).service_date == plans@[j].service_date by {
                        assert(slots@[q] == old_slots[q]);
                    }
                }
                k += 1;
            }
            proof {
                assert(plan.assignments@.subrange(0, plan.assignments@.len() as int) =~= plan.assignments@);
                assert(plans@.subrange(0, i + 1).drop_last() =~= plans@.subrange(0, i as int));
                assert(slots@ =~= all_slots(plans@.subrange(0, i + 1)));
                assert forall|q: int|
                    0 <= q < slots@.len() implies exists|j: int|
                        0 <= j < i + 1 && (#[trigger] slots@[q]).service_date == plans@[j].service_date by {
                    if q < base {
                        let j = choose|j: int|
                            0 <= j < i && (#[trigger] slots@[q]).service_date == plans@[j].service_date;
                    } else {
                        assert(slots@[q] == plan.assignments@[q - base]);
                    }
                }
            }
            i += 1;
        }
        proof {
            assert(plans@.subrange(0, plans@.len() as int) =~= plans@);
        }
        ScheduleBook { slots, ledger }
    }
}

/// Qualification carries from a generated draft to the saved book: when every slot of
/// every date is held by someone qualified for its job, so is every slot of the book.
pub proof fn lemma_saved_slots_qualified(people: Seq<Person>, plans: Seq<DatePlan>)
    requires
        forall|i: int, k: int|
            0 <= i < plans.len() && 0 <= k < plans[i].assignments@.len() ==> qualified_slot(
                people,
                #[trigger] plans[i].assignments@[k],
            ),
    ensures
        slots_qualified(people, all_slots(plans)),
    decreases plans.len(),
{
    if plans.len() > 0 {
        let d = plans.drop_last();
        assert forall|i: int, k: int|
            0 <= i < d.len() && 0 <= k < d[i].assignments@.len() implies qualified_slot(
            people,
            #[trigger] d[i].assignments@[k],
        ) by {
            assert(d[i] == plans[i]);
        }
        lemma_saved_slots_qualified(people, d);
        let before = all_slots(d);
        let last = plans.last().assignments@;
        assert forall|k: int| 0 <= k < (before + last).len() implies ((#[trigger] (before + last)[k]).person_id matches Some(
            pid,
        ) ==> qualifies(people, pid, (before + last)[k].job_id)) by {
            if k < before.len() {
                assert((before + last)[k] == before[k]);
            } else {
                let a = last[k - before.len()];
                assert((before + last)[k] == a);
                assert(qualified_slot(people, plans[plans.len() - 1].assignments@[k - before.len()]));
            }
        }
    }
}

/// Keys are unique, so the slot at `i` is the only one with its key.
proof fn lemma_unique_key(slots: Seq<Assignment>, key: SlotKey, i: int)
    requires
        0 <= i < slots.len(),
        key_of(slots[i]) == key,
        forall|p: int, q: int|
            0 <= p < slots.len() && 0 <= q < slots.len() && p != q ==> key_of(#[trigger] slots[p])
                != key_of(#[trigger] slots[q]),
    ensures
        forall|j: int| 0 <= j < slots.len() && key_of(#[trigger] slots[j]) == key ==> j == i,
{
}

/// Replacing a slot with an empty one, or one held by a qualified person, keeps every
/// slot qualified.
proof fn lemma_qualified_update(people: Seq<Person>, s: Seq<Assignment>, i: int, x: Assignment)
    requires
        0 <= i < s.len(),
        x.person_id matches Some(pid) ==> qualifies(people, pid, x.job_id),
    ensures
        slots_qualified(people, s) ==> slots_qualified(people, s.update(i, x)),
{
    if slots_qualified(people, s) {
        assert forall|k: int| 0 <= k < s.update(i, x).len() implies ((#[trigger] s.update(i, x)[k]).person_id matches Some(
            pid,
        ) ==> qualifies(people, pid, s.update(i, x)[k].job_id)) by {
            if k != i {
                assert(s.update(i, x)[k] == s[k]);
            }
        }
    }
}

} // verus!

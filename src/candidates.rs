//! Who could take a slot during a manual edit, and why not.

use vstd::prelude::*;
use crate::calendar::Date;
use crate::eligibility::{at_consecutive_limit, check_consecutive_weeks, is_available, unavailable_on};
use crate::fairness::{count_in_year, year_count};
use crate::model::{HistoryEntry, JobId, Person, PersonId, SiblingGroup, Unavailability};
use crate::siblings::{SiblingConstraintResult, check_sibling_constraint, sibling_status};
use crate::util::contains_id;

verus! {

/// Why a person cannot take a slot; the first that applies, in this order.
#[derive(Clone, Copy, Debug, PartialEq, Eq, Structural)]
pub enum IneligibleReason {
    NotQualified,
    Unavailable,
    AlreadyAssigned,
    ConsecutiveWeeks,
    SiblingConflict,
}

/// The slot being edited and its current occupant, if any.
#[derive(Clone, Copy, Debug, PartialEq, Eq, Structural)]
pub struct GetEligiblePeopleRequest {
    pub job_id: JobId,
    pub service_date: Date,
    pub current_person_id: Option<PersonId>,
}

/// One person's standing for the slot.
#[derive(Clone, Copy, Debug, PartialEq, Eq, Structural)]
pub struct EligiblePerson {
    pub id: PersonId,
    pub is_available: bool,
    pub is_qualified: bool,
    pub passes_consecutive_check: bool,
    pub sibling_status: SiblingConstraintResult,
    pub assignments_this_year: u64,
    pub reason_if_ineligible: Option<IneligibleReason>,
}

/// The standing of one person. Someone already assigned on the date is ineligible
/// unless they are the slot's current occupant.
pub open spec fn standing(
    request: GetEligiblePeopleRequest,
    p: Person,
    unavailable: Seq<Unavailability>,
    already_assigned: Seq<PersonId>,
    recent: Seq<(PersonId, Date)>,
    ledger: Seq<HistoryEntry>,
    groups: Seq<SiblingGroup>,
) -> EligiblePerson {
    let qualified = p.job_ids@.contains(request.job_id);
    let available = !unavailable_on(p.id, request.service_date, unavailable);
    let taken = already_assigned.contains(p.id) && request.current_person_id != Some(p.id);
    let rested = !at_consecutive_limit(recent, p.id, request.service_date, p.max_consecutive_weeks as int);
    let status = sibling_status(groups, p.id, already_assigned);
    EligiblePerson {
        id: p.id,
        is_available: available,
        is_qualified: qualified,
        passes_consecutive_check: rested,
        sibling_status: status,
        assignments_this_year: year_count(ledger, p.id, request.service_date.year) as u64,
        reason_if_ineligible: if !qualified {
            Some(IneligibleReason::NotQualified)
        } else if !available {
            Some(IneligibleReason::Unavailable)
        } else if taken {
            Some(IneligibleReason::AlreadyAssigned)
        } else if !rested {
            Some(IneligibleReason::ConsecutiveWeeks)
        } else if status == SiblingConstraintResult::Forbidden {
            Some(IneligibleReason::SiblingConflict)
        } else {
            None
        },
    }
}

/// The standings of the active people, in roster order.
pub open spec fn standings(
    request: GetEligiblePeopleRequest,
    people: Seq<Person>,
    unavailable: Seq<Unavailability>,
    already_assigned: Seq<PersonId>,
    recent: Seq<(PersonId, Date)>,
    ledger: Seq<HistoryEntry>,
    groups: Seq<SiblingGroup>,
) -> Seq<EligiblePerson>
    decreases people.len(),
{
    if people.len() == 0 {
        seq![]
    } else {
        let before = standings(
            request,
            people.drop_last(),
            unavailable,
            already_assigned,
            recent,
            ledger,
            groups,
        );
        if people.last().active {
            before.push(
                standing(
                    request,
                    people.last(),
                    unavailable,
                    already_assigned,
                    recent,
                    ledger,
                    groups,
                ),
            )
        } else {
            before
        }
    }
}

/// Eligible people sort first, then fewer commitments this year.
pub open spec fn standing_key(e: EligiblePerson) -> (int, int) {
    (if e.reason_if_ineligible is Some { 1int } else { 0int }, e.assignments_this_year as int)
}

pub open spec fn key_le(a: (int, int), b: (int, int)) -> bool {
    a.0 < b.0 || (a.0 == b.0 && a.1 <= b.1)
}

fn key_of(e: &EligiblePerson) -> (r: (u8, u64))
    ensures
        r.0 as int == standing_key(*e).0,
        r.1 as int == standing_key(*e).1,
{
    (if e.reason_if_ineligible.is_some() { 1 } else { 0 }, e.assignments_this_year)
}

/// The standing of one person, computed.
fn standing_of(
    request: &GetEligiblePeopleRequest,
    p: &Person,
    unavailable: &Vec<Unavailability>,
    already_assigned: &Vec<PersonId>,
    recent: &Vec<(PersonId, Date)>,
    ledger: &Vec<HistoryEntry>,
    groups: &Vec<SiblingGroup>,
) -> (r: EligiblePerson)
    ensures
        r == standing(*request, *p, unavailable@, already_assigned@, recent@, ledger@, groups@),
{
    let qualified = contains_id(&p.job_ids, request.job_id);
    let available = is_available(p.id, request.service_date, unavailable);
    let taken = contains_id(already_assigned, p.id) && request.current_person_id != Some(p.id);
    let rested = check_consecutive_weeks(p, request.service_date, recent);
    let status = check_sibling_constraint(p.id, already_assigned, groups);
    let reason = if !qualified {
        Some(IneligibleReason::NotQualified)
    } else if !available {
        Some(IneligibleReason::Unavailable)
    } else if taken {
        Some(IneligibleReason::AlreadyAssigned)
    } else if !rested {
        Some(IneligibleReason::ConsecutiveWeeks)
    } else if status == SiblingConstraintResult::Forbidden {
        Some(IneligibleReason::SiblingConflict)
    } else {
        None
    };
    EligiblePerson {
        id: p.id,
        is_available: available,
        is_qualified: qualified,
        passes_consecutive_check: rested,
        sibling_status: status,
        assignments_this_year: count_in_year(ledger, p.id, request.service_date.year),
        reason_if_ineligible: reason,
    }
}

/// Every active person's standing for the slot: eligible people first, then by fewer
/// commitments this year. `already_assigned` lists
/// who holds a slot on the date; `recent` lists recent commitments as (person, date).
pub fn get_eligible_people_for_assignment(
    request: &GetEligiblePeopleRequest,
    people: &Vec<Person>,
    unavailable: &Vec<Unavailability>,
    already_assigned: &Vec<PersonId>,
    recent: &Vec<(PersonId, Date)>,
    ledger: &Vec<HistoryEntry>,
    groups: &Vec<SiblingGroup>,
) -> (r: Vec<EligiblePerson>)
    ensures
        r@.to_multiset() == standings(
            *request,
            people@,
            unavailable@,
            already_assigned@,
            recent@,
            ledger@,
            groups@,
        ).to_multiset(),
        forall|a: int, b: int|
            0 <= a < b < r@.len() ==> key_le(standing_key(#[trigger] r@[a]), standing_key(#[trigger] r@[b])),
{
    let mut built: Vec<EligiblePerson> = Vec::new();
    let mut i: usize = 0;
    while i < people.len()
        invariant
            0 <= i <= people.len(),
            built@ == standings(
                *request,
                people@.subrange(0, i as int),
                unavailable@,
                already_assigned@,
                recent@,
                ledger@,
                groups@,
            ),
        decreases people.len() - i,
    {
        proof {
            assert(people@.subrange(0, i + 1).drop_last() =~= people@.subrange(0, i as int));
        }
        if people[i].active {
            built.push(standing_of(request, &people[i], unavailable, already_assigned, recent, ledger, groups));
        }
        i += 1;
    }
    proof {
        assert(people@.subrange(0, people@.len() as int) =~= people@);
    }
    let mut r: Vec<EligiblePerson> = Vec::new();
    let mut t: usize = 0;
    proof {
        assert(r@ =~= built@.subrange(0, 0));
    }
    while t < built.len()
        invariant
            0 <= t <= built.len(),
            r@.to_multiset() == built@.subrange(0, t as int).to_multiset(),
            forall|a: int, b: int|
                0 <= a < b < r@.len() ==> key_le(standing_key(#[trigger] r@[a]), standing_key(#[trigger] r@[b])),
        decreases built.len() - t,
    {
        let x = built[t];
        let kx = key_of(&x);
        let mut k: usize = 0;
        while k < r.len()
            invariant
                0 <= k <= r.len(),
                kx.0 as int == standing_key(x).0,
                kx.1 as int == standing_key(x).1,
                forall|q: int| 0 <= q < k ==> key_le(standing_key(#[trigger] r@[q]), standing_key(x)),
            ensures
                0 <= k <= r.len(),
                forall|q: int| 0 <= q < k ==> key_le(standing_key(#[trigger] r@[q]), standing_key(x)),
                k < r.len() ==> !key_le(standing_key(r@[k as int]), standing_key(x)),
            decreases r.len() - k,
        {
            let kq = key_of(&r[k]);
            if kx.0 < kq.0 || (kx.0 == kq.0 && kx.1 < kq.1) {
                break;
            }
            k += 1;
        }
        let ghost old_r = r@;
        r.insert(k, x);
        proof {
            assert(r@ =~= old_r.insert(k as int, x));
            vstd::seq_lib::to_multiset_insert(old_r, k as int, x);
            assert(built@.subrange(0, t + 1) =~= built@.subrange(0, t as int).push(x));
            vstd::seq_lib::to_multiset_build(built@.subrange(0, t as int), x);
            assert forall|a: int, b: int|
                0 <= a < b < r@.len() implies key_le(standing_key(#[trigger] r@[a]), standing_key(#[trigger] r@[b])) by {
                if b < k {
                } else if b == k {
                    assert(r@[a] == old_r[a]);
                } else if a == k {
                    assert(r@[b] == old_r[b - 1]);
                    if b - 1 > k {
                        assert(key_le(standing_key(old_r[k as int]), standing_key(old_r[b - 1])));
                    }
                } else if a < k {
                    assert(r@[a] == old_r[a]);
                    assert(r@[b] == old_r[b - 1]);
                } else {
                    assert(r@[a] == old_r[a - 1]);
                    assert(r@[b] == old_r[b - 1]);
                }
            }
        }
        t += 1;
    }
    proof {
        assert(built@.subrange(0, built@.len() as int) =~= built@);
    }
    r
}

} // verus!

//! Which people may take a job on a service date.

use vstd::prelude::*;
use crate::calendar::{Date, count_sundays_in_month, iso_week_lookup, iso_week_of, sundays_in};
use crate::model::{EngineConfig, HistoryEntry, JobId, Person, PersonId, Unavailability};
use crate::util::contains_id;

verus! {

/// Some interval of the person covers the date.
pub open spec fn unavailable_on(pid: PersonId, date: Date, u: Seq<Unavailability>) -> bool {
    exists|i: int|
        0 <= i < u.len() && u[i].person_id == pid && u[i].start.before_or_on(date)
            && date.before_or_on(u[i].end)
}

/// Whether no unavailability interval of the person covers the date.
pub fn is_available(person_id: PersonId, date: Date, unavailable: &Vec<Unavailability>) -> (r:
    bool)
    ensures
        r == !unavailable_on(person_id, date, unavailable@),
{
    let mut i: usize = 0;
    while i < unavailable.len()
        invariant
            0 <= i <= unavailable.len(),
            forall|k: int|
                0 <= k < i ==> !(unavailable@[k].person_id == person_id
                    && unavailable@[k].start.before_or_on(date) && date.before_or_on(
                    unavailable@[k].end)),
        decreases unavailable.len() - i,
    {
        let u = &unavailable[i];
        if u.person_id == person_id && u.start.le(&date) && date.le(&u.end) {
            return false;
        }
        i += 1;
    }
    true
}

/// The two jobs form an exclusive pair, in either order.
pub open spec fn exclusive(pairs: Seq<(JobId, JobId)>, a: JobId, b: JobId) -> bool {
    exists|i: int| 0 <= i < pairs.len() && (pairs[i] == (a, b) || pairs[i] == (b, a))
}

/// Whether one person may not hold both jobs on the same date.
pub fn are_jobs_exclusive(pairs: &Vec<(JobId, JobId)>, job1: JobId, job2: JobId) -> (r: bool)
    ensures
        r == exclusive(pairs@, job1, job2),
{
    let mut i: usize = 0;
    while i < pairs.len()
        invariant
            0 <= i <= pairs.len(),
            forall|k: int| 0 <= k < i ==> !(pairs@[k] == (job1, job2) || pairs@[k] == (job2, job1)),
        decreases pairs.len() - i,
    {
        let (a, b) = pairs[i];
        if (a == job1 && b == job2) || (a == job2 && b == job1) {
            return true;
        }
        i += 1;
    }
    false
}

/// Whether the job falls under the monthly non-repetition rule.
pub fn has_consecutive_month_restriction(config: &EngineConfig, job_id: JobId) -> (r: bool)
    ensures
        r == config.monthly_restricted@.contains(job_id),
{
    contains_id(&config.monthly_restricted, job_id)
}

/// The person already holds, on this date, a job exclusive with `job`.
pub open spec fn holds_counterpart(
    pairs: Seq<(JobId, JobId)>,
    today: Seq<(PersonId, JobId)>,
    pid: PersonId,
    job: JobId,
) -> bool {
    exists|i: int| 0 <= i < today.len() && today[i].0 == pid && exclusive(pairs, today[i].1, job)
}

/// Whether the person already holds, among `today`, a job exclusive with `job`.
pub fn holds_exclusive_counterpart(
    pairs: &Vec<(JobId, JobId)>,
    today: &Vec<(PersonId, JobId)>,
    person_id: PersonId,
    job_id: JobId,
) -> (r: bool)
    ensures
        r == holds_counterpart(pairs@, today@, person_id, job_id),
{
    let mut i: usize = 0;
    while i < today.len()
        invariant
            0 <= i <= today.len(),
            forall|k: int|
                0 <= k < i ==> !(today@[k].0 == person_id && exclusive(pairs@, today@[k].1, job_id)),
        decreases today.len() - i,
    {
        let (p, j) = today[i];
        if p == person_id && are_jobs_exclusive(pairs, j, job_id) {
            return true;
        }
        i += 1;
    }
    false
}

/// The calendar month before the given one, as (year, month).
pub open spec fn month_before(y: int, m: int) -> (int, int) {
    if m == 1 {
        (y - 1, 12)
    } else {
        (y, m - 1)
    }
}

/// The ledger shows the person in the job during the month before the date's month.
pub open spec fn served_month_before(
    ledger: Seq<HistoryEntry>,
    pid: PersonId,
    job: JobId,
    date: Date,
) -> bool {
    exists|i: int|
        0 <= i < ledger.len() && ledger[i].person_id == pid && ledger[i].job_id == job && (
        ledger[i].service_date.year as int, ledger[i].service_date.month as int) == month_before(
            date.year as int,
            date.month as int,
        )
}

/// Whether the ledger shows the person in the job in the calendar month before `date`'s.
pub fn served_previous_month(
    ledger: &Vec<HistoryEntry>,
    person_id: PersonId,
    job_id: JobId,
    date: Date,
) -> (r: bool)
    ensures
        r == served_month_before(ledger@, person_id, job_id, date),
{
    let py: i64 = if date.month == 1 {
        date.year as i64 - 1
    } else {
        date.year as i64
    };
    let pm: i64 = if date.month == 1 {
        12
    } else {
        date.month as i64 - 1
    };
    let mut i: usize = 0;
    while i < ledger.len()
        invariant
            0 <= i <= ledger.len(),
            (py as int, pm as int) == month_before(date.year as int, date.month as int),
            forall|k: int|
                0 <= k < i ==> !(ledger@[k].person_id == person_id && ledger@[k].job_id == job_id
                    && (ledger@[k].service_date.year as int, ledger@[k].service_date.month as int)
                    == month_before(date.year as int, date.month as int)),
        decreases ledger.len() - i,
    {
        let e = &ledger[i];
        if e.person_id == person_id && e.job_id == job_id && e.service_date.year as i64 == py
            && e.service_date.month as i64 == pm {
            return true;
        }
        i += 1;
    }
    false
}

/// The monthly rule is in force for this job on this date: the job is restricted and
/// the date's month has at most four Sundays.
pub open spec fn monthly_rule_applies(config: EngineConfig, job: JobId, date: Date) -> bool {
    config.monthly_restricted@.contains(job) && sundays_in(date.year as int, date.month as int).len()
        <= 4
}

/// Every rule of the filter, in order: active and qualified, available, no exclusive
/// counterpart held today, and not barred by the monthly rule.
pub open spec fn eligible(
    config: EngineConfig,
    job: JobId,
    date: Date,
    p: Person,
    unavailable: Seq<Unavailability>,
    today: Seq<(PersonId, JobId)>,
    ledger: Seq<HistoryEntry>,
) -> bool {
    &&& p.active
    &&& p.job_ids@.contains(job)
    &&& !unavailable_on(p.id, date, unavailable)
    &&& !holds_counterpart(config.exclusive_pairs@, today, p.id, job)
    &&& !(monthly_rule_applies(config, job, date) && served_month_before(ledger, p.id, job, date))
}

/// The indices, in roster order, of the people who may take `job_id` on `date`.
/// `today` lists the (person, job) pairs already committed on this date.
pub fn eligible_candidates(
    config: &EngineConfig,
    job_id: JobId,
    date: Date,
    people: &Vec<Person>,
    unavailable: &Vec<Unavailability>,
    today: &Vec<(PersonId, JobId)>,
    ledger: &Vec<HistoryEntry>,
) -> (r: Vec<usize>)
    ensures
        forall|k: int| 0 <= k < r@.len() ==> r@[k] < people@.len(),
        forall|a: int, b: int| 0 <= a < b < r@.len() ==> r@[a] < r@[b],
        forall|i: int|
            0 <= i < people@.len() ==> (r@.contains(i as usize) <==> eligible(
                *config,
                job_id,
                date,
                people@[i],
                unavailable@,
                today@,
                ledger@,
            )),
{
    let restricted = has_consecutive_month_restriction(config, job_id);
    let applies = restricted && count_sundays_in_month(date.year, date.month) <= 4;
    let mut r: Vec<usize> = Vec::new();
    let mut i: usize = 0;
    while i < people.len()
        invariant
            0 <= i <= people.len(),
            applies == monthly_rule_applies(*config, job_id, date),
            forall|k: int| 0 <= k < r@.len() ==> r@[k] < i,
            forall|a: int, b: int| 0 <= a < b < r@.len() ==> r@[a] < r@[b],
            forall|x: int|
                0 <= x < i ==> (r@.contains(x as usize) <==> eligible(
                    *config,
                    job_id,
                    date,
                    people@[x],
                    unavailable@,
                    today@,
                    ledger@,
                )),
        decreases people.len() - i,
    {
        let p = &people[i];
        let ok = p.active && contains_id(&p.job_ids, job_id) && is_available(
            p.id,
            date,
            unavailable,
        ) && !holds_exclusive_counterpart(&config.exclusive_pairs, today, p.id, job_id) && !(
        applies && served_previous_month(ledger, p.id, job_id, date));
        let ghost old_r = r@;
        if ok {
            r.push(i);
        }
        proof {
            assert forall|x: int|
                0 <= x <= i implies (r@.contains(x as usize) <==> eligible(
                    *config,
                    job_id,
                    date,
                    people@[x],
                    unavailable@,
                    today@,
                    ledger@,
                )) by {
                if x < i {
                    if r@.contains(x as usize) {
                        let k = choose|k: int| 0 <= k < r@.len() && r@[k] == x as usize;
                        if k < old_r.len() {
                            assert(old_r[k] == x as usize);
                        }
                    }
                    if old_r.contains(x as usize) {
                        let k = choose|k: int| 0 <= k < old_r.len() && old_r[k] == x as usize;
                        assert(r@[k] == x as usize);
                    }
                } else {
                    if ok {
                        assert(r@[r@.len() - 1] == i);
                    } else {
                        assert(!old_r.contains(i));
                    }
                }
            }
        }
        i += 1;
    }
    r
}

/// The ISO (year, week) `i` weeks before (y, w), counting every year as 52 weeks.
pub open spec fn week_back(y: int, w: int, i: int) -> (int, int) {
    if w > i {
        (y, w - i)
    } else {
        (y - 1, 52 + w - i)
    }
}

/// Some recent commitment of the person falls in the given ISO (year, week).
pub open spec fn served_in_week(recent: Seq<(PersonId, Date)>, pid: PersonId, yw: (int, int)) -> bool {
    exists|k: int|
        0 <= k < recent.len() && recent[k].0 == pid && iso_week_lookup(
            recent[k].1.year as int,
            recent[k].1.month as int,
            recent[k].1.day as int,
        ) == Some(yw)
}

/// The person served in each of the `max` weeks right before the date's week.
pub open spec fn at_consecutive_limit(
    recent: Seq<(PersonId, Date)>,
    pid: PersonId,
    date: Date,
    max: int,
) -> bool {
    let found = iso_week_lookup(date.year as int, date.month as int, date.day as int);
    let yw = found->0;
    &&& found is Some
    &&& forall|i: int|
        1 <= i <= max ==> #[trigger] served_in_week(recent, pid, week_back(yw.0, yw.1, i))
}

/// Whether some recent commitment of the person falls in the ISO (year, week).
fn served_in(recent: &Vec<(PersonId, Date)>, person_id: PersonId, year: i64, week: i64) -> (r: bool)
    ensures
        r == served_in_week(recent@, person_id, (year as int, week as int)),
{
    let mut k: usize = 0;
    while k < recent.len()
        invariant
            0 <= k <= recent.len(),
            forall|j: int|
                0 <= j < k ==> !(recent@[j].0 == person_id && iso_week_lookup(
                    recent@[j].1.year as int,
                    recent@[j].1.month as int,
                    recent@[j].1.day as int,
                ) == Some((year as int, week as int))),
        decreases recent.len() - k,
    {
        let (p, d) = recent[k];
        if p == person_id {
            if let Some((y, w)) = iso_week_of(d) {
                if y as i64 == year && w as i64 == week {
                    return true;
                }
            }
        }
        k += 1;
    }
    false
}

/// Whether one more week would stay within the person's limit of consecutive weeks:
/// false when they served in each of the `max_consecutive_weeks` weeks before the
/// date's ISO week (so always false with a limit of 0).
pub fn check_consecutive_weeks(person: &Person, date: Date, recent_assignments: &Vec<(PersonId, Date)>) -> (r:
    bool)
    ensures
        r == !at_consecutive_limit(
            recent_assignments@,
            person.id,
            date,
            person.max_consecutive_weeks as int,
        ),
{
    let (year, week) = match iso_week_of(date) {
        Some(yw) => yw,
        None => {
            return true;
        },
    };
    let max = person.max_consecutive_weeks;
    let mut i: u32 = 1;
    while i <= max
        invariant
            1 <= i,
            i <= max + 1,
            max == person.max_consecutive_weeks,
            iso_week_lookup(date.year as int, date.month as int, date.day as int) == Some(
                (year as int, week as int),
            ),
            forall|j: int|
                1 <= j < i ==> #[trigger] served_in_week(
                    recent_assignments@,
                    person.id,
                    week_back(year as int, week as int, j),
                ),
        decreases max + 1 - i,
    {
        let (cy, cw): (i64, i64) = if week > i {
            (year as i64, week as i64 - i as i64)
        } else {
            (year as i64 - 1, 52 + week as i64 - i as i64)
        };
        assert((cy as int, cw as int) == week_back(year as int, week as int, i as int));
        if !served_in(recent_assignments, person.id, cy, cw) {
            proof {
                let found = iso_week_lookup(date.year as int, date.month as int, date.day as int);
                assert(found->0 == (year as int, week as int));
                assert(!served_in_week(
                    recent_assignments@,
                    person.id,
                    week_back((found->0).0, (found->0).1, i as int),
                ));
            }
            return true;
        }
        if i == max {
            return false;
        }
        i += 1;
    }
    false
}

} // verus!

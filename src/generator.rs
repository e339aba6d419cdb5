//! Draft schedule generation: every Sunday of a month, every job, in order.

use vstd::prelude::*;
use crate::calendar::{Date, sundays_in, sundays_of_month};
use crate::eligibility::{eligible, eligible_candidates, exclusive};
use crate::fairness::{
    CandidateStats, FairnessScore, calculate_all_fairness_scores, candidate_stats, rank_candidates,
    ranks_before, reports_person, stats_for, stats_in_range,
};
use crate::model::{
    Assignment, ConflictType, EngineConfig, HistoryEntry, Job, JobId, PairingRule, Person, PersonId,
    ScheduleConflict, SiblingGroup, Unavailability,
};
use crate::rotation::{
    assign_positions, bag_has, bag_views, current_cycle, cycle_of, fill_order_ok, filled_before,
    position_bag, recent_positions, rotation_ok, unplaced,
};
use crate::siblings::{
    SiblingConstraintResult, check_sibling_constraint, kept_apart, lemma_not_forbidden_apart,
    rule_hit, sibling_status,
};
use crate::util::contains_id;
use crate::edits::draft_consistent;

verus! {

/// The person of a filled slot is someone on the roster qualified for the slot's job.
pub open spec fn qualified_slot(people: Seq<Person>, a: Assignment) -> bool {
    a.person_id matches Some(pid) ==> exists|i: int|
        0 <= i < people.len() && #[trigger] people[i].id == pid && people[i].job_ids@.contains(
            a.job_id,
        )
}

/// No person holds two jobs of an exclusive pair on the same date.
pub open spec fn exclusivity_kept(pairs: Seq<(JobId, JobId)>, asg: Seq<Assignment>) -> bool {
    forall|a: int, b: int|
        0 <= a < asg.len() && 0 <= b < asg.len() && a != b && asg[a].person_id is Some
            && asg[a].person_id == asg[b].person_id && asg[a].service_date == asg[b].service_date
            ==> !exclusive(pairs, #[trigger] asg[a].job_id, #[trigger] asg[b].job_id)
}

/// No two members of a SEPARATE group hold the same job on the same date.
pub open spec fn separation_kept(groups: Seq<SiblingGroup>, asg: Seq<Assignment>) -> bool {
    forall|a: int, b: int|
        0 <= a < asg.len() && 0 <= b < asg.len() && a != b && asg[a].service_date
            == asg[b].service_date && asg[a].job_id == asg[b].job_id && asg[a].person_id is Some
            && asg[b].person_id is Some ==> !kept_apart(
            groups,
            (#[trigger] asg[a]).person_id->0,
            (#[trigger] asg[b]).person_id->0,
        )
}

/// The ledger row that mirrors a filled slot.
pub open spec fn history_row(a: Assignment) -> HistoryEntry {
    HistoryEntry {
        person_id: a.person_id->0,
        job_id: a.job_id,
        service_date: a.service_date,
        position: a.position,
    }
}

/// The ledger rows that mirror the filled slots, in order.
pub open spec fn history_rows(asg: Seq<Assignment>) -> Seq<HistoryEntry>
    decreases asg.len(),
{
    if asg.len() == 0 {
        seq![]
    } else if asg.last().person_id is Some {
        history_rows(asg.drop_last()).push(history_row(asg.last()))
    } else {
        history_rows(asg.drop_last())
    }
}

/// The (person, job) pairs that the filled slots hold, in order.
pub open spec fn holdings(asg: Seq<Assignment>) -> Seq<(PersonId, JobId)>
    decreases asg.len(),
{
    if asg.len() == 0 {
        seq![]
    } else if asg.last().person_id is Some {
        holdings(asg.drop_last()).push((asg.last().person_id->0, asg.last().job_id))
    } else {
        holdings(asg.drop_last())
    }
}

proof fn lemma_mirrors_concat(a: Seq<Assignment>, b: Seq<Assignment>)
    ensures
        holdings(a + b) == holdings(a) + holdings(b),
        history_rows(a + b) == history_rows(a) + history_rows(b),
    decreases b.len(),
{
    if b.len() == 0 {
        assert(a + b =~= a);
        assert(holdings(a) + holdings(b) =~= holdings(a));
        assert(history_rows(a) + history_rows(b) =~= history_rows(a));
    } else {
        lemma_mirrors_concat(a, b.drop_last());
        assert((a + b).drop_last() =~= a + b.drop_last());
        assert((a + b).last() == b.last());
        assert(holdings(a + b) =~= holdings(a) + holdings(b));
        assert(history_rows(a + b) =~= history_rows(a) + history_rows(b));
    }
}

/// A filled slot's (person, job) pair is among the holdings.
proof fn lemma_holding_present(asg: Seq<Assignment>, k: int)
    requires
        0 <= k < asg.len(),
        asg[k].person_id is Some,
    ensures
        holdings(asg).contains((asg[k].person_id->0, asg[k].job_id)),
    decreases asg.len(),
{
    if k == asg.len() - 1 {
        let h = holdings(asg);
        assert(h[h.len() - 1] == (asg[k].person_id->0, asg[k].job_id));
    } else {
        lemma_holding_present(asg.drop_last(), k);
        let h0 = holdings(asg.drop_last());
        let x = (asg[k].person_id->0, asg[k].job_id);
        let j = choose|j: int| 0 <= j < h0.len() && h0[j] == x;
        if asg.last().person_id is Some {
            assert(holdings(asg)[j] == x);
        }
    }
}

proof fn lemma_exclusive_symmetric(pairs: Seq<(JobId, JobId)>, a: JobId, b: JobId)
    requires
        exclusive(pairs, a, b),
    ensures
        exclusive(pairs, b, a),
{
    let i = choose|i: int| 0 <= i < pairs.len() && (pairs[i] == (a, b) || pairs[i] == (b, a));
}

/// Appends a job's slots to the date's slots, and mirrors the filled ones in `today`
/// and the ledger.
fn commit_block(
    asg: &mut Vec<Assignment>,
    today: &mut Vec<(PersonId, JobId)>,
    ledger: &mut Vec<HistoryEntry>,
    block: &Vec<Assignment>,
)
    ensures
        final(asg)@ == old(asg)@ + block@,
        final(today)@ == old(today)@ + holdings(block@),
        final(ledger)@ == old(ledger)@ + history_rows(block@),
{
    let mut k: usize = 0;
    proof {
        assert(block@.subrange(0, 0) =~= Seq::<Assignment>::empty());
        assert(asg@ =~= old(asg)@ + block@.subrange(0, 0));
        assert(today@ =~= old(today)@ + holdings(block@.subrange(0, 0)));
        assert(ledger@ =~= old(ledger)@ + history_rows(block@.subrange(0, 0)));
    }
    while k < block.len()
        invariant
            0 <= k <= block.len(),
            asg@ == old(asg)@ + block@.subrange(0, k as int),
            today@ == old(today)@ + holdings(block@.subrange(0, k as int)),
            ledger@ == old(ledger)@ + history_rows(block@.subrange(0, k as int)),
        decreases block.len() - k,
    {
        let a = block[k];
        let ghost s0 = block@.subrange(0, k as int);
        let ghost s1 = block@.subrange(0, k + 1);
        proof {
            assert(s1.drop_last() =~= s0);
            assert(s1.last() == a);
        }
        asg.push(a);
        if let Some(pid) = a.person_id {
            today.push((pid, a.job_id));
            ledger.push(
                HistoryEntry {
                    person_id: pid,
                    job_id: a.job_id,
                    service_date: a.service_date,
                    position: a.position,
                },
            );
        }
        proof {
            assert(asg@ =~= old(asg)@ + s1);
            assert(today@ =~= old(today)@ + holdings(s1));
            assert(ledger@ =~= old(ledger)@ + history_rows(s1));
        }
        k += 1;
    }
    proof {
        assert(block@.subrange(0, block@.len() as int) =~= block@);
    }
}

/// Selection follows the ranking: with no sibling groups (so nobody is drawn in or
/// barred) and distinct ids on the roster, no eligible person left out ranks before an
/// eligible person who holds a slot.
pub open spec fn picked_by_rank(
    config: EngineConfig,
    job: Job,
    date: Date,
    people: Seq<Person>,
    unavailable: Seq<Unavailability>,
    today: Seq<(PersonId, JobId)>,
    ledger: Seq<HistoryEntry>,
    groups: Seq<SiblingGroup>,
    asg: Seq<Assignment>,
) -> bool {
    (groups.len() == 0 && forall|i: int, j: int| 0 <= i < j < people.len() ==> people[i].id != people[j].id)
        ==> forall|c: int, d: int|
        0 <= c < people.len() && 0 <= d < people.len() && eligible(
            config,
            job.id,
            date,
            people[c],
            unavailable,
            today,
            ledger,
        ) && eligible(config, job.id, date, people[d], unavailable, today, ledger) && #[trigger] holds_slot(
            asg,
            people[c].id,
        ) && !#[trigger] holds_slot(asg, people[d].id) ==> !ranks_before(
            config.fairness,
            stats_for(d as usize, people[d], ledger, date),
            stats_for(c as usize, people[c], ledger, date),
        )
}

/// Whether the ranked list holds a candidate with this id; where it does, its place.
fn find_ranked(ranked: &Vec<CandidateStats>, pid: PersonId) -> (r: Option<usize>)
    ensures
        r matches Some(k) ==> k < ranked@.len() && ranked@[k as int].person_id == pid,
{
    let mut k: usize = 0;
    while k < ranked.len()
        invariant
            0 <= k <= ranked.len(),
        decreases ranked.len() - k,
    {
        if ranked[k].person_id == pid {
            return Some(k);
        }
        k += 1;
    }
    None
}

/// The facts the selection keeps of every person it picked.
pub open spec fn selection_ok(
    config: EngineConfig,
    job: JobId,
    date: Date,
    people: Seq<Person>,
    unavailable: Seq<Unavailability>,
    today: Seq<(PersonId, JobId)>,
    ledger: Seq<HistoryEntry>,
    groups: Seq<SiblingGroup>,
    sel_idx: Seq<usize>,
    sel_ids: Seq<PersonId>,
) -> bool {
    &&& sel_idx.len() == sel_ids.len()
    &&& forall|k: int|
        0 <= k < sel_idx.len() ==> (#[trigger] sel_idx[k]) < people.len() && people[sel_idx[k] as int].id
            == sel_ids[k] && eligible(
            config,
            job,
            date,
            people[sel_idx[k] as int],
            unavailable,
            today,
            ledger,
        )
    &&& forall|a: int, b: int|
        0 <= a < sel_ids.len() && 0 <= b < sel_ids.len() && a != b ==> #[trigger] sel_ids[a]
            != #[trigger] sel_ids[b] && !kept_apart(groups, sel_ids[a], sel_ids[b])
}

/// The candidate is selected, or barred by a SEPARATE sibling who is.
pub open spec fn settled(groups: Seq<SiblingGroup>, pid: PersonId, sel: Seq<PersonId>) -> bool {
    sel.contains(pid) || rule_hit(groups, PairingRule::Separate, pid, sel)
}

proof fn lemma_contains_grows(sel: Seq<PersonId>, pid: PersonId, x: PersonId)
    requires
        sel.contains(pid),
    ensures
        sel.push(x).contains(pid),
{
    let k = choose|k: int| 0 <= k < sel.len() && sel[k] == pid;
    assert(sel.push(x)[k] == pid);
}

/// Being settled survives a longer selection that keeps the old one as a prefix.
proof fn lemma_settled_grows_many(groups: Seq<SiblingGroup>, pid: PersonId, sel: Seq<PersonId>, more: Seq<PersonId>)
    requires
        settled(groups, pid, sel) || (!sel.contains(pid) && sibling_status(groups, pid, sel)
            == SiblingConstraintResult::Forbidden),
        more.len() >= sel.len(),
        more.subrange(0, sel.len() as int) == sel,
    ensures
        settled(groups, pid, more),
{
    assert forall|x: PersonId| sel.contains(x) implies more.contains(x) by {
        let k = choose|k: int| 0 <= k < sel.len() && sel[k] == x;
        assert(more.subrange(0, sel.len() as int)[k] == x);
    }
    if !sel.contains(pid) {
        let g = choose|g: int|
            0 <= g < groups.len() && groups[g].pairing_rule == PairingRule::Separate
                && crate::siblings::fellow_selected(groups[g], pid, sel);
        let m = choose|m: int|
            0 <= m < groups[g].member_ids@.len() && groups[g].member_ids@[m] != pid && sel.contains(
                groups[g].member_ids@[m],
            );
        assert(more.contains(groups[g].member_ids@[m]));
        assert(crate::siblings::fellow_selected(groups[g], pid, more));
    }
}

proof fn lemma_settled_all_grow(
    groups: Seq<SiblingGroup>,
    ranked: Seq<CandidateStats>,
    t: int,
    sel: Seq<PersonId>,
    x: PersonId,
)
    requires
        forall|t2: int| 0 <= t2 < t ==> #[trigger] settled(groups, ranked[t2].person_id, sel),
    ensures
        forall|t2: int| 0 <= t2 < t ==> #[trigger] settled(groups, ranked[t2].person_id, sel.push(x)),
{
    assert forall|t2: int| 0 <= t2 < t implies #[trigger] settled(groups, ranked[t2].person_id, sel.push(x)) by {
        assert(settled(groups, ranked[t2].person_id, sel));
        assert(sel.push(x).subrange(0, sel.len() as int) =~= sel);
        lemma_settled_grows_many(groups, ranked[t2].person_id, sel, sel.push(x));
    }
}

proof fn lemma_kept_apart_symmetric(groups: Seq<SiblingGroup>, a: PersonId, b: PersonId)
    requires
        kept_apart(groups, a, b),
    ensures
        kept_apart(groups, b, a),
{
    let i = choose|i: int|
        0 <= i < groups.len() && groups[i].pairing_rule == PairingRule::Separate
            && groups[i].member_ids@.contains(a) && groups[i].member_ids@.contains(b);
}

/// Adds a person who is eligible, not yet selected and not forbidden to the selection.
fn push_selected(
    sel_idx: &mut Vec<usize>,
    sel_ids: &mut Vec<PersonId>,
    idx: usize,
    pid: PersonId,
    Ghost(config): Ghost<EngineConfig>,
    Ghost(job): Ghost<JobId>,
    Ghost(date): Ghost<Date>,
    Ghost(people): Ghost<Seq<Person>>,
    Ghost(unavailable): Ghost<Seq<Unavailability>>,
    Ghost(today): Ghost<Seq<(PersonId, JobId)>>,
    Ghost(ledger): Ghost<Seq<HistoryEntry>>,
    Ghost(groups): Ghost<Seq<SiblingGroup>>,
)
    requires
        selection_ok(
            config,
            job,
            date,
            people,
            unavailable,
            today,
            ledger,
            groups,
            old(sel_idx)@,
            old(sel_ids)@,
        ),
        idx < people.len(),
        people[idx as int].id == pid,
        eligible(config, job, date, people[idx as int], unavailable, today, ledger),
        !old(sel_ids)@.contains(pid),
        !rule_hit(groups, PairingRule::Separate, pid, old(sel_ids)@),
    ensures
        final(sel_idx)@ == old(sel_idx)@.push(idx),
        final(sel_ids)@ == old(sel_ids)@.push(pid),
        selection_ok(
            config,
            job,
            date,
            people,
            unavailable,
            today,
            ledger,
            groups,
            final(sel_idx)@,
            final(sel_ids)@,
        ),
{
    let ghost before = sel_ids@;
    sel_idx.push(idx);
    sel_ids.push(pid);
    proof {
        let ids = sel_ids@;
        let n = before.len() as int;
        assert forall|a: int, b: int|
            0 <= a < ids.len() && 0 <= b < ids.len() && a != b implies #[trigger] ids[a]
                != #[trigger] ids[b] && !kept_apart(groups, ids[a], ids[b]) by {
            if a == n {
                assert(before.contains(ids[b]));
                lemma_not_forbidden_apart(groups, pid, before, ids[b]);
            } else if b == n {
                assert(before.contains(ids[a]));
                lemma_not_forbidden_apart(groups, pid, before, ids[a]);
                if kept_apart(groups, ids[a], ids[b]) {
                    lemma_kept_apart_symmetric(groups, ids[a], ids[b]);
                }
            } else {
                assert(ids[a] == before[a]);
                assert(ids[b] == before[b]);
            }
        }
        assert forall|k: int| 0 <= k < sel_idx@.len() implies (#[trigger] sel_idx@[k]) < people.len()
            && people[sel_idx@[k] as int].id == sel_ids@[k] && eligible(
            config,
            job,
            date,
            people[sel_idx@[k] as int],
            unavailable,
            today,
            ledger,
        ) by {
            if k < n {
                assert(sel_idx@[k] == old(sel_idx)@[k]);
            }
        }
    }
}

/// Some slot holds the person.
pub open spec fn holds_slot(asg: Seq<Assignment>, pid: PersonId) -> bool {
    exists|k: int| 0 <= k < asg.len() && #[trigger] asg[k].person_id == Some(pid)
}

/// Some slot is still empty.
pub open spec fn has_gap(asg: Seq<Assignment>) -> bool {
    exists|k: int| 0 <= k < asg.len() && (#[trigger] asg[k]).person_id is None
}

/// A SEPARATE group holds the person and someone else who holds a slot.
pub open spec fn barred_by_separate(groups: Seq<SiblingGroup>, pid: PersonId, asg: Seq<Assignment>) -> bool {
    exists|g: int|
        0 <= g < groups.len() && groups[g].pairing_rule == PairingRule::Separate
            && groups[g].member_ids@.contains(pid) && exists|k: int|
            0 <= k < groups[g].member_ids@.len() && groups[g].member_ids@[k] != pid && holds_slot(
                asg,
                #[trigger] groups[g].member_ids@[k],
            )
}

/// The people placed (`sel`) sit at their positions (`pos`), every filled slot holds one
/// of them, and the positions follow the rotation rule over each person's own history
/// of the job in the ledger.
pub open spec fn block_rotation(
    ledger: Seq<HistoryEntry>,
    job: Job,
    asg: Seq<Assignment>,
    sel: Seq<PersonId>,
    pos: Seq<u32>,
    order: Seq<usize>,
) -> bool {
    &&& sel.len() == pos.len()
    &&& forall|s: int|
        0 <= s < sel.len() ==> 1 <= #[trigger] pos[s] <= job.people_required && asg[pos[s] - 1].person_id
            == Some(sel[s])
    &&& forall|k: int|
        0 <= k < asg.len() && (#[trigger] asg[k]).person_id is Some ==> exists|s: int|
            0 <= s < sel.len() && sel[s] == asg[k].person_id->0 && pos[s] == k + 1
    &&& rotation_ok(
        Seq::new(sel.len(), |s: int| cycle_of(recent_positions(ledger, sel[s], job.id))),
        job.people_required as int,
        pos,
        order,
    )
}

/// What a job's slots on one date satisfy: one slot per position 1..=people_required
/// in order, each empty or held by an eligible person; different people, no two of them
/// kept apart; when a slot stays empty, every eligible person either holds a slot or
/// is barred by a SEPARATE sibling who does; and positions follow the rotation rule.
pub open spec fn job_block_ok(
    config: EngineConfig,
    job: Job,
    date: Date,
    people: Seq<Person>,
    unavailable: Seq<Unavailability>,
    today: Seq<(PersonId, JobId)>,
    ledger: Seq<HistoryEntry>,
    groups: Seq<SiblingGroup>,
    asg: Seq<Assignment>,
) -> bool {
    &&& asg.len() == job.people_required
    &&& forall|k: int|
        #![trigger asg[k]]
        0 <= k < asg.len() ==> {
            &&& asg[k].service_date == date
            &&& asg[k].job_id == job.id
            &&& !asg[k].manual_override
            &&& asg[k].position == k + 1
            &&& (asg[k].person_id is Some ==> exists|i: int|
                0 <= i < people.len() && #[trigger] people[i].id == asg[k].person_id->0
                    && eligible(config, job.id, date, people[i], unavailable, today, ledger))
        }
    &&& forall|a: int, b: int|
        0 <= a < asg.len() && 0 <= b < asg.len() && a != b && (#[trigger] asg[a]).person_id is Some
            && (#[trigger] asg[b]).person_id is Some ==> asg[a].person_id != asg[b].person_id
            && !kept_apart(groups, asg[a].person_id->0, asg[b].person_id->0)
    &&& has_gap(asg) ==> forall|i: int|
        0 <= i < people.len() && eligible(config, job.id, date, #[trigger] people[i], unavailable, today, ledger)
            ==> holds_slot(asg, people[i].id) || barred_by_separate(groups, people[i].id, asg)
    &&& exists|sel: Seq<PersonId>, pos: Seq<u32>, order: Seq<usize>|
        #[trigger] block_rotation(ledger, job, asg, sel, pos, order)
}

/// Which month to generate, and an optional name for the schedule.
#[derive(Clone, Debug)]
pub struct GenerateScheduleRequest {
    pub year: i32,
    pub month: u32,
    pub name: Option<String>,
}

/// The slots of one service date.
#[derive(Clone, Debug)]
pub struct DatePlan {
    pub service_date: Date,
    pub assignments: Vec<Assignment>,
}

/// A draft schedule for a month, with its unmet-slot conflicts and the ledger as it
/// stands once the draft's slots are mirrored into it.
#[derive(Clone, Debug)]
pub struct SchedulePreview {
    pub year: i32,
    pub month: u32,
    pub name: Option<String>,
    pub service_dates: Vec<DatePlan>,
    pub conflicts: Vec<ScheduleConflict>,
    pub ledger: Vec<HistoryEntry>,
    /// Everyone's standing once the draft is counted, fewest commitments first.
    pub fairness_scores: Vec<FairnessScore>,
}

/// The ledger rows of every plan, in order.
pub open spec fn plan_rows(plans: Seq<DatePlan>) -> Seq<HistoryEntry>
    decreases plans.len(),
{
    if plans.len() == 0 {
        seq![]
    } else {
        plan_rows(plans.drop_last()) + history_rows(plans.last().assignments@)
    }
}

/// The slots of consecutive blocks, in order.
pub open spec fn flatten_blocks(b: Seq<Seq<Assignment>>) -> Seq<Assignment>
    decreases b.len(),
{
    if b.len() == 0 {
        seq![]
    } else {
        flatten_blocks(b.drop_last()) + b.last()
    }
}

/// The conflict reports a short block of the job on the date.
pub open spec fn conflict_matches(c: ScheduleConflict, date: Date, job: Job) -> bool {
    &&& c.service_date == date
    &&& c.job_id == job.id
    &&& c.conflict_type == ConflictType::InsufficientPeople
    &&& c.filled < c.required
    &&& c.required == job.people_required
}

/// The date's slots are the jobs' blocks in order: each active job's block is what the
/// job's generation fixes given the earlier blocks of the day (as `today` and in the
/// ledger), an inactive job has none; and the new conflicts are, in order, one for each
/// active job whose block has an empty slot (`short` lists those jobs).
pub open spec fn date_plan_witness(
    config: EngineConfig,
    date: Date,
    jobs: Seq<Job>,
    people: Seq<Person>,
    groups: Seq<SiblingGroup>,
    unavailable: Seq<Unavailability>,
    ledger: Seq<HistoryEntry>,
    asg: Seq<Assignment>,
    new_conflicts: Seq<ScheduleConflict>,
    blocks: Seq<Seq<Assignment>>,
    short: Seq<int>,
) -> bool {
    &&& blocks.len() == jobs.len()
    &&& asg == flatten_blocks(blocks)
    &&& forall|ji: int|
        0 <= ji < jobs.len() ==> {
            let before = flatten_blocks(blocks.subrange(0, ji));
            if (#[trigger] jobs[ji]).active {
                job_block_ok(
                    config,
                    jobs[ji],
                    date,
                    people,
                    unavailable,
                    holdings(before),
                    ledger + history_rows(before),
                    groups,
                    blocks[ji],
                )
            } else {
                blocks[ji].len() == 0
            }
        }
    &&& short.len() == new_conflicts.len()
    &&& forall|a: int, b: int| 0 <= a < b < short.len() ==> short[a] < short[b]
    &&& forall|k: int|
        0 <= k < short.len() ==> 0 <= #[trigger] short[k] < jobs.len() && jobs[short[k]].active && has_gap(
            blocks[short[k]],
        ) && conflict_matches(new_conflicts[k], date, jobs[short[k]])
    &&& forall|ji: int|
        0 <= ji < jobs.len() && jobs[ji].active && #[trigger] has_gap(blocks[ji]) ==> exists|k: int|
            0 <= k < short.len() && short[k] == ji
}

pub open spec fn date_planned(
    config: EngineConfig,
    date: Date,
    jobs: Seq<Job>,
    people: Seq<Person>,
    groups: Seq<SiblingGroup>,
    unavailable: Seq<Unavailability>,
    ledger: Seq<HistoryEntry>,
    asg: Seq<Assignment>,
    new_conflicts: Seq<ScheduleConflict>,
) -> bool {
    exists|blocks: Seq<Seq<Assignment>>, short: Seq<int>|
        #[trigger] date_plan_witness(
            config,
            date,
            jobs,
            people,
            groups,
            unavailable,
            ledger,
            asg,
            new_conflicts,
            blocks,
            short,
        )
}

/// The conflicts of consecutive dates, in order.
pub open spec fn flatten_conflicts(cs: Seq<Seq<ScheduleConflict>>) -> Seq<ScheduleConflict>
    decreases cs.len(),
{
    if cs.len() == 0 {
        seq![]
    } else {
        flatten_conflicts(cs.drop_last()) + cs.last()
    }
}

/// Each date's slots and conflicts (`cs`, date by date) are what the date's planning fixes
/// given the ledger as it stood before that date; the conflicts are the dates' in order.
pub open spec fn month_witness(
    config: EngineConfig,
    jobs: Seq<Job>,
    people: Seq<Person>,
    groups: Seq<SiblingGroup>,
    unavailable: Seq<Unavailability>,
    ledger: Seq<HistoryEntry>,
    plans: Seq<DatePlan>,
    conflicts: Seq<ScheduleConflict>,
    cs: Seq<Seq<ScheduleConflict>>,
) -> bool {
    &&& cs.len() == plans.len()
    &&& conflicts == flatten_conflicts(cs)
    &&& forall|i: int|
        0 <= i < plans.len() ==> date_planned(
            config,
            (#[trigger] plans[i]).service_date,
            jobs,
            people,
            groups,
            unavailable,
            ledger + plan_rows(plans.subrange(0, i)),
            plans[i].assignments@,
            cs[i],
        )
}

/// What every date of a generated schedule satisfies.
pub open spec fn plan_ok(
    config: EngineConfig,
    people: Seq<Person>,
    groups: Seq<SiblingGroup>,
    plan: DatePlan,
) -> bool {
    &&& forall|k: int|
        #![trigger plan.assignments@[k]]
        0 <= k < plan.assignments@.len() ==> plan.assignments@[k].service_date == plan.service_date
            && qualified_slot(people, plan.assignments@[k])
    &&& exclusivity_kept(config.exclusive_pairs@, plan.assignments@)
    &&& separation_kept(groups, plan.assignments@)
    &&& slots_distinct(plan.assignments@)
}

/// No two slots share a job and a position.
pub open spec fn slots_distinct(asg: Seq<Assignment>) -> bool {
    forall|a: int, b: int|
        0 <= a < asg.len() && 0 <= b < asg.len() && a != b && (#[trigger] asg[a]).job_id == (
        #[trigger] asg[b]).job_id ==> asg[a].position != asg[b].position
}

/// Generation of draft schedules under one configuration.
pub struct ScheduleGenerator {
    pub config: EngineConfig,
}

impl ScheduleGenerator {
    pub fn new(config: EngineConfig) -> (r: Self)
        ensures
            r.config == config,
    {
        ScheduleGenerator { config }
    }

    /// Fills one job on one date: filter, rank, resolve siblings (TOGETHER siblings
    /// that are eligible and not forbidden join right after the person who draws
    /// them), then rotate positions. `today` lists the (person, job) pairs already
    /// committed on this date; `ledger` is the running history. A shortfall comes
    /// back as a conflict.
    pub fn assign_people_to_job(
        &self,
        job: &Job,
        date: Date,
        people: &Vec<Person>,
        sibling_groups: &Vec<SiblingGroup>,
        unavailable: &Vec<Unavailability>,
        today: &Vec<(PersonId, JobId)>,
        ledger: &Vec<HistoryEntry>,
    ) -> (r: (Vec<Assignment>, Option<ScheduleConflict>))
        requires
            job.people_required < u32::MAX,
        ensures
            job_block_ok(
                self.config,
                *job,
                date,
                people@,
                unavailable@,
                today@,
                ledger@,
                sibling_groups@,
                r.0@,
            ),
            r.1 is Some <==> has_gap(r.0@),
            r.1 matches Some(c) ==> c.service_date == date && c.job_id == job.id && c.conflict_type
                == ConflictType::InsufficientPeople && c.filled < c.required && c.required
                == job.people_required,
            picked_by_rank(self.config, *job, date, people@, unavailable@, today@, ledger@, sibling_groups@, r.0@),
    {
        let ghost cfg = self.config;
        let cands = eligible_candidates(&self.config, job.id, date, people, unavailable, today, ledger);
        let mut stats: Vec<CandidateStats> = Vec::new();
        let mut c: usize = 0;
        while c < cands.len()
            invariant
                0 <= c <= cands.len(),
                stats@.len() == c,
                forall|k: int| 0 <= k < cands@.len() ==> cands@[k] < people@.len(),
                forall|i: int|
                    0 <= i < people@.len() ==> (cands@.contains(i as usize) <==> eligible(
                        cfg,
                        job.id,
                        date,
                        #[trigger] people@[i],
                        unavailable@,
                        today@,
                        ledger@,
                    )),
                forall|k: int| 0 <= k < c ==> (#[trigger] stats@[k]).index == cands@[k],
                forall|k: int|
                    0 <= k < c ==> #[trigger] stats@[k] == stats_for(
                        stats@[k].index,
                        people@[stats@[k].index as int],
                        ledger@,
                        date,
                    ),
                forall|k: int|
                    #![trigger stats@[k]]
                    0 <= k < c ==> stats_in_range(stats@[k]) && stats@[k].index < people@.len()
                        && stats@[k].person_id == people@[stats@[k].index as int].id && eligible(
                        cfg,
                        job.id,
                        date,
                        people@[stats@[k].index as int],
                        unavailable@,
                        today@,
                        ledger@,
                    ),
            decreases cands.len() - c,
        {
            let idx = cands[c];
            proof {
                assert(cands@.contains(idx));
            }
            stats.push(candidate_stats(idx, &people[idx], ledger, date));
            c += 1;
        }
        let ranked = rank_candidates(&stats, self.config.fairness);
        proof {
            assert forall|k: int|
                #![trigger ranked@[k]]
                0 <= k < ranked@.len() implies ranked@[k] == stats_for(
                    ranked@[k].index,
                    people@[ranked@[k].index as int],
                    ledger@,
                    date,
                ) by {
                let x = ranked@[k];
                assert(ranked@.contains(x));
                vstd::seq_lib::to_multiset_contains(ranked@, x);
                vstd::seq_lib::to_multiset_contains(stats@, x);
                let j = choose|j: int| 0 <= j < stats@.len() && stats@[j] == x;
            }
            assert forall|k: int|
                #![trigger ranked@[k]]
                0 <= k < ranked@.len() implies stats_in_range(ranked@[k]) && ranked@[k].index
                    < people@.len() && ranked@[k].person_id == people@[ranked@[k].index as int].id
                    && eligible(
                    cfg,
                    job.id,
                    date,
                    people@[ranked@[k].index as int],
                    unavailable@,
                    today@,
                    ledger@,
                ) by {
                let x = ranked@[k];
                assert(ranked@.contains(x));
                vstd::seq_lib::to_multiset_contains(ranked@, x);
                vstd::seq_lib::to_multiset_contains(stats@, x);
                let j = choose|j: int| 0 <= j < stats@.len() && stats@[j] == x;
            }
        }
        let plen = people.len();
        proof {
            assert forall|i: int|
                0 <= i < people@.len() && eligible(cfg, job.id, date, #[trigger] people@[i], unavailable@, today@, ledger@)
                    implies exists|t: int| 0 <= t < ranked@.len() && ranked@[t].person_id == people@[i].id by {
                assert(cands@.contains(i as usize));
                let k = choose|k: int| 0 <= k < cands@.len() && cands@[k] == i as usize;
                assert(stats@.len() == cands@.len());
                assert(0 <= k < stats@.len());
                let x = stats@[k];
                assert(stats@[k].index == cands@[k]);
                assert(stats@.contains(x));
                vstd::seq_lib::to_multiset_contains(stats@, x);
                vstd::seq_lib::to_multiset_contains(ranked@, x);
                assert(ranked@.contains(x));
                let t = choose|t: int| 0 <= t < ranked@.len() && ranked@[t] == x;
                assert(i < plen);
                assert(x.index == i as usize);
                assert(x.index as int == i);
                assert(stats_in_range(stats@[k]) && stats@[k].person_id == people@[stats@[k].index as int].id);
                assert(x.person_id == people@[i].id);
                assert(ranked@[t].person_id == people@[i].id);
            }
        }
        let need = job.people_required as usize;
        let mut sel_idx: Vec<usize> = Vec::new();
        let mut sel_ids: Vec<PersonId> = Vec::new();
        let mut t: usize = 0;
        while t < ranked.len() && sel_ids.len() < need
            invariant
                0 <= t <= ranked.len(),
                need == job.people_required,
                sel_ids@.len() <= need,
                forall|k: int|
                    #![trigger ranked@[k]]
                    0 <= k < ranked@.len() ==> ranked@[k].index < people@.len()
                        && ranked@[k].person_id == people@[ranked@[k].index as int].id && eligible(
                        cfg,
                        job.id,
                        date,
                        people@[ranked@[k].index as int],
                        unavailable@,
                        today@,
                        ledger@,
                    ),
                selection_ok(
                    cfg,
                    job.id,
                    date,
                    people@,
                    unavailable@,
                    today@,
                    ledger@,
                    sibling_groups@,
                    sel_idx@,
                    sel_ids@,
                ),
                forall|t2: int| 0 <= t2 < t ==> #[trigger] settled(sibling_groups@, ranked@[t2].person_id, sel_ids@),
                sibling_groups@.len() == 0 ==> forall|q: int|
                    0 <= q < sel_ids@.len() ==> exists|t2: int|
                        0 <= t2 < t && ranked@[t2].person_id == #[trigger] sel_ids@[q],
            decreases ranked.len() - t,
        {
            let cand = ranked[t];
            let ghost sel0 = sel_ids@;
            if !contains_id(&sel_ids, cand.person_id) && check_sibling_constraint(
                cand.person_id,
                &sel_ids,
                sibling_groups,
            ) != SiblingConstraintResult::Forbidden {
                push_selected(
                    &mut sel_idx,
                    &mut sel_ids,
                    cand.index,
                    cand.person_id,
                    Ghost(cfg),
                    Ghost(job.id),
                    Ghost(date),
                    Ghost(people@),
                    Ghost(unavailable@),
                    Ghost(today@),
                    Ghost(ledger@),
                    Ghost(sibling_groups@),
                );
                proof {
                    lemma_settled_all_grow(sibling_groups@, ranked@, t as int, sel0, cand.person_id);
                    assert(sel_ids@[sel_ids@.len() - 1] == cand.person_id);
                    assert(sel_ids@.subrange(0, sel0.len() as int) =~= sel0);
                    if sibling_groups@.len() == 0 {
                        assert forall|q: int| 0 <= q < sel_ids@.len() implies exists|t2: int|
                            0 <= t2 < t + 1 && ranked@[t2].person_id == #[trigger] sel_ids@[q] by {
                            if q < sel0.len() {
                                assert(sel_ids@[q] == sel0[q]);
                                let t2 = choose|t2: int| 0 <= t2 < t && ranked@[t2].person_id == sel0[q];
                            } else {
                                assert(ranked@[t as int].person_id == sel_ids@[q]);
                            }
                        }
                    }
                }
                let mut g: usize = 0;
                while g < sibling_groups.len() && sel_ids.len() < need
                    invariant
                        0 <= g <= sibling_groups.len(),
                        need == job.people_required,
                        sel_ids@.len() <= need,
                        forall|k: int|
                            #![trigger ranked@[k]]
                            0 <= k < ranked@.len() ==> ranked@[k].index < people@.len()
                                && ranked@[k].person_id == people@[ranked@[k].index as int].id
                                && eligible(
                                cfg,
                                job.id,
                                date,
                                people@[ranked@[k].index as int],
                                unavailable@,
                                today@,
                                ledger@,
                            ),
                        selection_ok(
                            cfg,
                            job.id,
                            date,
                            people@,
                            unavailable@,
                            today@,
                            ledger@,
                            sibling_groups@,
                            sel_idx@,
                            sel_ids@,
                        ),
                        forall|t2: int| 0 <= t2 < t ==> #[trigger] settled(sibling_groups@, ranked@[t2].person_id, sel_ids@),
                        sel_ids@.contains(cand.person_id),
                        cand == ranked@[t as int],
                        sel_ids@.len() >= sel0.len(),
                        sel_ids@.subrange(0, sel0.len() as int) == sel0,
                        sibling_groups@.len() == 0 ==> forall|q: int|
                            0 <= q < sel_ids@.len() ==> exists|t2: int|
                                0 <= t2 < t + 1 && ranked@[t2].person_id == #[trigger] sel_ids@[q],
                        t < ranked.len(),
                    decreases sibling_groups.len() - g,
                {
                    let group = &sibling_groups[g];
                    if group.pairing_rule == PairingRule::Together && contains_id(
                        &group.member_ids,
                        cand.person_id,
                    ) {
                        let mut m: usize = 0;
                        while m < group.member_ids.len() && sel_ids.len() < need
                            invariant
                                0 <= m <= group.member_ids.len(),
                                need == job.people_required,
                                sel_ids@.len() <= need,
                                forall|k: int|
                                    #![trigger ranked@[k]]
                                    0 <= k < ranked@.len() ==> ranked@[k].index < people@.len()
                                        && ranked@[k].person_id == people@[ranked@[k].index as int].id
                                        && eligible(
                                        cfg,
                                        job.id,
                                        date,
                                        people@[ranked@[k].index as int],
                                        unavailable@,
                                        today@,
                                        ledger@,
                                    ),
                                selection_ok(
                                    cfg,
                                    job.id,
                                    date,
                                    people@,
                                    unavailable@,
                                    today@,
                                    ledger@,
                                    sibling_groups@,
                                    sel_idx@,
                                    sel_ids@,
                                ),
                                forall|t2: int| 0 <= t2 < t ==> #[trigger] settled(sibling_groups@, ranked@[t2].person_id, sel_ids@),
                                sel_ids@.contains(cand.person_id),
                                cand == ranked@[t as int],
                                g < sibling_groups@.len(),
                                sel_ids@.len() >= sel0.len(),
                                sel_ids@.subrange(0, sel0.len() as int) == sel0,
                                sibling_groups@.len() == 0 ==> forall|q: int|
                                    0 <= q < sel_ids@.len() ==> exists|t2: int|
                                        0 <= t2 < t + 1 && ranked@[t2].person_id == #[trigger] sel_ids@[q],
                                t < ranked.len(),
                            decreases group.member_ids.len() - m,
                        {
                            let sib = group.member_ids[m];
                            if !contains_id(&sel_ids, sib) {
                                let ghost old_sel = sel_ids@;
                                if let Some(at) = find_ranked(&ranked, sib) {
                                    if check_sibling_constraint(sib, &sel_ids, sibling_groups)
                                        != SiblingConstraintResult::Forbidden {
                                        push_selected(
                                            &mut sel_idx,
                                            &mut sel_ids,
                                            ranked[at].index,
                                            sib,
                                            Ghost(cfg),
                                            Ghost(job.id),
                                            Ghost(date),
                                            Ghost(people@),
                                            Ghost(unavailable@),
                                            Ghost(today@),
                                            Ghost(ledger@),
                                            Ghost(sibling_groups@),
                                        );
                                        proof {
                                            lemma_settled_all_grow(sibling_groups@, ranked@, t as int, old_sel, sib);
                                            lemma_contains_grows(old_sel, cand.person_id, sib);
                                            assert(sel_ids@.subrange(0, sel0.len() as int) =~= old_sel.subrange(0, sel0.len() as int));
                                        }
                                    }
                                }
                            }
                            m += 1;
                        }
                    }
                    g += 1;
                }
            }
            proof {
                if sel_ids@.len() == sel0.len() {
                    assert(sel_ids@.subrange(0, sel0.len() as int) =~= sel0);
                }
                assert(sel_ids@.len() >= sel0.len() && sel_ids@.subrange(0, sel0.len() as int) == sel0);
                assert(settled(sibling_groups@, ranked@[t as int].person_id, sel_ids@)) by {
                    if !sel0.contains(cand.person_id) && sibling_status(sibling_groups@, cand.person_id, sel0)
                        == SiblingConstraintResult::Forbidden {
                        lemma_settled_grows_many(sibling_groups@, cand.person_id, sel0, sel_ids@);
                    } else if sel0.contains(cand.person_id) {
                        lemma_settled_grows_many(sibling_groups@, cand.person_id, sel0, sel_ids@);
                    }
                }
            }
            t += 1;
        }
        proof {
            assert forall|i: int|
                0 <= i < people@.len() && eligible(cfg, job.id, date, #[trigger] people@[i], unavailable@, today@, ledger@)
                    && sel_ids@.len() < need implies sel_ids@.contains(people@[i].id) || rule_hit(
                sibling_groups@,
                PairingRule::Separate,
                people@[i].id,
                sel_ids@,
            ) by {
                let t2 = choose|t2: int| 0 <= t2 < ranked@.len() && ranked@[t2].person_id == people@[i].id;
                assert(settled(sibling_groups@, ranked@[t2].person_id, sel_ids@));
            }
        }
        let r = self.place_selected(job, date, &sel_ids, ledger, Ghost(sel_idx@), Ghost(people@),
            Ghost(unavailable@), Ghost(today@), Ghost(sibling_groups@));
        proof {
            if sibling_groups@.len() == 0 && forall|i: int, j: int|
                0 <= i < j < people@.len() ==> people@[i].id != people@[j].id {
                assert forall|c: int, d: int|
                    0 <= c < people@.len() && 0 <= d < people@.len() && eligible(
                        cfg,
                        job.id,
                        date,
                        people@[c],
                        unavailable@,
                        today@,
                        ledger@,
                    ) && eligible(cfg, job.id, date, people@[d], unavailable@, today@, ledger@)
                        && #[trigger] holds_slot(r.0@, people@[c].id) && !#[trigger] holds_slot(
                        r.0@,
                        people@[d].id,
                    ) implies !ranks_before(
                    cfg.fairness,
                    stats_for(d as usize, people@[d], ledger@, date),
                    stats_for(c as usize, people@[c], ledger@, date),
                ) by {
                    let idc = people@[c].id;
                    let idd = people@[d].id;
                    assert(sel_ids@.contains(idc));
                    assert(!sel_ids@.contains(idd));
                    let q = choose|q: int| 0 <= q < sel_ids@.len() && sel_ids@[q] == idc;
                    let tc = choose|t2: int| 0 <= t2 < t && ranked@[t2].person_id == sel_ids@[q];
                    let td = choose|t2: int| 0 <= t2 < ranked@.len() && ranked@[t2].person_id == idd;
                    if td < t {
                        assert(settled(sibling_groups@, ranked@[td].person_id, sel_ids@));
                        assert(!rule_hit(sibling_groups@, PairingRule::Separate, idd, sel_ids@));
                    }
                    assert(tc < td);
                    let ic = ranked@[tc].index as int;
                    let id_ = ranked@[td].index as int;
                    assert(people@[ic].id == idc);
                    assert(people@[id_].id == idd);
                    if ic != c {
                        if ic < c {
                            assert(people@[ic].id != people@[c].id);
                        } else {
                            assert(people@[c].id != people@[ic].id);
                        }
                    }
                    if id_ != d {
                        if id_ < d {
                            assert(people@[id_].id != people@[d].id);
                        } else {
                            assert(people@[d].id != people@[id_].id);
                        }
                    }
                    assert(ranked@[tc] == stats_for(c as usize, people@[c], ledger@, date));
                    assert(ranked@[td] == stats_for(d as usize, people@[d], ledger@, date));
                }
            }
        }
        r
    }


    /// Fills every active job on one date, in order. Each job sees who already holds a job on
    /// this date, and the ledger grows by the rows that mirror the new filled slots; each
    /// short job adds one conflict.
    pub fn plan_date(
        &self,
        date: Date,
        jobs: &Vec<Job>,
        people: &Vec<Person>,
        sibling_groups: &Vec<SiblingGroup>,
        unavailable: &Vec<Unavailability>,
        ledger: &mut Vec<HistoryEntry>,
        conflicts: &mut Vec<ScheduleConflict>,
    ) -> (r: Vec<Assignment>)
        requires
            forall|i: int| 0 <= i < jobs@.len() ==> (#[trigger] jobs@[i]).people_required < u32::MAX,
            forall|i: int, j: int|
                0 <= i < j < jobs@.len() ==> (#[trigger] jobs@[i]).id != (#[trigger] jobs@[j]).id,
        ensures
            forall|k: int|
                #![trigger r@[k]]
                0 <= k < r@.len() ==> r@[k].service_date == date && qualified_slot(people@, r@[k]),
            exclusivity_kept(self.config.exclusive_pairs@, r@),
            separation_kept(sibling_groups@, r@),
            slots_distinct(r@),
            final(ledger)@ == old(ledger)@ + history_rows(r@),
            final(conflicts)@.len() >= old(conflicts)@.len(),
            final(conflicts)@.subrange(0, old(conflicts)@.len() as int) == old(conflicts)@,
            date_planned(
                self.config,
                date,
                jobs@,
                people@,
                sibling_groups@,
                unavailable@,
                old(ledger)@,
                r@,
                final(conflicts)@.subrange(old(conflicts)@.len() as int, final(conflicts)@.len() as int),
            ),
    {
        let ghost cfg = self.config;
        let ghost led0 = ledger@;
        let ghost con0 = conflicts@;
        let mut asg: Vec<Assignment> = Vec::new();
        let mut today: Vec<(PersonId, JobId)> = Vec::new();
        let ghost mut blocks: Seq<Seq<Assignment>> = seq![];
        let ghost mut short: Seq<int> = seq![];
        let ghost mut nc: Seq<ScheduleConflict> = seq![];
        let mut ji: usize = 0;
        proof {
            assert(asg@ =~= flatten_blocks(blocks));
            assert(today@ =~= holdings(asg@));
            assert(ledger@ =~= led0 + history_rows(asg@));
            assert(conflicts@ =~= con0 + nc);
        }
        while ji < jobs.len()
            invariant
                0 <= ji <= jobs.len(),
                cfg == self.config,
                forall|i: int| 0 <= i < jobs@.len() ==> (#[trigger] jobs@[i]).people_required < u32::MAX,
                forall|i: int, j: int|
                    0 <= i < j < jobs@.len() ==> (#[trigger] jobs@[i]).id != (#[trigger] jobs@[j]).id,
                today@ == holdings(asg@),
                ledger@ == led0 + history_rows(asg@),
                conflicts@ == con0 + nc,
                blocks.len() == ji,
                asg@ == flatten_blocks(blocks),
                forall|q: int|
                    0 <= q < ji ==> {
                        let before = flatten_blocks(blocks.subrange(0, q));
                        if (#[trigger] jobs@[q]).active {
                            job_block_ok(
                                cfg,
                                jobs@[q],
                                date,
                                people@,
                                unavailable@,
                                holdings(before),
                                led0 + history_rows(before),
                                sibling_groups@,
                                blocks[q],
                            )
                        } else {
                            blocks[q].len() == 0
                        }
                    },
                short.len() == nc.len(),
                forall|a: int, b: int| 0 <= a < b < short.len() ==> short[a] < short[b],
                forall|k: int|
                    0 <= k < short.len() ==> 0 <= #[trigger] short[k] < ji && jobs@[short[k]].active
                        && has_gap(blocks[short[k]]) && conflict_matches(nc[k], date, jobs@[short[k]]),
                forall|q: int|
                    0 <= q < ji && jobs@[q].active && #[trigger] has_gap(blocks[q]) ==> exists|k: int|
                        0 <= k < short.len() && short[k] == q,
                forall|k: int|
                    #![trigger asg@[k]]
                    0 <= k < asg@.len() ==> asg@[k].service_date == date && qualified_slot(people@, asg@[k])
                        && exists|q: int| 0 <= q < ji && asg@[k].job_id == (#[trigger] jobs@[q]).id,
                exclusivity_kept(cfg.exclusive_pairs@, asg@),
                separation_kept(sibling_groups@, asg@),
                slots_distinct(asg@),
            decreases jobs.len() - ji,
        {
            let job = &jobs[ji];
            let ghost before = asg@;
            let ghost today0 = today@;
            let ghost ledger0 = ledger@;
            let ghost blocks0 = blocks;
            let ghost short0 = short;
            if job.active {
                let (block, conflict) = self.assign_people_to_job(
                    job,
                    date,
                    people,
                    sibling_groups,
                    unavailable,
                    &today,
                    ledger,
                );
                commit_block(&mut asg, &mut today, ledger, &block);
                proof {
                    blocks = blocks.push(block@);
                }
                if let Some(c) = conflict {
                    conflicts.push(c);
                    proof {
                        nc = nc.push(c);
                        short = short.push(ji as int);
                    }
                }
                proof {
                    let n0 = before.len() as int;
                    lemma_mirrors_concat(before, block@);
                    assert(blocks.drop_last() =~= blocks0);
                    assert(asg@ == flatten_blocks(blocks));
                    assert(conflicts@ =~= con0 + nc);
                    assert(ledger@ =~= led0 + history_rows(asg@));
                    assert forall|q: int|
                        0 <= q < ji + 1 implies {
                            let bf = flatten_blocks(blocks.subrange(0, q));
                            if (#[trigger] jobs@[q]).active {
                                job_block_ok(
                                    cfg,
                                    jobs@[q],
                                    date,
                                    people@,
                                    unavailable@,
                                    holdings(bf),
                                    led0 + history_rows(bf),
                                    sibling_groups@,
                                    blocks[q],
                                )
                            } else {
                                blocks[q].len() == 0
                            }
                        } by {
                        if q < ji {
                            assert(blocks.subrange(0, q) =~= blocks0.subrange(0, q));
                            assert(blocks[q] == blocks0[q]);
                        } else {
                            assert(blocks.subrange(0, q) =~= blocks0);
                            assert(blocks[q] == block@);
                        }
                    }
                    assert forall|k: int|
                        0 <= k < short.len() implies 0 <= #[trigger] short[k] < ji + 1 && jobs@[short[k]].active
                            && has_gap(blocks[short[k]]) && conflict_matches(nc[k], date, jobs@[short[k]]) by {
                        if short[k] < ji {
                            assert(blocks[short[k]] == blocks0[short[k]]);
                        }
                    }
                    assert forall|q: int|
                        0 <= q < ji + 1 && jobs@[q].active && #[trigger] has_gap(blocks[q]) implies exists|k: int|
                            0 <= k < short.len() && short[k] == q by {
                        if q < ji {
                            assert(blocks[q] == blocks0[q]);
                            assert(has_gap(blocks0[q]));
                            let k = choose|k: int| 0 <= k < short0.len() && short0[k] == q;
                            assert(short[k] == q);
                        } else {
                            assert(short[short.len() - 1] == q);
                        }
                    }
                    assert forall|k: int|
                        #![trigger asg@[k]]
                        0 <= k < asg@.len() implies asg@[k].service_date == date && qualified_slot(people@, asg@[k])
                            && exists|q: int| 0 <= q < ji + 1 && asg@[k].job_id == (#[trigger] jobs@[q]).id by {
                        if k < n0 {
                            assert(asg@[k] == before[k]);
                            let q = choose|q: int| 0 <= q < ji && before[k].job_id == (#[trigger] jobs@[q]).id;
                            assert(0 <= q < ji + 1 && asg@[k].job_id == jobs@[q].id);
                        } else {
                            let b = block@[k - n0];
                            assert(asg@[k] == b);
                            if b.person_id is Some {
                                let i = choose|i: int|
                                    0 <= i < people@.len() && #[trigger] people@[i].id == b.person_id->0
                                        && eligible(cfg, job.id, date, people@[i], unavailable@, today0, ledger0);
                                assert(people@[i].job_ids@.contains(b.job_id));
                            }
                            assert(asg@[k].job_id == jobs@[ji as int].id);
                        }
                    }
                    assert forall|a: int, b: int|
                        0 <= a < asg@.len() && 0 <= b < asg@.len() && a != b && asg@[a].person_id is Some
                            && asg@[a].person_id == asg@[b].person_id && asg@[a].service_date
                            == asg@[b].service_date implies !exclusive(
                        cfg.exclusive_pairs@,
                        #[trigger] asg@[a].job_id,
                        #[trigger] asg@[b].job_id,
                    ) by {
                        if a < n0 && b < n0 {
                            assert(asg@[a] == before[a] && asg@[b] == before[b]);
                        } else if a >= n0 && b >= n0 {
                            assert(asg@[a] == block@[a - n0] && asg@[b] == block@[b - n0]);
                        } else {
                            let (o, w) = if a < n0 { (a, b) } else { (b, a) };
                            let nb = asg@[w];
                            assert(nb == block@[w - n0]);
                            let pid = nb.person_id->0;
                            let i = choose|i: int|
                                0 <= i < people@.len() && #[trigger] people@[i].id == pid
                                    && eligible(cfg, job.id, date, people@[i], unavailable@, today0, ledger0);
                            assert(asg@[o] == before[o]);
                            lemma_holding_present(before, o);
                            let x = (before[o].person_id->0, before[o].job_id);
                            let kk = choose|kk: int| 0 <= kk < today0.len() && today0[kk] == x;
                            assert(!exclusive(cfg.exclusive_pairs@, today0[kk].1, job.id));
                            if exclusive(cfg.exclusive_pairs@, job.id, today0[kk].1) {
                                lemma_exclusive_symmetric(cfg.exclusive_pairs@, job.id, today0[kk].1);
                            }
                        }
                    }
                    assert forall|a: int, b: int|
                        0 <= a < asg@.len() && 0 <= b < asg@.len() && a != b && asg@[a].service_date
                            == asg@[b].service_date && asg@[a].job_id == asg@[b].job_id
                            && asg@[a].person_id is Some && asg@[b].person_id is Some implies !kept_apart(
                        sibling_groups@,
                        (#[trigger] asg@[a]).person_id->0,
                        (#[trigger] asg@[b]).person_id->0,
                    ) by {
                        if a < n0 && b < n0 {
                            assert(asg@[a] == before[a] && asg@[b] == before[b]);
                        } else if a >= n0 && b >= n0 {
                            assert(asg@[a] == block@[a - n0] && asg@[b] == block@[b - n0]);
                        } else {
                            let (o, w) = if a < n0 { (a, b) } else { (b, a) };
                            assert(asg@[o] == before[o]);
                            assert(asg@[w] == block@[w - n0]);
                            let q = choose|q: int| 0 <= q < ji && before[o].job_id == (#[trigger] jobs@[q]).id;
                            assert(jobs@[q].id != jobs@[ji as int].id);
                        }
                    }
                    assert forall|a: int, b: int|
                        0 <= a < asg@.len() && 0 <= b < asg@.len() && a != b && (#[trigger] asg@[a]).job_id == (
                        #[trigger] asg@[b]).job_id implies asg@[a].position != asg@[b].position by {
                        if a < n0 && b < n0 {
                            assert(asg@[a] == before[a] && asg@[b] == before[b]);
                        } else if a >= n0 && b >= n0 {
                            assert(asg@[a] == block@[a - n0] && asg@[b] == block@[b - n0]);
                        } else {
                            let (o, w) = if a < n0 { (a, b) } else { (b, a) };
                            assert(asg@[o] == before[o]);
                            assert(asg@[w] == block@[w - n0]);
                            let q = choose|q: int| 0 <= q < ji && before[o].job_id == (#[trigger] jobs@[q]).id;
                            assert(jobs@[q].id != jobs@[ji as int].id);
                        }
                    }
                }
            } else {
                proof {
                    blocks = blocks.push(seq![]);
                    assert(blocks.drop_last() =~= blocks0);
                    assert(flatten_blocks(blocks) =~= flatten_blocks(blocks0) + Seq::<Assignment>::empty());
                    assert(asg@ == flatten_blocks(blocks));
                    assert forall|q: int|
                        0 <= q < ji + 1 implies {
                            let bf = flatten_blocks(blocks.subrange(0, q));
                            if (#[trigger] jobs@[q]).active {
                                job_block_ok(
                                    cfg,
                                    jobs@[q],
                                    date,
                                    people@,
                                    unavailable@,
                                    holdings(bf),
                                    led0 + history_rows(bf),
                                    sibling_groups@,
                                    blocks[q],
                                )
                            } else {
                                blocks[q].len() == 0
                            }
                        } by {
                        if q < ji {
                            assert(blocks.subrange(0, q) =~= blocks0.subrange(0, q));
                            assert(blocks[q] == blocks0[q]);
                        }
                    }
                    assert forall|k: int|
                        0 <= k < short.len() implies 0 <= #[trigger] short[k] < ji + 1 && jobs@[short[k]].active
                            && has_gap(blocks[short[k]]) && conflict_matches(nc[k], date, jobs@[short[k]]) by {
                        assert(blocks[short[k]] == blocks0[short[k]]);
                    }
                    assert forall|q: int|
                        0 <= q < ji + 1 && jobs@[q].active && #[trigger] has_gap(blocks[q]) implies exists|k: int|
                            0 <= k < short.len() && short[k] == q by {
                        assert(blocks[q] == blocks0[q]);
                        assert(has_gap(blocks0[q]));
                    }
                    assert forall|k: int|
                        #![trigger asg@[k]]
                        0 <= k < asg@.len() implies asg@[k].service_date == date && qualified_slot(people@, asg@[k])
                            && exists|q: int| 0 <= q < ji + 1 && asg@[k].job_id == (#[trigger] jobs@[q]).id by {
                        let q = choose|q: int| 0 <= q < ji && asg@[k].job_id == (#[trigger] jobs@[q]).id;
                        assert(0 <= q < ji + 1);
                    }
                }
            }
            ji += 1;
        }
        proof {
            assert(conflicts@.subrange(0, con0.len() as int) =~= con0);
            assert(conflicts@.subrange(con0.len() as int, conflicts@.len() as int) =~= nc);
            assert(date_plan_witness(
                cfg,
                date,
                jobs@,
                people@,
                sibling_groups@,
                unavailable@,
                led0,
                asg@,
                nc,
                blocks,
                short,
            ));
        }
        asg
    }

    /// Builds the draft for every Sunday of the month, dates in order and jobs in order
    /// on each date; later dates see the slots of earlier ones through the ledger. The
    /// ledger is in commit order, oldest first: rotation reads a person's latest
    /// positions from its end, and new rows are appended.
    #[verifier::rlimit(100)]
    #[verifier::spinoff_prover]
    pub fn generate(
        &self,
        request: GenerateScheduleRequest,
        jobs: &Vec<Job>,
        people: &Vec<Person>,
        sibling_groups: &Vec<SiblingGroup>,
        unavailable: &Vec<Unavailability>,
        ledger: Vec<HistoryEntry>,
    ) -> (r: SchedulePreview)
        requires
            forall|i: int| 0 <= i < jobs@.len() ==> (#[trigger] jobs@[i]).people_required < u32::MAX,
            forall|i: int, j: int|
                0 <= i < j < jobs@.len() ==> (#[trigger] jobs@[i]).id != (#[trigger] jobs@[j]).id,
        ensures
            r.year == request.year,
            r.month == request.month,
            r.service_dates@.len() == sundays_in(request.year as int, request.month as int).len(),
            forall|i: int|
                #![trigger r.service_dates@[i]]
                0 <= i < r.service_dates@.len() ==> r.service_dates@[i].service_date == sundays_in(
                    request.year as int,
                    request.month as int,
                )[i] && plan_ok(self.config, people@, sibling_groups@, r.service_dates@[i]),
            forall|i: int, j: int|
                0 <= i < j < r.service_dates@.len() ==> (#[trigger] r.service_dates@[i]).service_date
                    != (#[trigger] r.service_dates@[j]).service_date,
            r.ledger@ == ledger@ + plan_rows(r.service_dates@),
            exists|cs: Seq<Seq<ScheduleConflict>>|
                #[trigger] month_witness(
                    self.config,
                    jobs@,
                    people@,
                    sibling_groups@,
                    unavailable@,
                    ledger@,
                    r.service_dates@,
                    r.conflicts@,
                    cs,
                ),
    {
        let year = request.year;
        let month = request.month;
        let sundays = sundays_of_month(year, month);
        let mut running = ledger;
        let mut plans: Vec<DatePlan> = Vec::new();
        let mut conflicts: Vec<ScheduleConflict> = Vec::new();
        let ghost start = running@;
        assert(start == ledger@);
        let ghost mut cs: Seq<Seq<ScheduleConflict>> = seq![];
        proof {
            assert(running@ =~= start + plan_rows(plans@));
            assert(conflicts@ =~= flatten_conflicts(cs));
        }
        let mut d: usize = 0;
        while d < sundays.len()
            invariant
                0 <= d <= sundays.len(),
                sundays@ == sundays_in(year as int, month as int),
                forall|i: int| 0 <= i < jobs@.len() ==> (#[trigger] jobs@[i]).people_required < u32::MAX,
                forall|i: int, j: int|
                    0 <= i < j < jobs@.len() ==> (#[trigger] jobs@[i]).id != (#[trigger] jobs@[j]).id,
                plans@.len() == d,
                forall|i: int|
                    #![trigger plans@[i]]
                    0 <= i < d ==> plans@[i].service_date == sundays@[i] && plan_ok(
                        self.config,
                        people@,
                        sibling_groups@,
                        plans@[i],
                    ),
                running@ == start + plan_rows(plans@),
                forall|a: int, b: int| 0 <= a < b < sundays@.len() ==> sundays@[a].day < sundays@[b].day,
                cs.len() == d,
                conflicts@ == flatten_conflicts(cs),
                forall|i: int|
                    0 <= i < d ==> date_planned(
                        self.config,
                        (#[trigger] plans@[i]).service_date,
                        jobs@,
                        people@,
                        sibling_groups@,
                        unavailable@,
                        start + plan_rows(plans@.subrange(0, i)),
                        plans@[i].assignments@,
                        cs[i],
                    ),
            decreases sundays.len() - d,
        {
            let date = sundays[d];
            let ghost before = running@;
            let ghost con_before = conflicts@;
            let ghost cs0 = cs;
            let assignments = self.plan_date(
                date,
                jobs,
                people,
                sibling_groups,
                unavailable,
                &mut running,
                &mut conflicts,
            );
            let ghost old_plans = plans@;
            plans.push(DatePlan { service_date: date, assignments });
            proof {
                assert(plans@.drop_last() =~= old_plans);
                assert(running@ =~= start + plan_rows(plans@));
                let fresh = conflicts@.subrange(con_before.len() as int, conflicts@.len() as int);
                cs = cs.push(fresh);
                assert(cs.drop_last() =~= cs0);
                assert(conflicts@ =~= con_before + fresh);
                assert(conflicts@ == flatten_conflicts(cs));
                assert forall|i: int|
                    0 <= i < d + 1 implies date_planned(
                        self.config,
                        (#[trigger] plans@[i]).service_date,
                        jobs@,
                        people@,
                        sibling_groups@,
                        unavailable@,
                        start + plan_rows(plans@.subrange(0, i)),
                        plans@[i].assignments@,
                        cs[i],
                    ) by {
                    if i < d {
                        assert(plans@.subrange(0, i) =~= old_plans.subrange(0, i));
                        assert(plans@[i] == old_plans[i]);
                        assert(cs[i] == cs0[i]);
                    } else {
                        assert(plans@.subrange(0, i) =~= old_plans);
                    }
                }
            }
            d += 1;
        }
        proof {
            assert forall|i: int, j: int|
                0 <= i < j < plans@.len() implies (#[trigger] plans@[i]).service_date
                    != (#[trigger] plans@[j]).service_date by {
                assert(sundays@[i].day < sundays@[j].day);
            }
            assert forall|i: int, j: int|
                0 <= i < plans@.len() && 0 <= j < plans@.len() && i != j implies (#[trigger] plans@[i]).service_date
                    != (#[trigger] plans@[j]).service_date by {
                if i < j {
                    assert(sundays@[i].day < sundays@[j].day);
                } else {
                    assert(sundays@[j].day < sundays@[i].day);
                }
            }
            assert forall|i: int, k: int|
                0 <= i < plans@.len() && 0 <= k < plans@[i].assignments@.len() implies (#[trigger] plans@[i].assignments@[k]).service_date
                    == plans@[i].service_date by {
                assert(plan_ok(self.config, people@, sibling_groups@, plans@[i]));
            }
            assert forall|i: int| 0 <= i < plans@.len() implies slots_distinct(#[trigger] plans@[i].assignments@) by {
                assert(plan_ok(self.config, people@, sibling_groups@, plans@[i]));
            }
        }
        proof {
            assert(plans@.len() == d);
            assert(month_witness(
                self.config,
                jobs@,
                people@,
                sibling_groups@,
                unavailable@,
                start,
                plans@,
                conflicts@,
                cs,
            ));
        }
        let fairness_scores = calculate_all_fairness_scores(people, &running, year);
        let ghost plans_v = plans@;
        let ghost conflicts_v = conflicts@;
        let r = SchedulePreview {
            year,
            month,
            name: request.name,
            service_dates: plans,
            conflicts,
            ledger: running,
            fairness_scores,
        };
        proof {
            assert(r.service_dates@ == plans_v);
            assert(r.conflicts@ == conflicts_v);
            assert(month_witness(
                self.config,
                jobs@,
                people@,
                sibling_groups@,
                unavailable@,
                ledger@,
                r.service_dates@,
                r.conflicts@,
                cs,
            ));
        }
        r
    }

    /// The positions a person held in a job, most recent first.
    pub fn get_position_history_per_job(
            &self,
            ledger: &Vec<HistoryEntry>,
            person_id: PersonId,
            job_id: JobId,
        ) -> (r: Vec<u32>)
        ensures
            r@ == recent_positions(ledger@, person_id, job_id),
    {
        let mut r: Vec<u32> = Vec::new();
        let mut i: usize = ledger.len();
        proof {
            assert(ledger@.subrange(0, ledger@.len() as int) =~= ledger@);
            let ghost all = recent_positions(ledger@, person_id, job_id);
            assert(r@ + all =~= all);
        }
        while i > 0
            invariant
                0 <= i <= ledger.len(),
                recent_positions(ledger@, person_id, job_id) == r@ + recent_positions(
                    ledger@.subrange(0, i as int),
                    person_id,
                    job_id,
                ),
            decreases i,
        {
            proof {
                assert(ledger@.subrange(0, i as int).drop_last() =~= ledger@.subrange(0, i - 1));
            }
            let e = &ledger[i - 1];
            if e.person_id == person_id && e.job_id == job_id {
                r.push(e.position);
                proof {
                    let ghost rest = recent_positions(ledger@.subrange(0, i - 1), person_id, job_id);
                    assert(r@ + rest =~= r@.drop_last() + (seq![e.position] + rest));
                }
            }
            i -= 1;
        }
        proof {
            assert(ledger@.subrange(0, 0) =~= Seq::<HistoryEntry>::empty());
            assert(r@ + Seq::<u32>::empty() =~= r@);
        }
        r
    }

    /// Gives the selected people their positions, lays out one slot per position with
    /// the empty ones as `None`, and reports a shortfall.
    fn place_selected(
        &self,
        job: &Job,
        date: Date,
        sel_ids: &Vec<PersonId>,
        ledger: &Vec<HistoryEntry>,
        Ghost(sel_idx): Ghost<Seq<usize>>,
        Ghost(people): Ghost<Seq<Person>>,
        Ghost(unavailable): Ghost<Seq<Unavailability>>,
        Ghost(today): Ghost<Seq<(PersonId, JobId)>>,
        Ghost(groups): Ghost<Seq<SiblingGroup>>,
    ) -> (r: (Vec<Assignment>, Option<ScheduleConflict>))
        requires
            job.people_required < u32::MAX,
            sel_ids@.len() <= job.people_required,
            selection_ok(
                self.config,
                job.id,
                date,
                people,
                unavailable,
                today,
                ledger@,
                groups,
                sel_idx,
                sel_ids@,
            ),
            sel_ids@.len() < job.people_required ==> forall|i: int|
                0 <= i < people.len() && eligible(
                    self.config,
                    job.id,
                    date,
                    #[trigger] people[i],
                    unavailable,
                    today,
                    ledger@,
                ) ==> sel_ids@.contains(people[i].id) || rule_hit(
                    groups,
                    PairingRule::Separate,
                    people[i].id,
                    sel_ids@,
                ),
        ensures
            job_block_ok(self.config, *job, date, people, unavailable, today, ledger@, groups, r.0@),
            forall|x: PersonId| #[trigger] holds_slot(r.0@, x) <==> sel_ids@.contains(x),
            r.1 is Some <==> has_gap(r.0@),
            r.1 matches Some(c) ==> c.service_date == date && c.job_id == job.id && c.conflict_type
                == ConflictType::InsufficientPeople && c.filled < c.required && c.required
                == job.people_required,
    {
        let n = job.people_required;
        let ghost dones = Seq::new(sel_ids@.len(), |s: int| cycle_of(recent_positions(ledger@, sel_ids@[s], job.id)));
        let mut bags: Vec<Vec<u32>> = Vec::new();
        let mut k: usize = 0;
        while k < sel_ids.len()
            invariant
                0 <= k <= sel_ids.len(),
                bags@.len() == k,
                dones.len() == sel_ids@.len(),
                forall|s: int| 0 <= s < dones.len() ==> #[trigger] dones[s] == cycle_of(recent_positions(ledger@, sel_ids@[s], job.id)),
                forall|s: int, q: u32|
                    0 <= s < k ==> (#[trigger] bags@[s]@.contains(q) <==> bag_has(dones[s], n as int, q)),
            decreases sel_ids.len() - k,
        {
            let history = self.get_position_history_per_job(ledger, sel_ids[k], job.id);
            let done = current_cycle(&history);
            let bag = position_bag(&done, n);
            proof {
                assert(done@ == dones[k as int]);
            }
            bags.push(bag);
            proof {
                assert(bags@[k as int] == bag);
            }
            k += 1;
        }
        let positions = assign_positions(&bags, n, self.config.rotation);
        let ghost order = choose|o: Seq<usize>| fill_order_ok(bag_views(bags@), positions@, o, n as int);
        let mut asg: Vec<Assignment> = Vec::new();
        let mut k: u32 = 0;
        while k < n
            invariant
                0 <= k <= n,
                n == job.people_required,
                n < u32::MAX,
                positions@.len() == sel_ids@.len(),
                asg@.len() == k,
                forall|j: int|
                    #![trigger asg@[j]]
                    0 <= j < k ==> asg@[j].service_date == date && asg@[j].job_id == job.id
                        && asg@[j].position == j + 1 && !asg@[j].manual_override && (asg@[j].person_id is Some
                        ==> exists|s: int|
                        0 <= s < positions@.len() && positions@[s] == j + 1 && asg@[j].person_id
                            == Some(sel_ids@[s])) && (asg@[j].person_id is None ==> forall|s: int|
                        0 <= s < positions@.len() ==> positions@[s] != j + 1),
            decreases n - k,
        {
            let mut s: usize = 0;
            while s < positions.len()
                invariant
                    0 <= s <= positions.len(),
                    k < n,
                    n < u32::MAX,
                    forall|t: int| 0 <= t < s ==> positions@[t] != k + 1,
                ensures
                    0 <= s <= positions.len(),
                    forall|t: int| 0 <= t < s ==> positions@[t] != k + 1,
                    s < positions.len() ==> positions@[s as int] == k + 1,
                decreases positions.len() - s,
            {
                if positions[s] == k + 1 {
                    break;
                }
                s += 1;
            }
            let who = if s < positions.len() {
                Some(sel_ids[s])
            } else {
                None
            };
            asg.push(
                Assignment {
                    service_date: date,
                    job_id: job.id,
                    position: k + 1,
                    person_id: who,
                    manual_override: false,
                },
            );
            proof {
                assert(asg@[k as int].person_id == who);
            }
            k += 1;
        }
        proof {
            let sel = sel_ids@;
            let pos = positions@;
            // each placed person sits at their position
            assert forall|s: int|
                0 <= s < sel.len() implies 1 <= #[trigger] pos[s] <= n && asg@[pos[s] - 1].person_id
                    == Some(sel[s]) by {
                let j = pos[s] - 1;
                assert(asg@[j].position == j + 1);
                if asg@[j].person_id is None {
                    assert(pos[s] != j + 1);
                }
                let s2 = choose|s2: int|
                    0 <= s2 < pos.len() && pos[s2] == j + 1 && asg@[j].person_id == Some(sel[s2]);
                if s2 != s {
                    if s < s2 {
                        assert(pos[s] != pos[s2]);
                    } else {
                        assert(pos[s2] != pos[s]);
                    }
                }
            }
            assert forall|kk: int|
                0 <= kk < asg@.len() && (#[trigger] asg@[kk]).person_id is Some implies exists|s: int|
                    0 <= s < sel.len() && sel[s] == asg@[kk].person_id->0 && pos[s] == kk + 1 by {
                let s = choose|s: int|
                    0 <= s < pos.len() && pos[s] == kk + 1 && asg@[kk].person_id == Some(sel[s]);
            }
            // rotation
            let bv = bag_views(bags@);
            assert forall|j: int, q: u32| 0 <= j < dones.len() implies (#[trigger] bag_has(dones[j], n as int, q)
                <==> bv[j].contains(q)) by {
                assert(bv[j] == bags@[j]@);
                assert(bags@[j]@.contains(q) <==> bag_has(dones[j], n as int, q));
            }
            assert forall|t: int|
                #![trigger order[t]]
                0 <= t < order.len() implies bag_has(dones[order[t] as int], n as int, pos[order[t] as int])
                    || forall|j: int, q: u32|
                    (0 <= j < dones.len() && unplaced(order, t - 1, j) && 1 <= q <= n && !filled_before(
                        pos,
                        order,
                        t,
                        q,
                    )) ==> !#[trigger] bag_has(dones[j], n as int, q) by {
                let i = order[t] as int;
                assert(bv[i].contains(pos[i]) <==> bag_has(dones[i], n as int, pos[i]));
                if !bv[i].contains(pos[i]) {
                    assert forall|j: int, q: u32|
                        (0 <= j < dones.len() && unplaced(order, t - 1, j) && 1 <= q <= n && !filled_before(
                            pos,
                            order,
                            t,
                            q,
                        )) implies !#[trigger] bag_has(dones[j], n as int, q) by {
                        assert(!bv[j].contains(q));
                    }
                }
            }
            assert(rotation_ok(dones, n as int, pos, order));
            assert(dones =~= Seq::new(sel.len(), |s: int| cycle_of(recent_positions(ledger@, sel[s], job.id))));
            assert(block_rotation(ledger@, *job, asg@, sel, pos, order));
            assert forall|x: PersonId| #[trigger] holds_slot(asg@, x) <==> sel.contains(x) by {
                if sel.contains(x) {
                    let s = choose|s: int| 0 <= s < sel.len() && sel[s] == x;
                    assert(asg@[pos[s] - 1].person_id == Some(x));
                }
                if holds_slot(asg@, x) {
                    let kk = choose|kk: int| 0 <= kk < asg@.len() && asg@[kk].person_id == Some(x);
                    let s = choose|s: int|
                        0 <= s < pos.len() && pos[s] == kk + 1 && asg@[kk].person_id == Some(sel[s]);
                    assert(sel[s] == x);
                }
            }
            // eligibility and distinctness of the occupants
            assert forall|kk: int|
                #![trigger asg@[kk]]
                0 <= kk < asg@.len() && asg@[kk].person_id is Some implies exists|i: int|
                    0 <= i < people.len() && #[trigger] people[i].id == asg@[kk].person_id->0
                        && eligible(self.config, job.id, date, people[i], unavailable, today, ledger@) by {
                let s = choose|s: int|
                    0 <= s < pos.len() && pos[s] == kk + 1 && asg@[kk].person_id == Some(sel[s]);
                let i = sel_idx[s] as int;
                assert(people[i].id == sel[s]);
            }
            assert forall|a: int, b: int|
                0 <= a < asg@.len() && 0 <= b < asg@.len() && a != b && (#[trigger] asg@[a]).person_id is Some
                    && (#[trigger] asg@[b]).person_id is Some implies asg@[a].person_id != asg@[b].person_id
                    && !kept_apart(groups, asg@[a].person_id->0, asg@[b].person_id->0) by {
                let sa = choose|s: int|
                    0 <= s < pos.len() && pos[s] == a + 1 && asg@[a].person_id == Some(sel[s]);
                let sb = choose|s: int|
                    0 <= s < pos.len() && pos[s] == b + 1 && asg@[b].person_id == Some(sel[s]);
                assert(sa != sb);
            }
            // a gap exactly when fewer people than positions
            if sel.len() == n {
                assert forall|kk: int| 0 <= kk < asg@.len() implies (#[trigger] asg@[kk]).person_id is Some by {
                    let ints = Seq::new(pos.len(), |s: int| pos[s] as int);
                    assert forall|x: int, y: int|
                        0 <= x < ints.len() && 0 <= y < ints.len() && x != y implies ints[x] != ints[y] by {
                        if x < y {
                            assert(pos[x] != pos[y]);
                        } else {
                            assert(pos[y] != pos[x]);
                        }
                    }
                    crate::rotation::lemma_covers(ints, 1, n + 1, kk + 1);
                    let s = choose|s: int| 0 <= s < ints.len() && ints[s] == kk + 1;
                    assert(pos[s] == kk + 1);
                }
            } else {
                let ints = Seq::new(pos.len(), |s: int| pos[s] as int);
                assert forall|x: int, y: int|
                    0 <= x < ints.len() && 0 <= y < ints.len() && x != y implies ints[x] != ints[y] by {
                    if x < y {
                        assert(pos[x] != pos[y]);
                    } else {
                        assert(pos[y] != pos[x]);
                    }
                }
                let miss = crate::rotation::lemma_missing(ints, 1, n + 1);
                assert forall|s: int| 0 <= s < pos.len() implies pos[s] != miss by {
                    assert(ints[s] == pos[s] as int);
                }
                assert(asg@[miss - 1].person_id is None);
                assert(has_gap(asg@));
                assert forall|i: int|
                    0 <= i < people.len() && eligible(self.config, job.id, date, #[trigger] people[i], unavailable, today, ledger@)
                        implies holds_slot(asg@, people[i].id) || barred_by_separate(groups, people[i].id, asg@) by {
                    let id = people[i].id;
                    if sel.contains(id) {
                        let s = choose|s: int| 0 <= s < sel.len() && sel[s] == id;
                        assert(asg@[pos[s] - 1].person_id == Some(id));
                    } else {
                        assert(rule_hit(groups, PairingRule::Separate, id, sel));
                        let g = choose|g: int|
                            0 <= g < groups.len() && groups[g].pairing_rule == PairingRule::Separate
                                && crate::siblings::fellow_selected(groups[g], id, sel);
                        let m = choose|m: int|
                            0 <= m < groups[g].member_ids@.len() && groups[g].member_ids@[m] != id
                                && sel.contains(groups[g].member_ids@[m]);
                        let s = choose|s: int| 0 <= s < sel.len() && sel[s] == groups[g].member_ids@[m];
                        assert(asg@[pos[s] - 1].person_id == Some(sel[s]));
                        assert(holds_slot(asg@, groups[g].member_ids@[m]));
                    }
                }
            }
        }
        let conflict = if sel_ids.len() < n as usize {
            Some(
                ScheduleConflict {
                    service_date: date,
                    job_id: job.id,
                    conflict_type: ConflictType::InsufficientPeople,
                    filled: sel_ids.len() as u32,
                    required: n,
                    affected_person_ids: sel_ids.clone(),
                },
            )
        } else {
            None
        };
        (asg, conflict)
    }
}

} // verus!

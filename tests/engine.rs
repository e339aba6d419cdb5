use roster::calendar::{count_sundays_in_month, month_name, sundays_of_month, Date};
use roster::edits::{
    EditError, EmptySlot, MoveAssignmentRequest, ScheduleBook, SlotKey, SwapAssignmentsRequest,
    UpdateAssignmentRequest,
};
use roster::eligibility::{
    are_jobs_exclusive, check_consecutive_weeks, has_consecutive_month_restriction, is_available,
};
use roster::names::normalize_name;
use roster::candidates::{get_eligible_people_for_assignment, GetEligiblePeopleRequest, IneligibleReason};
use roster::fairness::{assignments_by_job, calculate_all_fairness_scores, JobAssignmentCount};
use roster::generator::{GenerateScheduleRequest, ScheduleGenerator};
use roster::model::{
    Assignment, EngineConfig, FairnessStrategy, HistoryEntry, Job, JobPosition, PairingRule, Person,
    PreferredFrequency, RotationStrategy, ScheduleStatus, SiblingGroup, Unavailability,
};
use roster::rotation::{assign_positions, current_cycle, position_bag};
use roster::siblings::{check_sibling_constraint, SiblingConstraintResult};

const READERS: u64 = 10;
const SERVERS: u64 = 20;
const JUNIOR: u64 = 30;

fn d(year: i32, month: u32, day: u32) -> Date {
    Date { year, month, day }
}

fn req(year: i32, month: u32) -> GenerateScheduleRequest {
    GenerateScheduleRequest { year, month, name: None }
}

fn person(id: u64, jobs: &[u64]) -> Person {
    Person {
        id,
        job_ids: jobs.to_vec(),
        preferred_frequency: PreferredFrequency::Bimonthly,
        max_consecutive_weeks: 2,
        preference_level: 5,
        active: true,
    }
}

fn job(id: u64, required: u32) -> Job {
    Job { id, people_required: required, active: true, positions: Vec::new() }
}

fn config(fairness: FairnessStrategy, rotation: RotationStrategy) -> EngineConfig {
    EngineConfig {
        exclusive_pairs: vec![(SERVERS, JUNIOR), (SERVERS, READERS)],
        monthly_restricted: vec![SERVERS, READERS],
        fairness,
        rotation,
    }
}

fn slot(date: Date, job_id: u64, position: u32, who: Option<u64>) -> Assignment {
    Assignment { service_date: date, job_id, position, person_id: who, manual_override: false }
}

fn row(a: &Assignment) -> HistoryEntry {
    HistoryEntry {
        person_id: a.person_id.unwrap(),
        job_id: a.job_id,
        service_date: a.service_date,
        position: a.position,
    }
}

fn to(k: SlotKey) -> MoveAssignmentRequest {
    MoveAssignmentRequest {
        target_service_date: k.service_date,
        target_job_id: k.job_id,
        target_position: k.position,
    }
}

fn book(slots: Vec<Assignment>) -> ScheduleBook {
    let ledger = slots.iter().filter(|a| a.person_id.is_some()).map(row).collect();
    ScheduleBook { slots, ledger }
}

fn sorted_rows(mut v: Vec<HistoryEntry>) -> Vec<(u64, u64, i32, u32, u32, u32)> {
    let mut out: Vec<_> = v
        .drain(..)
        .map(|r| (r.person_id, r.job_id, r.service_date.year, r.service_date.month, r.service_date.day, r.position))
        .collect();
    out.sort();
    out
}

fn assert_in_sync(b: &ScheduleBook) {
    let expected: Vec<HistoryEntry> =
        b.slots.iter().filter(|a| a.person_id.is_some()).map(row).collect();
    assert_eq!(sorted_rows(b.ledger.clone()), sorted_rows(expected));
}

#[test]
fn sundays_of_february_and_march_2026() {
    let feb = sundays_of_month(2026, 2);
    assert_eq!(feb, vec![d(2026, 2, 1), d(2026, 2, 8), d(2026, 2, 15), d(2026, 2, 22)]);
    assert_eq!(count_sundays_in_month(2026, 3), 5);
    assert_eq!(count_sundays_in_month(2026, 4), 4);
    assert_eq!(count_sundays_in_month(2026, 13), 0);
    assert_eq!(month_name(3), "March");
    assert_eq!(month_name(13), "Unknown");
}

#[test]
fn names_round_trip_in_any_case() {
    assert_eq!(PreferredFrequency::from_str("WeEkLy"), PreferredFrequency::Weekly);
    assert_eq!(PreferredFrequency::from_str("MONTHLY"), PreferredFrequency::Monthly);
    assert_eq!(PreferredFrequency::from_str("daily"), PreferredFrequency::Bimonthly);
    assert_eq!(PreferredFrequency::Monthly.to_string(), "monthly");
    assert_eq!(PreferredFrequency::Weekly.days_between(), 7);
    assert_eq!(PreferredFrequency::Monthly.days_between(), 30);
    assert_eq!(ScheduleStatus::from_str("published"), ScheduleStatus::Published);
    assert_eq!(ScheduleStatus::from_str("nonsense"), ScheduleStatus::Draft);
    assert_eq!(ScheduleStatus::Archived.to_string(), "ARCHIVED");
    assert_eq!(PairingRule::from_str("separate"), PairingRule::Separate);
    assert_eq!(PairingRule::from_str("x"), PairingRule::Together);
    assert_eq!(PairingRule::Together.to_string(), "TOGETHER");
}

#[test]
fn availability_intervals_are_inclusive() {
    let u = vec![Unavailability { person_id: 1, start: d(2026, 3, 8), end: d(2026, 3, 15) }];
    assert!(!is_available(1, d(2026, 3, 8), &u));
    assert!(!is_available(1, d(2026, 3, 15), &u));
    assert!(is_available(1, d(2026, 3, 22), &u));
    assert!(is_available(2, d(2026, 3, 8), &u));
}

#[test]
fn exclusivity_table_reads_both_orders() {
    let pairs = vec![(SERVERS, JUNIOR)];
    assert!(are_jobs_exclusive(&pairs, JUNIOR, SERVERS));
    assert!(are_jobs_exclusive(&pairs, SERVERS, JUNIOR));
    assert!(!are_jobs_exclusive(&pairs, SERVERS, READERS));
    let c = config(FairnessStrategy::CountOnly, RotationStrategy::Scarcity);
    assert!(has_consecutive_month_restriction(&c, READERS));
    assert!(!has_consecutive_month_restriction(&c, JUNIOR));
}

#[test]
fn sibling_rules_classify_candidates() {
    let groups = vec![
        SiblingGroup { pairing_rule: PairingRule::Together, member_ids: vec![1, 2] },
        SiblingGroup { pairing_rule: PairingRule::Separate, member_ids: vec![3, 4] },
    ];
    assert_eq!(check_sibling_constraint(2, &vec![1], &groups), SiblingConstraintResult::Preferred);
    assert_eq!(check_sibling_constraint(4, &vec![3], &groups), SiblingConstraintResult::Forbidden);
    assert_eq!(check_sibling_constraint(5, &vec![1, 3], &groups), SiblingConstraintResult::Neutral);
    assert_eq!(check_sibling_constraint(1, &vec![], &groups), SiblingConstraintResult::Neutral);
}

#[test]
fn cycle_and_bag_from_history() {
    let ledger = vec![
        HistoryEntry { person_id: 7, job_id: READERS, service_date: d(2026, 1, 4), position: 3 },
        HistoryEntry { person_id: 7, job_id: READERS, service_date: d(2026, 1, 11), position: 1 },
        HistoryEntry { person_id: 8, job_id: READERS, service_date: d(2026, 1, 11), position: 2 },
        HistoryEntry { person_id: 7, job_id: READERS, service_date: d(2026, 1, 18), position: 2 },
        HistoryEntry { person_id: 7, job_id: SERVERS, service_date: d(2026, 1, 25), position: 4 },
    ];
    let g = ScheduleGenerator::new(config(FairnessStrategy::CountOnly, RotationStrategy::Scarcity));
    let h = g.get_position_history_per_job(&ledger, 7, READERS);
    assert_eq!(h, vec![2, 1, 3]);
    assert_eq!(current_cycle(&h), vec![2, 1, 3]);
    assert_eq!(position_bag(&current_cycle(&h), 4), vec![4]);
    assert_eq!(current_cycle(&vec![2, 1, 2, 4]), vec![2, 1]);
    assert_eq!(position_bag(&vec![1, 2, 3, 4], 4), vec![1, 2, 3, 4]);
    assert_eq!(position_bag(&vec![], 3), vec![1, 2, 3]);
}

#[test]
fn scarcity_assigns_scarce_positions_first() {
    let bags = vec![vec![1, 2, 3, 4], vec![3, 4], vec![1, 2, 3, 4], vec![1, 2, 3, 4]];
    let p = assign_positions(&bags, 4, RotationStrategy::Scarcity);
    assert_eq!(p, vec![1, 3, 2, 4]);
    let q = assign_positions(&bags, 4, RotationStrategy::Sequential);
    assert_eq!(q, vec![1, 3, 2, 4]);
    let lone = assign_positions(&vec![vec![3, 4]], 4, RotationStrategy::Sequential);
    assert_eq!(lone, vec![3]);
    let lone = assign_positions(&vec![vec![3, 4]], 4, RotationStrategy::Scarcity);
    assert_eq!(lone, vec![3]);
}

#[test]
fn readers_bag_scenario_assigns_psalm_or_second_reading() {
    let monitor_first = vec![
        HistoryEntry { person_id: 1, job_id: READERS, service_date: d(2026, 2, 1), position: 1 },
        HistoryEntry { person_id: 1, job_id: READERS, service_date: d(2026, 2, 8), position: 2 },
    ];
    let mut readers = job(READERS, 4);
    for (n, name) in ["Monitor", "First Reading", "Psalm", "Second Reading"].iter().enumerate() {
        readers.positions.push(JobPosition { position_number: n as u32 + 1, name: name.to_string() });
    }
    let people: Vec<Person> = (1..=4).map(|i| person(i, &[READERS])).collect();
    let g = ScheduleGenerator::new(EngineConfig {
        exclusive_pairs: vec![],
        monthly_restricted: vec![],
        fairness: FairnessStrategy::CountOnly,
        rotation: RotationStrategy::Scarcity,
    });
    let (asg, conflict) =
        g.assign_people_to_job(&readers, d(2026, 2, 15), &people, &vec![], &vec![], &vec![], &monitor_first);
    assert!(conflict.is_none());
    assert_eq!(asg.len(), 4);
    let p = asg.iter().find(|a| a.person_id == Some(1)).unwrap();
    assert!(p.position == 3 || p.position == 4);
}

#[test]
fn five_sunday_month_skips_monthly_restriction() {
    let served_feb = vec![HistoryEntry {
        person_id: 1,
        job_id: READERS,
        service_date: d(2026, 2, 15),
        position: 1,
    }];
    let people = vec![person(1, &[READERS])];
    let g = ScheduleGenerator::new(config(FairnessStrategy::CountOnly, RotationStrategy::Scarcity));
    let march = g.generate(req(2026, 3), &vec![job(READERS, 1)], &people, &vec![], &vec![], served_feb.clone());
    assert_eq!(march.service_dates.len(), 5);
    assert_eq!(march.service_dates[0].assignments.len(), 1);
    assert_eq!(march.service_dates[0].assignments[0].person_id, Some(1));

    let served_march = vec![HistoryEntry {
        person_id: 1,
        job_id: READERS,
        service_date: d(2026, 3, 15),
        position: 1,
    }];
    let april = g.generate(req(2026, 4), &vec![job(READERS, 1)], &people, &vec![], &vec![], served_march);
    assert_eq!(april.service_dates.len(), 4);
    assert!(april.service_dates.iter().all(|p| p.assignments.iter().all(|a| a.person_id.is_none())));
    assert!(april.service_dates.iter().all(|p| p.assignments.len() == 1));
    assert_eq!(april.conflicts.len(), 4);
    assert_eq!(april.conflicts[0].filled, 0);
    assert_eq!(april.conflicts[0].required, 1);
}

#[test]
fn exclusive_jobs_never_share_a_person_on_a_date() {
    let people = vec![person(1, &[SERVERS, JUNIOR]), person(2, &[JUNIOR])];
    let g = ScheduleGenerator::new(config(FairnessStrategy::CountOnly, RotationStrategy::Scarcity));
    let jobs = vec![job(SERVERS, 1), job(JUNIOR, 2)];
    let r = g.generate(req(2026, 2), &jobs, &people, &vec![], &vec![], vec![]);
    for plan in &r.service_dates {
        let servers: Vec<_> = plan.assignments.iter().filter(|a| a.job_id == SERVERS).collect();
        let junior: Vec<_> = plan.assignments.iter().filter(|a| a.job_id == JUNIOR).collect();
        for s in &servers {
            assert!(junior.iter().all(|j| j.person_id != s.person_id));
        }
    }
    let first = &r.service_dates[0].assignments;
    assert_eq!(first.len(), 3);
    assert_eq!((first[0].job_id, first[0].person_id), (SERVERS, Some(1)));
    assert_eq!((first[1].job_id, first[1].position, first[1].person_id), (JUNIOR, 1, Some(2)));
    assert_eq!((first[2].job_id, first[2].position, first[2].person_id), (JUNIOR, 2, None));
    assert_eq!(r.conflicts.len(), 4);
    assert!(r.conflicts.iter().all(|c| c.job_id == JUNIOR && c.filled == 1 && c.required == 2));
}

#[test]
fn separate_siblings_never_share_a_job_on_a_date() {
    let people: Vec<Person> = (1..=3).map(|i| person(i, &[JUNIOR])).collect();
    let groups = vec![SiblingGroup { pairing_rule: PairingRule::Separate, member_ids: vec![1, 2] }];
    let g = ScheduleGenerator::new(config(FairnessStrategy::Weighted, RotationStrategy::Scarcity));
    let r = g.generate(req(2026, 2), &vec![job(JUNIOR, 3)], &people, &groups, &vec![], vec![]);
    for plan in &r.service_dates {
        let ids: Vec<_> = plan.assignments.iter().filter_map(|a| a.person_id).collect();
        assert!(!(ids.contains(&1) && ids.contains(&2)));
        assert_eq!(ids.len(), 2);
    }
    assert_eq!(r.conflicts.len(), 4);
}

#[test]
fn together_siblings_are_drawn_in() {
    let mut people: Vec<Person> = (1..=4).map(|i| person(i, &[JUNIOR])).collect();
    people[3].preference_level = 10;
    let groups = vec![SiblingGroup { pairing_rule: PairingRule::Together, member_ids: vec![4, 1] }];
    let g = ScheduleGenerator::new(config(FairnessStrategy::Weighted, RotationStrategy::Scarcity));
    let (asg, _) = g.assign_people_to_job(&job(JUNIOR, 2), d(2026, 2, 1), &people, &groups, &vec![], &vec![], &vec![]);
    let ids: Vec<_> = asg.iter().map(|a| a.person_id.unwrap()).collect();
    assert_eq!(ids.len(), 2);
    assert!(ids.contains(&4) && ids.contains(&1));
}

#[test]
fn only_qualified_available_people_are_assigned() {
    let people = vec![person(1, &[READERS]), person(2, &[JUNIOR]), person(3, &[READERS])];
    let away = vec![Unavailability { person_id: 3, start: d(2026, 2, 1), end: d(2026, 2, 28) }];
    let g = ScheduleGenerator::new(config(FairnessStrategy::CountOnly, RotationStrategy::Sequential));
    let r = g.generate(req(2026, 2), &vec![job(READERS, 2)], &people, &vec![], &away, vec![]);
    for plan in &r.service_dates {
        let filled: Vec<_> = plan.assignments.iter().filter_map(|a| a.person_id).collect();
        assert_eq!(filled, vec![1]);
        assert_eq!(plan.assignments.len(), 2);
    }
    assert_eq!(r.ledger.len(), 4);
}

#[test]
fn fewer_commitments_rank_first() {
    let ledger = vec![HistoryEntry { person_id: 1, job_id: JUNIOR, service_date: d(2026, 1, 4), position: 1 }];
    let people = vec![person(1, &[JUNIOR]), person(2, &[JUNIOR])];
    let g = ScheduleGenerator::new(config(FairnessStrategy::CountOnly, RotationStrategy::Scarcity));
    let (asg, conflict) = g.assign_people_to_job(&job(JUNIOR, 1), d(2026, 1, 11), &people, &vec![], &vec![], &vec![], &ledger);
    assert!(conflict.is_none());
    assert_eq!(asg[0].person_id, Some(2));
}

#[test]
fn weighted_score_prefers_the_overdue() {
    let ledger = vec![
        HistoryEntry { person_id: 1, job_id: JUNIOR, service_date: d(2026, 1, 4), position: 1 },
        HistoryEntry { person_id: 2, job_id: JUNIOR, service_date: d(2026, 1, 25), position: 1 },
    ];
    let people = vec![person(1, &[JUNIOR]), person(2, &[JUNIOR])];
    let g = ScheduleGenerator::new(config(FairnessStrategy::Weighted, RotationStrategy::Scarcity));
    let (asg, _) = g.assign_people_to_job(&job(JUNIOR, 1), d(2026, 2, 1), &people, &vec![], &vec![], &vec![], &ledger);
    assert_eq!(asg[0].person_id, Some(1));
}

#[test]
fn four_people_rotate_through_four_positions() {
    let people: Vec<Person> = (1..=4).map(|i| person(i, &[READERS])).collect();
    let mut c = config(FairnessStrategy::CountOnly, RotationStrategy::Scarcity);
    c.monthly_restricted.clear();
    let g = ScheduleGenerator::new(c);
    let r = g.generate(req(2026, 2), &vec![job(READERS, 4)], &people, &vec![], &vec![], vec![]);
    assert_eq!(r.service_dates.len(), 4);
    for id in 1..=4u64 {
        let mut got: Vec<u32> = r
            .service_dates
            .iter()
            .flat_map(|p| p.assignments.iter())
            .filter(|a| a.person_id == Some(id))
            .map(|a| a.position)
            .collect();
        got.sort();
        assert_eq!(got, vec![1, 2, 3, 4]);
    }
}

#[test]
fn swap_refused_for_unqualified_occupant_leaves_slots() {
    let people = vec![person(1, &[READERS]), person(2, &[READERS, JUNIOR])];
    let date = d(2026, 3, 1);
    let mut b = book(vec![slot(date, READERS, 1, Some(1)), slot(date, JUNIOR, 1, Some(2))]);
    let before = b.clone();
    let a = SlotKey { service_date: date, job_id: READERS, position: 1 };
    let t = SlotKey { service_date: date, job_id: JUNIOR, position: 1 };
    assert_eq!(b.swap_assignments(&SwapAssignmentsRequest { slot_1: a, slot_2: t }, &people), Err(EditError::NotQualified(1, JUNIOR)));
    assert_eq!(b.slots, before.slots);
    assert_eq!(b.ledger, before.ledger);
}

#[test]
fn edits_keep_ledger_in_step() {
    let people = vec![person(1, &[READERS]), person(2, &[READERS, JUNIOR]), person(3, &[READERS, JUNIOR])];
    let date = d(2026, 3, 1);
    let mut b = book(vec![
        slot(date, READERS, 1, Some(1)),
        slot(date, READERS, 2, Some(2)),
        slot(date, READERS, 3, None),
        slot(date, JUNIOR, 1, Some(3)),
    ]);
    let k1 = SlotKey { service_date: date, job_id: READERS, position: 1 };
    let k2 = SlotKey { service_date: date, job_id: READERS, position: 2 };
    let k3 = SlotKey { service_date: date, job_id: READERS, position: 3 };
    let kj = SlotKey { service_date: date, job_id: JUNIOR, position: 1 };
    assert_eq!(b.swap_assignments(&SwapAssignmentsRequest { slot_1: k1, slot_2: k2 }, &people), Ok(()));
    assert_eq!(b.slots[0].person_id, Some(2));
    assert_eq!(b.slots[1].person_id, Some(1));
    assert!(b.slots[0].manual_override && b.slots[1].manual_override);
    assert_in_sync(&b);
    assert_eq!(b.move_assignment(k1, &to(k3), &people), Ok(()));
    assert_eq!(b.slots[0].person_id, None);
    assert_eq!(b.slots[2].person_id, Some(2));
    assert_in_sync(&b);
    assert_eq!(b.update_assignment(&UpdateAssignmentRequest { slot: k1, new_person_id: 3 }, &people), Ok(()));
    assert_eq!(b.slots[0].person_id, Some(3));
    assert_in_sync(&b);
    assert_eq!(b.clear_assignment(k2), Ok(()));
    assert_eq!(b.slots[1].person_id, None);
    assert_in_sync(&b);
    assert_eq!(b.move_assignment(kj, &to(k3), &people), Ok(()));
    assert_eq!(b.slots[2].person_id, Some(3));
    assert_eq!(b.slots[3].person_id, Some(2));
    assert_in_sync(&b);
    let done = b.get_schedule_completeness();
    assert_eq!(done.total_slots, 4);
    assert_eq!(done.filled_slots, 3);
    assert!(!done.is_complete);
    assert_eq!(
        done.empty_slots,
        vec![EmptySlot { service_date: date, job_id: READERS, position: 2 }]
    );
}

#[test]
fn edits_report_each_error() {
    let people = vec![person(1, &[READERS]), person(2, &[JUNIOR])];
    let date = d(2026, 3, 1);
    let mut b = book(vec![slot(date, READERS, 1, Some(1)), slot(date, JUNIOR, 1, None)]);
    let k1 = SlotKey { service_date: date, job_id: READERS, position: 1 };
    let kj = SlotKey { service_date: date, job_id: JUNIOR, position: 1 };
    let missing = SlotKey { service_date: date, job_id: READERS, position: 9 };
    assert_eq!(b.clear_assignment(missing), Err(EditError::SlotNotFound(missing)));
    assert_eq!(b.update_assignment(&UpdateAssignmentRequest { slot: k1, new_person_id: 99 }, &people), Err(EditError::PersonNotFound(99)));
    assert_eq!(b.update_assignment(&UpdateAssignmentRequest { slot: k1, new_person_id: 2 }, &people), Err(EditError::NotQualified(2, READERS)));
    assert_eq!(b.move_assignment(k1, &to(missing), &people), Err(EditError::SlotNotFound(missing)));
    assert_eq!(b.move_assignment(k1, &to(kj), &people), Err(EditError::NotQualified(1, JUNIOR)));
    assert_eq!(b.swap_assignments(&SwapAssignmentsRequest { slot_1: missing, slot_2: k1 }, &people), Err(EditError::SlotNotFound(missing)));
    assert_in_sync(&b);
    assert_eq!(b.slots[0].person_id, Some(1));
}

#[test]
fn fairness_report_orders_by_yearly_count() {
    let ledger = vec![
        HistoryEntry { person_id: 1, job_id: READERS, service_date: d(2025, 12, 28), position: 1 },
        HistoryEntry { person_id: 1, job_id: READERS, service_date: d(2026, 1, 4), position: 2 },
        HistoryEntry { person_id: 1, job_id: JUNIOR, service_date: d(2026, 1, 11), position: 1 },
        HistoryEntry { person_id: 2, job_id: READERS, service_date: d(2026, 1, 4), position: 1 },
    ];
    let people = vec![person(1, &[READERS]), person(2, &[READERS]), person(3, &[READERS])];
    let r = calculate_all_fairness_scores(&people, &ledger, 2026);
    let order: Vec<u64> = r.iter().map(|s| s.person_id).collect();
    assert_eq!(order, vec![3, 2, 1]);
    assert_eq!(r[2].assignments_this_year, 2);
    assert_eq!(r[2].total_assignments, 3);
    assert_eq!(r[2].last_assignment_date, Some(d(2026, 1, 11)));
    assert_eq!(r[0].last_assignment_date, None);
    assert_eq!(
        assignments_by_job(&ledger, 1, 2026),
        vec![JobAssignmentCount { job_id: READERS, count: 1 }, JobAssignmentCount { job_id: JUNIOR, count: 1 }]
    );
}

#[test]
fn names_are_folded_for_user_names() {
    assert_eq!(normalize_name("Mar\u{ed}a Jos\u{e9}"), "mariajose");
    assert_eq!(normalize_name("\u{d1}u\u{f1}ez-O'Brien 2"), "nunezobrien2");
    assert_eq!(normalize_name("  "), "");
}

#[test]
fn consecutive_week_limit() {
    let mut p = person(1, &[READERS]);
    p.max_consecutive_weeks = 2;
    let sunday = d(2026, 3, 15);
    let two_before = vec![(1, d(2026, 3, 8)), (1, d(2026, 3, 1))];
    assert!(!check_consecutive_weeks(&p, sunday, &two_before));
    let one_before = vec![(1, d(2026, 3, 8)), (2, d(2026, 3, 1))];
    assert!(check_consecutive_weeks(&p, sunday, &one_before));
    let gap = vec![(1, d(2026, 3, 1))];
    assert!(check_consecutive_weeks(&p, sunday, &gap));
    p.max_consecutive_weeks = 0;
    assert!(!check_consecutive_weeks(&p, sunday, &vec![]));
}

#[test]
fn eligible_people_list_puts_eligible_first() {
    let date = d(2026, 3, 15);
    let mut people = vec![
        person(1, &[JUNIOR]),
        person(2, &[READERS]),
        person(3, &[READERS]),
        person(4, &[READERS]),
        person(5, &[READERS]),
    ];
    people[4].active = false;
    let away = vec![Unavailability { person_id: 3, start: date, end: date }];
    let ledger = vec![HistoryEntry { person_id: 2, job_id: READERS, service_date: d(2026, 1, 4), position: 1 }];
    let request = GetEligiblePeopleRequest { job_id: READERS, service_date: date, current_person_id: None };
    let r = get_eligible_people_for_assignment(&request, &people, &away, &vec![4], &vec![], &ledger, &vec![]);
    let ids: Vec<u64> = r.iter().map(|e| e.id).collect();
    assert_eq!(ids, vec![2, 1, 3, 4]);
    assert_eq!(r[0].reason_if_ineligible, None);
    assert_eq!(r[0].assignments_this_year, 1);
    assert_eq!(r[1].reason_if_ineligible, Some(IneligibleReason::NotQualified));
    assert_eq!(r[2].reason_if_ineligible, Some(IneligibleReason::Unavailable));
    assert_eq!(r[3].reason_if_ineligible, Some(IneligibleReason::AlreadyAssigned));
    let own = GetEligiblePeopleRequest { job_id: READERS, service_date: date, current_person_id: Some(4) };
    let r = get_eligible_people_for_assignment(&own, &people, &away, &vec![4], &vec![], &ledger, &vec![]);
    assert_eq!(r[0].id, 4);
    assert_eq!(r[0].reason_if_ineligible, None);
}

#[test]
fn saved_draft_can_be_edited_in_step() {
    let people: Vec<Person> = (1..=5).map(|i| person(i, &[READERS])).collect();
    let mut c = config(FairnessStrategy::CountOnly, RotationStrategy::Scarcity);
    c.monthly_restricted.clear();
    let g = ScheduleGenerator::new(c);
    let draft = g.generate(req(2026, 2), &vec![job(READERS, 4)], &people, &vec![], &vec![], vec![]);
    let mut b = ScheduleBook::save_schedule(&draft);
    assert_eq!(b.slots.len(), 16);
    assert_eq!(b.ledger.len(), 16);
    assert_in_sync(&b);
    assert!(b.get_schedule_completeness().is_complete);
    let first = SlotKey { service_date: d(2026, 2, 1), job_id: READERS, position: 1 };
    assert_eq!(b.clear_assignment(first), Ok(()));
    assert_in_sync(&b);
    let done = b.get_schedule_completeness();
    assert_eq!((done.total_slots, done.filled_slots), (16, 15));
    assert_eq!(done.empty_slots, vec![EmptySlot { service_date: d(2026, 2, 1), job_id: READERS, position: 1 }]);
}

#[test]
fn readers_last_open_position_goes_to_the_person_who_owes_it() {
    let history = vec![
        HistoryEntry { person_id: 1, job_id: READERS, service_date: d(2026, 1, 4), position: 1 },
        HistoryEntry { person_id: 1, job_id: READERS, service_date: d(2026, 1, 11), position: 2 },
        HistoryEntry { person_id: 1, job_id: READERS, service_date: d(2026, 1, 18), position: 3 },
    ];
    let people: Vec<Person> = (1..=4).map(|i| person(i, &[READERS])).collect();
    let g = ScheduleGenerator::new(EngineConfig {
        exclusive_pairs: vec![],
        monthly_restricted: vec![],
        fairness: FairnessStrategy::CountOnly,
        rotation: RotationStrategy::Scarcity,
    });
    let (asg, conflict) =
        g.assign_people_to_job(&job(READERS, 4), d(2026, 1, 25), &people, &vec![], &vec![], &vec![], &history);
    assert!(conflict.is_none());
    assert_eq!(asg.len(), 4);
    assert_eq!(asg[3].person_id, Some(1));
    let others: Vec<_> = asg[..3].iter().filter_map(|a| a.person_id).collect();
    assert_eq!(others.len(), 3);
    assert!(!others.contains(&1));
}

#[test]
fn lone_reader_takes_a_position_from_the_bag() {
    let history = vec![
        HistoryEntry { person_id: 1, job_id: READERS, service_date: d(2026, 2, 1), position: 1 },
        HistoryEntry { person_id: 1, job_id: READERS, service_date: d(2026, 2, 8), position: 2 },
    ];
    let people = vec![person(1, &[READERS])];
    for rotation in [RotationStrategy::Scarcity, RotationStrategy::Sequential] {
        let g = ScheduleGenerator::new(EngineConfig {
            exclusive_pairs: vec![],
            monthly_restricted: vec![],
            fairness: FairnessStrategy::CountOnly,
            rotation,
        });
        let (asg, conflict) =
            g.assign_people_to_job(&job(READERS, 4), d(2026, 2, 15), &people, &vec![], &vec![], &vec![], &history);
        let mine: Vec<_> = asg.iter().filter(|a| a.person_id == Some(1)).map(|a| a.position).collect();
        assert_eq!(mine, vec![3]);
        assert_eq!(asg.len(), 4);
        let c = conflict.unwrap();
        assert_eq!((c.filled, c.required), (1, 4));
    }
}

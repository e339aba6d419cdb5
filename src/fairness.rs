//! Ordering candidates for a slot, under-served people first.

use vstd::prelude::*;
use crate::calendar::{Date, date_in_range, day_count};
use crate::model::{FairnessStrategy, HistoryEntry, JobId, Person, PersonId};

verus! {

/// Days from January 1 of year 1 (day 1) to a date; none where the date does not exist
/// or lies out of chrono's range.
pub open spec fn day_number(y: int, m: int, d: int) -> Option<int> {
    if date_in_range(y, m, d) {
        Some(day_count(y, m, d))
    } else {
        None
    }
}

/// Relies on chrono's NaiveDate::from_ymd_opt and Datelike::num_days_from_ce: the day
/// count of the proleptic Gregorian calendar, with January 1 of year 1 as day 1.
#[verifier::external_body]
fn days_from_ce(date: Date) -> (r: Option<i32>)
    ensures
        day_number(date.year as int, date.month as int, date.day as int) == match r {
            Some(v) => Some(v as int),
            None => None::<int>,
        },
{
    match chrono::NaiveDate::from_ymd_opt(date.year, date.month, date.day) {
        Some(d) => Some(chrono::Datelike::num_days_from_ce(&d)),
        None => None,
    }
}

/// Commitments of the person in the ledger during the given year.
pub open spec fn year_count(ledger: Seq<HistoryEntry>, pid: PersonId, year: i32) -> nat
    decreases ledger.len(),
{
    if ledger.len() == 0 {
        0
    } else {
        let e = ledger.last();
        year_count(ledger.drop_last(), pid, year) + if e.person_id == pid
            && e.service_date.year == year {
            1nat
        } else {
            0nat
        }
    }
}

/// The latest date on which the ledger shows the person.
pub open spec fn latest_date(ledger: Seq<HistoryEntry>, pid: PersonId) -> Option<Date>
    decreases ledger.len(),
{
    if ledger.len() == 0 {
        None
    } else {
        let e = ledger.last();
        let before = latest_date(ledger.drop_last(), pid);
        if e.person_id != pid {
            before
        } else {
            match before {
                Some(d) => if e.service_date.before_or_on(d) {
                    Some(d)
                } else {
                    Some(e.service_date)
                },
                None => Some(e.service_date),
            }
        }
    }
}

/// What the ranker knows of one candidate.
#[derive(Clone, Copy, Debug, PartialEq, Eq, Structural)]
pub struct CandidateStats {
    /// Index of the person in the roster.
    pub index: usize,
    pub person_id: PersonId,
    /// Commitments this year.
    pub year_count: u64,
    /// Days since the last commitment, where there is one and both dates exist.
    pub days_since_last: Option<i64>,
    /// Preferred gap in days.
    pub gap_days: i64,
    /// Preference level, 0 to 10.
    pub preference_level: u32,
}

/// Recency in days, capped at the preferred gap; a first-timer counts as fully overdue.
pub open spec fn capped_recency(c: CandidateStats) -> int {
    match c.days_since_last {
        Some(d) => if d < c.gap_days {
            d as int
        } else {
            c.gap_days as int
        },
        None => c.gap_days as int,
    }
}

/// The score as a fraction (numerator, denominator), denominator positive.
/// Weighted: 0.7 / (count + 1) + 0.2 * min(days, gap) / gap + 0.1 * level / 10, which
/// over the denominator 100 * gap * (count + 1) has the numerator below.
/// Count only: the negated count, so fewer commitments score higher.
pub open spec fn score(strategy: FairnessStrategy, c: CandidateStats) -> (int, int) {
    match strategy {
        FairnessStrategy::Weighted => {
            let g = c.gap_days as int;
            let k = c.year_count as int + 1;
            (70 * g + 20 * capped_recency(c) * k + c.preference_level as int * g * k, 100 * g * k)
        },
        FairnessStrategy::CountOnly => (-(c.year_count as int), 1),
    }
}

/// `a` goes before `b`: a higher score, or an equal score and a lower id.
pub open spec fn ranks_before(strategy: FairnessStrategy, a: CandidateStats, b: CandidateStats) -> bool {
    let (na, da) = score(strategy, a);
    let (nb, db) = score(strategy, b);
    na * db > nb * da || (na * db == nb * da && a.person_id < b.person_id)
}

/// The candidate's facts that keep every score in range.
pub open spec fn stats_in_range(c: CandidateStats) -> bool {
    &&& 1 <= c.gap_days <= 30
    &&& c.year_count < 0x1_0000_0000
    &&& c.preference_level <= 10
    &&& (c.days_since_last matches Some(d) ==> -0x1_0000_0000 < d < 0x1_0000_0000)
}

proof fn lemma_score_facts(strategy: FairnessStrategy, c: CandidateStats)
    requires
        stats_in_range(c),
    ensures
        score(strategy, c).1 > 0,
        score(strategy, c).1 <= 0x100000000000,
        -0x1000000000000000000 < score(strategy, c).0 < 0x1000000000000000000,
        ({
            let g = c.gap_days as int;
            let k = c.year_count as int + 1;
            let r = capped_recency(c);
            &&& 0 < g * k <= 30 * 0x1_0000_0000
            &&& -0x1_0000_0000 * 0x1_0000_0000 <= r * k <= 30 * 0x1_0000_0000
            &&& 0 <= (c.preference_level as int) * (g * k) <= 10 * 30 * 0x1_0000_0000
            &&& c.preference_level as int * g * k == (c.preference_level as int) * (g * k)
            &&& 100 * g * k == 100 * (g * k)
            &&& 20 * r * k == 20 * (r * k)
        }),
{
    let g = c.gap_days as int;
    let k = c.year_count as int + 1;
    let r = capped_recency(c);
    assert(-0x1_0000_0000 < r <= 30);
    assert(0 < g * k <= 30 * 0x1_0000_0000) by (nonlinear_arith)
        requires
            1 <= g <= 30,
            1 <= k <= 0x1_0000_0000,
    ;
    assert(-0x1_0000_0000 * 0x1_0000_0000 <= r * k <= 30 * 0x1_0000_0000) by (nonlinear_arith)
        requires
            -0x1_0000_0000 < r <= 30,
            1 <= k <= 0x1_0000_0000,
    ;
    assert(0 <= (c.preference_level as int) * (g * k) <= 10 * 30 * 0x1_0000_0000) by (
    nonlinear_arith)
        requires
            0 <= c.preference_level <= 10,
            0 < g * k <= 30 * 0x1_0000_0000,
    ;
    assert(c.preference_level as int * g * k == (c.preference_level as int) * (g * k)) by (
    nonlinear_arith);
    assert(100 * g * k == 100 * (g * k)) by (nonlinear_arith);
    assert(20 * r * k == 20 * (r * k)) by (nonlinear_arith);
}

/// Whether `a` goes before `b`.
pub fn goes_before(strategy: FairnessStrategy, a: &CandidateStats, b: &CandidateStats) -> (r: bool)
    requires
        stats_in_range(*a),
        stats_in_range(*b),
    ensures
        r == ranks_before(strategy, *a, *b),
{
    let (na, da) = calculate_fairness_score(strategy, a);
    let (nb, db) = calculate_fairness_score(strategy, b);
    proof {
        lemma_score_facts(strategy, *a);
        lemma_score_facts(strategy, *b);
        assert(-0x100000000000000000000000000000 < na * db
            < 0x100000000000000000000000000000) by (nonlinear_arith)
            requires
                -0x1000000000000000000 < na < 0x1000000000000000000,
                0 < db <= 0x100000000000,
        ;
        assert(-0x100000000000000000000000000000 < nb * da
            < 0x100000000000000000000000000000) by (nonlinear_arith)
            requires
                -0x1000000000000000000 < nb < 0x1000000000000000000,
                0 < da <= 0x100000000000,
        ;
    }
    let x = na * db;
    let y = nb * da;
    x > y || (x == y && a.person_id < b.person_id)
}

/// The score of a candidate as an exact fraction (numerator, denominator).
pub fn calculate_fairness_score(strategy: FairnessStrategy, c: &CandidateStats) -> (r: (i128, i128))
    requires
        stats_in_range(*c),
    ensures
        r.0 as int == score(strategy, *c).0,
        r.1 as int == score(strategy, *c).1,
{
    proof {
        lemma_score_facts(strategy, *c);
    }
    match strategy {
        FairnessStrategy::Weighted => {
            let g = c.gap_days as i128;
            let k = c.year_count as i128 + 1;
            let r: i128 = match c.days_since_last {
                Some(d) => if d < c.gap_days {
                    d as i128
                } else {
                    g
                },
                None => g,
            };
            let gk = g * k;
            (70 * g + 20 * (r * k) + (c.preference_level as i128) * gk, 100 * gk)
        },
        FairnessStrategy::CountOnly => (-(c.year_count as i128), 1),
    }
}

proof fn lemma_before_transitive(
    strategy: FairnessStrategy,
    a: CandidateStats,
    b: CandidateStats,
    c: CandidateStats,
)
    requires
        stats_in_range(a),
        stats_in_range(b),
        stats_in_range(c),
        ranks_before(strategy, a, b),
        ranks_before(strategy, b, c),
    ensures
        ranks_before(strategy, a, c),
{
    lemma_score_facts(strategy, a);
    lemma_score_facts(strategy, b);
    lemma_score_facts(strategy, c);
    let (na, da) = score(strategy, a);
    let (nb, db) = score(strategy, b);
    let (nc, dc) = score(strategy, c);
    assert(na * db >= nb * da);
    assert(nb * dc >= nc * db);
    assert(na * db * dc >= nb * da * dc) by (nonlinear_arith)
        requires
            na * db >= nb * da,
            dc > 0,
    ;
    assert(nb * dc * da >= nc * db * da) by (nonlinear_arith)
        requires
            nb * dc >= nc * db,
            da > 0,
    ;
    assert(na * dc * db >= nc * da * db) by (nonlinear_arith)
        requires
            na * db * dc >= nb * da * dc,
            nb * dc * da >= nc * db * da,
    ;
    assert(na * dc >= nc * da) by (nonlinear_arith)
        requires
            na * dc * db >= nc * da * db,
            db > 0,
    ;
    if na * db > nb * da || nb * dc > nc * db {
        assert(na * db * dc > nb * da * dc || nb * dc * da > nc * db * da) by (nonlinear_arith)
            requires
                na * db > nb * da || nb * dc > nc * db,
                dc > 0,
                da > 0,
        ;
        assert(na * dc * db > nc * da * db) by (nonlinear_arith)
            requires
                na * db * dc >= nb * da * dc,
                nb * dc * da >= nc * db * da,
                na * db * dc > nb * da * dc || nb * dc * da > nc * db * da,
        ;
        assert(na * dc > nc * da) by (nonlinear_arith)
            requires
                na * dc * db > nc * da * db,
                db > 0,
        ;
    }
}

proof fn lemma_before_asymmetric(strategy: FairnessStrategy, a: CandidateStats, b: CandidateStats)
    requires
        ranks_before(strategy, a, b),
    ensures
        !ranks_before(strategy, b, a),
{
    let (na, da) = score(strategy, a);
    let (nb, db) = score(strategy, b);
    assert(na * db == db * na) by (nonlinear_arith);
    assert(nb * da == da * nb) by (nonlinear_arith);
}

/// Orders candidates best-first: every candidate keeps its place relative to those it
/// does not rank before, ties going to the lower id.
pub fn rank_candidates(stats: &Vec<CandidateStats>, strategy: FairnessStrategy) -> (r: Vec<
    CandidateStats,
>)
    requires
        forall|i: int| 0 <= i < stats@.len() ==> stats_in_range(#[trigger] stats@[i]),
    ensures
        r@.to_multiset() == stats@.to_multiset(),
        forall|i: int, j: int|
            0 <= i < j < r@.len() ==> !ranks_before(strategy, #[trigger] r@[j], #[trigger] r@[i]),
{
    let mut r: Vec<CandidateStats> = Vec::new();
    let mut t: usize = 0;
    proof {
        assert(r@ =~= stats@.subrange(0, 0));
    }
    while t < stats.len()
        invariant
            0 <= t <= stats.len(),
            forall|i: int| 0 <= i < stats@.len() ==> stats_in_range(#[trigger] stats@[i]),
            r@.to_multiset() == stats@.subrange(0, t as int).to_multiset(),
            forall|i: int| 0 <= i < r@.len() ==> stats_in_range(#[trigger] r@[i]),
            forall|i: int, j: int|
                0 <= i < j < r@.len() ==> !ranks_before(strategy, #[trigger] r@[j], #[trigger] r@[i]),
        decreases stats.len() - t,
    {
        let x = stats[t];
        let mut k: usize = 0;
        while k < r.len()
            invariant
                0 <= k <= r.len(),
                stats_in_range(x),
                forall|i: int| 0 <= i < r@.len() ==> stats_in_range(#[trigger] r@[i]),
                forall|i: int| 0 <= i < k ==> !ranks_before(strategy, x, #[trigger] r@[i]),
            ensures
                0 <= k <= r.len(),
                forall|i: int| 0 <= i < k ==> !ranks_before(strategy, x, #[trigger] r@[i]),
                k < r.len() ==> ranks_before(strategy, x, r@[k as int]),
            decreases r.len() - k,
        {
            if goes_before(strategy, &x, &r[k]) {
                break;
            }
            k += 1;
        }
        let ghost old_r = r@;
        proof {
            assert(k < old_r.len() ==> ranks_before(strategy, x, old_r[k as int]));
        }
        r.insert(k, x);
        proof {
            assert(r@ =~= old_r.insert(k as int, x));
            vstd::seq_lib::to_multiset_insert(old_r, k as int, x);
            assert(stats@.subrange(0, t + 1) =~= stats@.subrange(0, t as int).push(x));
            vstd::seq_lib::to_multiset_build(stats@.subrange(0, t as int), x);
            assert forall|i: int, j: int|
                0 <= i < j < r@.len() implies !ranks_before(strategy, #[trigger] r@[j], #[trigger] r@[i]) by {
                if j < k {
                } else if j == k {
                    assert(r@[j] == x);
                    assert(r@[i] == old_r[i]);
                } else if i == k {
                    assert(r@[i] == x);
                    assert(r@[j] == old_r[j - 1]);
                    if ranks_before(strategy, old_r[j - 1], x) {
                        if k < old_r.len() {
                            lemma_before_transitive(strategy, old_r[j - 1], x, old_r[k as int]);
                            if j - 1 > k {
                            } else {
                                lemma_before_asymmetric(strategy, x, old_r[k as int]);
                            }
                        }
                    }
                } else if i < k {
                    assert(r@[i] == old_r[i]);
                    assert(r@[j] == old_r[j - 1]);
                } else {
                    assert(r@[i] == old_r[i - 1]);
                    assert(r@[j] == old_r[j - 1]);
                }
            }
        }
        t += 1;
    }
    proof {
        assert(stats@.subrange(0, stats@.len() as int) =~= stats@);
    }
    r
}

/// How many times the ledger shows the person during the year.
pub fn count_in_year(ledger: &Vec<HistoryEntry>, person_id: PersonId, year: i32) -> (r: u64)
    ensures
        r == year_count(ledger@, person_id, year),
        r <= ledger@.len(),
{
    let mut c: u64 = 0;
    let mut i: usize = 0;
    while i < ledger.len()
        invariant
            0 <= i <= ledger.len(),
            c == year_count(ledger@.subrange(0, i as int), person_id, year),
            c <= i,
        decreases ledger.len() - i,
    {
        proof {
            assert(ledger@.subrange(0, i + 1).drop_last() =~= ledger@.subrange(0, i as int));
        }
        let e = &ledger[i];
        if e.person_id == person_id && e.service_date.year == year {
            c += 1;
        }
        i += 1;
    }
    proof {
        assert(ledger@.subrange(0, ledger@.len() as int) =~= ledger@);
    }
    c
}

/// The latest date on which the ledger shows the person.
pub fn last_commitment(ledger: &Vec<HistoryEntry>, person_id: PersonId) -> (r: Option<Date>)
    ensures
        r == latest_date(ledger@, person_id),
{
    let mut best: Option<Date> = None;
    let mut i: usize = 0;
    while i < ledger.len()
        invariant
            0 <= i <= ledger.len(),
            best == latest_date(ledger@.subrange(0, i as int), person_id),
        decreases ledger.len() - i,
    {
        proof {
            assert(ledger@.subrange(0, i + 1).drop_last() =~= ledger@.subrange(0, i as int));
        }
        let e = &ledger[i];
        if e.person_id == person_id {
            best = match best {
                Some(d) => if e.service_date.le(&d) {
                    Some(d)
                } else {
                    Some(e.service_date)
                },
                None => Some(e.service_date),
            };
        }
        i += 1;
    }
    proof {
        assert(ledger@.subrange(0, ledger@.len() as int) =~= ledger@);
    }
    best
}

/// Days from the person's last commitment to `date`, where both dates exist.
pub open spec fn days_since(ledger: Seq<HistoryEntry>, pid: PersonId, date: Date) -> Option<int> {
    match latest_date(ledger, pid) {
        Some(last) => match (
            day_number(date.year as int, date.month as int, date.day as int),
            day_number(last.year as int, last.month as int, last.day as int),
        ) {
            (Some(a), Some(b)) => Some(a - b),
            _ => None,
        },
        None => None,
    }
}

/// What the ranker knows of a person, as a value: see `candidate_stats`.
pub open spec fn stats_for(index: usize, p: Person, ledger: Seq<HistoryEntry>, date: Date) -> CandidateStats {
    let n = year_count(ledger, p.id, date.year);
    CandidateStats {
        index,
        person_id: p.id,
        year_count: (if n < 0xffff_ffff { n } else { 0xffff_ffff }) as u64,
        days_since_last: match days_since(ledger, p.id, date) {
            Some(d) => Some(d as i64),
            None => None,
        },
        gap_days: p.preferred_frequency.gap_days() as i64,
        preference_level: if p.preference_level <= 10 {
            p.preference_level
        } else {
            10
        },
    }
}

/// What the ranker knows of the person at roster index `index` for a slot on `date`.
/// Preference levels above 10 count as 10; yearly counts saturate at 2^32 - 1.
pub fn candidate_stats(index: usize, person: &Person, ledger: &Vec<HistoryEntry>, date: Date) -> (r:
    CandidateStats)
    ensures
        stats_in_range(r),
        r.index == index,
        r.person_id == person.id,
        r.year_count == if year_count(ledger@, person.id, date.year) < 0xffff_ffff {
            year_count(ledger@, person.id, date.year)
        } else {
            0xffff_ffff
        },
        r.gap_days == person.preferred_frequency.gap_days(),
        r.preference_level == if person.preference_level <= 10 {
            person.preference_level
        } else {
            10
        },
        r.days_since_last matches Some(d) ==> days_since(ledger@, person.id, date) == Some(d as int),
        r.days_since_last is None ==> days_since(ledger@, person.id, date) is None,
        r == stats_for(index, *person, ledger@, date),
{
    let counted = count_in_year(ledger, person.id, date.year);
    let year_count: u64 = if counted < 0xffff_ffff {
        counted
    } else {
        0xffff_ffff
    };
    let days_since_last: Option<i64> = match last_commitment(ledger, person.id) {
        Some(last) => match (days_from_ce(date), days_from_ce(last)) {
            (Some(a), Some(b)) => Some(a as i64 - b as i64),
            _ => None,
        },
        None => None,
    };
    CandidateStats {
        index,
        person_id: person.id,
        year_count,
        days_since_last,
        gap_days: person.preferred_frequency.days_between(),
        preference_level: if person.preference_level <= 10 {
            person.preference_level
        } else {
            10
        },
    }
}

/// Commitments of the person in the job during the year.
pub open spec fn job_year_count(ledger: Seq<HistoryEntry>, pid: PersonId, job: JobId, year: i32) -> nat
    decreases ledger.len(),
{
    if ledger.len() == 0 {
        0
    } else {
        let e = ledger.last();
        job_year_count(ledger.drop_last(), pid, job, year) + if e.person_id == pid && e.job_id == job
            && e.service_date.year == year {
            1nat
        } else {
            0nat
        }
    }
}

/// Commitments of the person, any year.
pub open spec fn total_count(ledger: Seq<HistoryEntry>, pid: PersonId) -> nat
    decreases ledger.len(),
{
    if ledger.len() == 0 {
        0
    } else {
        total_count(ledger.drop_last(), pid) + if ledger.last().person_id == pid {
            1nat
        } else {
            0nat
        }
    }
}

/// How often a person served one job in a year.
#[derive(Clone, Copy, Debug, PartialEq, Eq, Structural)]
pub struct JobAssignmentCount {
    pub job_id: JobId,
    pub count: u64,
}

/// The person's commitments this year per job, one entry for each job served, in the
/// order the jobs first appear in the ledger.
pub fn assignments_by_job(ledger: &Vec<HistoryEntry>, person_id: PersonId, year: i32) -> (r: Vec<
    JobAssignmentCount,
>)
    ensures
        forall|k: int|
            0 <= k < r@.len() ==> (#[trigger] r@[k]).count == job_year_count(
                ledger@,
                person_id,
                r@[k].job_id,
                year,
            ) && r@[k].count > 0,
        forall|a: int, b: int|
            0 <= a < r@.len() && 0 <= b < r@.len() && a != b ==> (#[trigger] r@[a]).job_id != (
            #[trigger] r@[b]).job_id,
        forall|j: JobId|
            #[trigger] job_year_count(ledger@, person_id, j, year) > 0 ==> exists|k: int|
                0 <= k < r@.len() && r@[k].job_id == j,
{
    let mut r: Vec<JobAssignmentCount> = Vec::new();
    let mut i: usize = 0;
    while i < ledger.len()
        invariant
            0 <= i <= ledger.len(),
            forall|k: int|
                0 <= k < r@.len() ==> (#[trigger] r@[k]).count == job_year_count(
                    ledger@.subrange(0, i as int),
                    person_id,
                    r@[k].job_id,
                    year,
                ) && r@[k].count > 0 && r@[k].count <= i,
            forall|a: int, b: int|
                0 <= a < r@.len() && 0 <= b < r@.len() && a != b ==> (#[trigger] r@[a]).job_id != (
                #[trigger] r@[b]).job_id,
            forall|j: JobId|
                #[trigger] job_year_count(ledger@.subrange(0, i as int), person_id, j, year) > 0
                    ==> exists|k: int| 0 <= k < r@.len() && r@[k].job_id == j,
        decreases ledger.len() - i,
    {
        let e = ledger[i];
        let ghost pre = ledger@.subrange(0, i as int);
        let ghost post = ledger@.subrange(0, i + 1);
        proof {
            assert(post.drop_last() =~= pre);
            assert(post.last() == e);
        }
        if e.person_id == person_id && e.service_date.year == year {
            let mut k: usize = 0;
            let mut found = false;
            while k < r.len()
                invariant
                    0 <= k <= r.len(),
                    forall|q: int| 0 <= q < k ==> r@[q].job_id != e.job_id,
                ensures
                    0 <= k <= r.len(),
                    forall|q: int| 0 <= q < k ==> r@[q].job_id != e.job_id,
                    k < r.len() ==> r@[k as int].job_id == e.job_id,
                decreases r.len() - k,
            {
                if r[k].job_id == e.job_id {
                    break;
                }
                k += 1;
            }
            let ghost old_r = r@;
            if k < r.len() {
                let c = r[k].count;
                r.set(k, JobAssignmentCount { job_id: e.job_id, count: c + 1 });
                proof {
                    assert forall|j: JobId|
                        #[trigger] job_year_count(post, person_id, j, year) > 0 implies exists|q: int|
                            0 <= q < r@.len() && r@[q].job_id == j by {
                        if j == e.job_id {
                            assert(r@[k as int].job_id == j);
                        } else {
                            assert(job_year_count(pre, person_id, j, year) > 0);
                            let q = choose|q: int| 0 <= q < old_r.len() && old_r[q].job_id == j;
                            assert(r@[q].job_id == j);
                        }
                    }
                }
            } else {
                r.push(JobAssignmentCount { job_id: e.job_id, count: 1 });
                proof {
                    assert(job_year_count(pre, person_id, e.job_id, year) == 0) by {
                        if job_year_count(pre, person_id, e.job_id, year) > 0 {
                            let q = choose|q: int| 0 <= q < old_r.len() && old_r[q].job_id == e.job_id;
                        }
                    }
                    assert forall|j: JobId|
                        #[trigger] job_year_count(post, person_id, j, year) > 0 implies exists|q: int|
                            0 <= q < r@.len() && r@[q].job_id == j by {
                        if j == e.job_id {
                            assert(r@[r@.len() - 1].job_id == j);
                        } else {
                            assert(job_year_count(pre, person_id, j, year) > 0);
                            let q = choose|q: int| 0 <= q < old_r.len() && old_r[q].job_id == j;
                            assert(r@[q].job_id == j);
                        }
                    }
                }
            }
        } else {
            proof {
                assert forall|j: JobId|
                    #[trigger] job_year_count(post, person_id, j, year) > 0 implies exists|q: int|
                        0 <= q < r@.len() && r@[q].job_id == j by {
                    assert(job_year_count(pre, person_id, j, year) > 0);
                }
            }
        }
        i += 1;
    }
    proof {
        assert(ledger@.subrange(0, ledger@.len() as int) =~= ledger@);
    }
    r
}

/// How many times the ledger shows the person.
pub fn count_all(ledger: &Vec<HistoryEntry>, person_id: PersonId) -> (r: u64)
    ensures
        r == total_count(ledger@, person_id),
{
    let mut c: u64 = 0;
    let mut i: usize = 0;
    while i < ledger.len()
        invariant
            0 <= i <= ledger.len(),
            c == total_count(ledger@.subrange(0, i as int), person_id),
            c <= i,
        decreases ledger.len() - i,
    {
        proof {
            assert(ledger@.subrange(0, i + 1).drop_last() =~= ledger@.subrange(0, i as int));
        }
        if ledger[i].person_id == person_id {
            c += 1;
        }
        i += 1;
    }
    proof {
        assert(ledger@.subrange(0, ledger@.len() as int) =~= ledger@);
    }
    c
}

/// A person's standing in the fairness report.
#[derive(Clone, Debug)]
pub struct FairnessScore {
    pub person_id: PersonId,
    pub total_assignments: u64,
    /// Commitments this year, saturating at 2^32 - 1.
    pub assignments_this_year: u64,
    pub assignments_by_job: Vec<JobAssignmentCount>,
    pub last_assignment_date: Option<Date>,
}

/// The score reports a person on the roster: their yearly count (saturating), their
/// total and their last commitment.
pub open spec fn reports_person(
    people: Seq<Person>,
    ledger: Seq<HistoryEntry>,
    year: i32,
    s: FairnessScore,
) -> bool {
    exists|i: int|
        0 <= i < people.len() && #[trigger] people[i].id == s.person_id && {
            let n = year_count(ledger, people[i].id, year);
            &&& s.assignments_this_year == if n < 0xffff_ffff {
                n
            } else {
                0xffff_ffff
            }
            &&& s.total_assignments == total_count(ledger, people[i].id)
            &&& s.last_assignment_date == latest_date(ledger, people[i].id)
        }
}

/// The report for everyone on the roster, fewest commitments this year first, ties by
/// lower id.
pub fn calculate_all_fairness_scores(people: &Vec<Person>, ledger: &Vec<HistoryEntry>, year: i32) -> (r:
    Vec<FairnessScore>)
    ensures
        r@.len() == people@.len(),
        forall|k: int|
            #![trigger r@[k]]
            0 <= k < r@.len() ==> reports_person(people@, ledger@, year, r@[k]),
        forall|a: int, b: int|
            0 <= a < b < r@.len() ==> (#[trigger] r@[a]).assignments_this_year < (
            #[trigger] r@[b]).assignments_this_year || (r@[a].assignments_this_year
                == r@[b].assignments_this_year && r@[a].person_id <= r@[b].person_id),
{
    let start = Date { year, month: 1, day: 1 };
    let mut stats: Vec<CandidateStats> = Vec::new();
    let mut i: usize = 0;
    while i < people.len()
        invariant
            0 <= i <= people.len(),
            start.year == year,
            stats@.len() == i,
            forall|k: int|
                #![trigger stats@[k]]
                0 <= k < i ==> stats_in_range(stats@[k]) && stats@[k].index < people@.len()
                    && stats@[k].person_id == people@[stats@[k].index as int].id
                    && stats@[k].year_count == if year_count(
                    ledger@,
                    people@[stats@[k].index as int].id,
                    year,
                ) < 0xffff_ffff {
                    year_count(ledger@, people@[stats@[k].index as int].id, year)
                } else {
                    0xffff_ffff
                },
        decreases people.len() - i,
    {
        stats.push(candidate_stats(i, &people[i], ledger, start));
        i += 1;
    }
    let ranked = rank_candidates(&stats, FairnessStrategy::CountOnly);
    proof {
        vstd::seq_lib::to_multiset_len(ranked@);
        vstd::seq_lib::to_multiset_len(stats@);
        assert forall|j: int|
            #![trigger ranked@[j]]
            0 <= j < ranked@.len() implies ranked@[j].index < people@.len() && ranked@[j].person_id
                == people@[ranked@[j].index as int].id && ranked@[j].year_count == if year_count(
                ledger@,
                people@[ranked@[j].index as int].id,
                year,
            ) < 0xffff_ffff {
                year_count(ledger@, people@[ranked@[j].index as int].id, year)
            } else {
                0xffff_ffff
            } by {
            let x = ranked@[j];
            assert(ranked@.contains(x));
            vstd::seq_lib::to_multiset_contains(ranked@, x);
            vstd::seq_lib::to_multiset_contains(stats@, x);
            let q = choose|q: int| 0 <= q < stats@.len() && stats@[q] == x;
        }
    }
    let mut r: Vec<FairnessScore> = Vec::new();
    let mut k: usize = 0;
    while k < ranked.len()
        invariant
            0 <= k <= ranked.len(),
            r@.len() == k,
            forall|j: int|
                #![trigger ranked@[j]]
                0 <= j < ranked@.len() ==> ranked@[j].index < people@.len()
                    && ranked@[j].person_id == people@[ranked@[j].index as int].id
                    && ranked@[j].year_count == if year_count(
                    ledger@,
                    people@[ranked@[j].index as int].id,
                    year,
                ) < 0xffff_ffff {
                    year_count(ledger@, people@[ranked@[j].index as int].id, year)
                } else {
                    0xffff_ffff
                },
            forall|j: int|
                #![trigger r@[j]]
                0 <= j < k ==> r@[j].person_id == ranked@[j].person_id
                    && r@[j].assignments_this_year == ranked@[j].year_count
                    && r@[j].total_assignments == total_count(ledger@, ranked@[j].person_id)
                    && r@[j].last_assignment_date == latest_date(ledger@, ranked@[j].person_id),
        decreases ranked.len() - k,
    {
        let c = ranked[k];
        r.push(
            FairnessScore {
                person_id: c.person_id,
                total_assignments: count_all(ledger, c.person_id),
                assignments_this_year: c.year_count,
                assignments_by_job: assignments_by_job(ledger, c.person_id, year),
                last_assignment_date: last_commitment(ledger, c.person_id),
            },
        );
        k += 1;
    }
    proof {
        assert forall|k: int|
            #![trigger r@[k]]
            0 <= k < r@.len() implies reports_person(people@, ledger@, year, r@[k]) by {
            let i = ranked@[k].index as int;
            assert(people@[i].id == r@[k].person_id);
        }
        assert forall|a: int, b: int|
            0 <= a < b < r@.len() implies (#[trigger] r@[a]).assignments_this_year < (
            #[trigger] r@[b]).assignments_this_year || (r@[a].assignments_this_year
                == r@[b].assignments_this_year && r@[a].person_id <= r@[b].person_id) by {
            assert(!ranks_before(FairnessStrategy::CountOnly, ranked@[b], ranked@[a]));
        }
    }
    r
}

} // verus!

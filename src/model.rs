//! The records the engine reads and writes.

use vstd::prelude::*;
use crate::calendar::Date;

verus! {

/// Opaque identity of a person.
pub type PersonId = u64;

/// Opaque identity of a job.
pub type JobId = u64;

/// Relies on str::to_lowercase: the result depends on the characters alone.
pub uninterp spec fn lower_of(s: Seq<char>) -> Seq<char>;

/// Relies on str::to_uppercase: the result depends on the characters alone.
pub uninterp spec fn upper_of(s: Seq<char>) -> Seq<char>;

/// Relies on str::to_lowercase for the lower-case form of a string.
#[verifier::external_body]
fn lowercase(s: &str) -> (r: String)
    ensures
        r@ == lower_of(s@),
{
    s.to_lowercase()
}

/// Relies on str::to_uppercase for the upper-case form of a string.
#[verifier::external_body]
fn uppercase(s: &str) -> (r: String)
    ensures
        r@ == upper_of(s@),
{
    s.to_uppercase()
}

/// How often a person prefers to serve.
#[derive(Clone, Copy, Debug, PartialEq, Eq, Structural)]
pub enum PreferredFrequency {
    Weekly,
    Bimonthly,
    Monthly,
}

/// The frequency named by an already lower-cased word; unknown words mean bimonthly.
pub open spec fn frequency_of_word(w: Seq<char>) -> PreferredFrequency {
    if w == "weekly"@ {
        PreferredFrequency::Weekly
    } else if w == "monthly"@ {
        PreferredFrequency::Monthly
    } else {
        PreferredFrequency::Bimonthly
    }
}

impl PreferredFrequency {
    /// Reads a frequency name in any letter case; an unknown name gives `Bimonthly`.
    pub fn from_str(s: &str) -> (r: Self)
        ensures
            r == frequency_of_word(lower_of(s@)),
    {
        let w = lowercase(s);
        Self::from_word(&w)
    }

    /// The frequency named by an already lower-cased word; an unknown word gives `Bimonthly`.
    pub fn from_word(w: &String) -> (r: Self)
        ensures
            r == frequency_of_word(w@),
    {
        if *w == String::from_str("weekly") {
            PreferredFrequency::Weekly
        } else if *w == String::from_str("monthly") {
            PreferredFrequency::Monthly
        } else {
            PreferredFrequency::Bimonthly
        }
    }

    /// The lower-case name of the frequency.
    pub fn to_string(&self) -> (r: String)
        ensures
            r@ == match *self {
                PreferredFrequency::Weekly => "weekly"@,
                PreferredFrequency::Bimonthly => "bimonthly"@,
                PreferredFrequency::Monthly => "monthly"@,
            },
    {
        match self {
            PreferredFrequency::Weekly => String::from_str("weekly"),
            PreferredFrequency::Bimonthly => String::from_str("bimonthly"),
            PreferredFrequency::Monthly => String::from_str("monthly"),
        }
    }

    pub open spec fn gap_days(self) -> int {
        match self {
            PreferredFrequency::Weekly => 7,
            PreferredFrequency::Bimonthly => 14,
            PreferredFrequency::Monthly => 30,
        }
    }

    /// The target gap in days between two commitments.
    pub fn days_between(&self) -> (r: i64)
        ensures
            r == self.gap_days(),
    {
        match self {
            PreferredFrequency::Weekly => 7,
            PreferredFrequency::Bimonthly => 14,
            PreferredFrequency::Monthly => 30,
        }
    }
}

/// Lifecycle of a schedule.
#[derive(Clone, Copy, Debug, PartialEq, Eq, Structural)]
pub enum ScheduleStatus {
    Draft,
    Published,
    Archived,
}

/// The status named by an already upper-cased word; unknown words mean draft.
pub open spec fn status_of_word(w: Seq<char>) -> ScheduleStatus {
    if w == "PUBLISHED"@ {
        ScheduleStatus::Published
    } else if w == "ARCHIVED"@ {
        ScheduleStatus::Archived
    } else {
        ScheduleStatus::Draft
    }
}

impl ScheduleStatus {
    /// Reads a status name in any letter case; an unknown name gives `Draft`.
    pub fn from_str(s: &str) -> (r: Self)
        ensures
            r == status_of_word(upper_of(s@)),
    {
        let w = uppercase(s);
        Self::from_word(&w)
    }

    /// The status named by an already upper-cased word; an unknown word gives `Draft`.
    pub fn from_word(w: &String) -> (r: Self)
        ensures
            r == status_of_word(w@),
    {
        if *w == String::from_str("PUBLISHED") {
            ScheduleStatus::Published
        } else if *w == String::from_str("ARCHIVED") {
            ScheduleStatus::Archived
        } else {
            ScheduleStatus::Draft
        }
    }

    /// The upper-case name of the status.
    pub fn to_string(&self) -> (r: String)
        ensures
            r@ == match *self {
                ScheduleStatus::Draft => "DRAFT"@,
                ScheduleStatus::Published => "PUBLISHED"@,
                ScheduleStatus::Archived => "ARCHIVED"@,
            },
    {
        match self {
            ScheduleStatus::Draft => String::from_str("DRAFT"),
            ScheduleStatus::Published => String::from_str("PUBLISHED"),
            ScheduleStatus::Archived => String::from_str("ARCHIVED"),
        }
    }
}

/// Whether the members of a sibling group serve together or apart.
#[derive(Clone, Copy, Debug, PartialEq, Eq, Structural)]
pub enum PairingRule {
    Together,
    Separate,
}

/// The rule named by an already upper-cased word; unknown words mean together.
pub open spec fn rule_of_word(w: Seq<char>) -> PairingRule {
    if w == "SEPARATE"@ {
        PairingRule::Separate
    } else {
        PairingRule::Together
    }
}

impl PairingRule {
    /// Reads a rule name in any letter case; an unknown name gives `Together`.
    pub fn from_str(s: &str) -> (r: Self)
        ensures
            r == rule_of_word(upper_of(s@)),
    {
        let w = uppercase(s);
        Self::from_word(&w)
    }

    /// The rule named by an already upper-cased word; an unknown word gives `Together`.
    pub fn from_word(w: &String) -> (r: Self)
        ensures
            r == rule_of_word(w@),
    {
        if *w == String::from_str("SEPARATE") {
            PairingRule::Separate
        } else {
            PairingRule::Together
        }
    }

    /// The upper-case name of the rule.
    pub fn to_string(&self) -> (r: String)
        ensures
            r@ == match *self {
                PairingRule::Together => "TOGETHER"@,
                PairingRule::Separate => "SEPARATE"@,
            },
    {
        match self {
            PairingRule::Together => String::from_str("TOGETHER"),
            PairingRule::Separate => String::from_str("SEPARATE"),
        }
    }
}

/// A volunteer as the engine sees them.
#[derive(Clone, Debug)]
pub struct Person {
    pub id: PersonId,
    /// The jobs this person is qualified for.
    pub job_ids: Vec<JobId>,
    pub preferred_frequency: PreferredFrequency,
    pub max_consecutive_weeks: u32,
    /// Static preference, 0 to 10.
    pub preference_level: u32,
    pub active: bool,
}

/// A named position of a job.
#[derive(Clone, Debug)]
pub struct JobPosition {
    pub position_number: u32,
    pub name: String,
}

/// A recurring duty with a number of positions per service date.
#[derive(Clone, Debug)]
pub struct Job {
    pub id: JobId,
    /// Positions per occurrence.
    pub people_required: u32,
    pub active: bool,
    /// Optional names of the positions, by number.
    pub positions: Vec<JobPosition>,
}

/// A named set of people with a pairing rule.
#[derive(Clone, Debug)]
pub struct SiblingGroup {
    pub pairing_rule: PairingRule,
    pub member_ids: Vec<PersonId>,
}

/// A person is unavailable from `start` to `end`, both included.
#[derive(Clone, Copy, Debug)]
pub struct Unavailability {
    pub person_id: PersonId,
    pub start: Date,
    pub end: Date,
}

/// One committed assignment in the ledger.
#[derive(Clone, Copy, Debug, PartialEq, Eq, Structural)]
pub struct HistoryEntry {
    pub person_id: PersonId,
    pub job_id: JobId,
    pub service_date: Date,
    pub position: u32,
}

/// One slot of a schedule, filled or not.
#[derive(Clone, Copy, Debug, PartialEq, Eq, Structural)]
pub struct Assignment {
    pub service_date: Date,
    pub job_id: JobId,
    pub position: u32,
    pub person_id: Option<PersonId>,
    pub manual_override: bool,
}

/// How candidates are ordered for a slot.
#[derive(Clone, Copy, Debug, PartialEq, Eq, Structural)]
pub enum FairnessStrategy {
    /// Weighted sum: 0.7 for few commitments this year, 0.2 for time since the last
    /// one against the preferred gap, 0.1 for the preference level.
    Weighted,
    /// Fewest commitments this year first.
    CountOnly,
}

/// How selected people are mapped to positions.
#[derive(Clone, Copy, Debug, PartialEq, Eq, Structural)]
pub enum RotationStrategy {
    /// Scarcest position first, most constrained person first.
    Scarcity,
    /// Positions in order, most constrained bag-holder first.
    Sequential,
}

/// The rules that are data rather than algorithm.
#[derive(Clone, Debug)]
pub struct EngineConfig {
    /// Pairs of jobs that one person cannot hold on the same date.
    pub exclusive_pairs: Vec<(JobId, JobId)>,
    /// Jobs nobody may serve two calendar months in a row (outside 5-Sunday months).
    pub monthly_restricted: Vec<JobId>,
    pub fairness: FairnessStrategy,
    pub rotation: RotationStrategy,
}

/// What kind of problem a conflict reports.
#[derive(Clone, Copy, Debug, PartialEq, Eq, Structural)]
pub enum ConflictType {
    InsufficientPeople,
    SiblingViolation,
    ConsecutiveWeeksExceeded,
    UnavailablePerson,
}

/// An unmet slot condition found while generating.
#[derive(Clone, Debug)]
pub struct ScheduleConflict {
    pub service_date: Date,
    pub job_id: JobId,
    pub conflict_type: ConflictType,
    /// How many of the required positions were filled.
    pub filled: u32,
    pub required: u32,
    pub affected_person_ids: Vec<PersonId>,
}

} // verus!

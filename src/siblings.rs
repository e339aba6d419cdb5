//! TOGETHER / SEPARATE grouping rules.

use vstd::prelude::*;
use crate::model::{PairingRule, PersonId, SiblingGroup};
use crate::util::contains_id;

verus! {

/// How the grouping rules regard a candidate.
#[derive(Clone, Copy, Debug, PartialEq, Eq, Structural)]
pub enum SiblingConstraintResult {
    /// A TOGETHER sibling is already selected.
    Preferred,
    /// No rule speaks for or against.
    Neutral,
    /// A SEPARATE sibling is already selected.
    Forbidden,
}

/// The group holds `pid` and some other member that is already selected.
pub open spec fn fellow_selected(g: SiblingGroup, pid: PersonId, selected: Seq<PersonId>) -> bool {
    &&& g.member_ids@.contains(pid)
    &&& exists|k: int|
        0 <= k < g.member_ids@.len() && g.member_ids@[k] != pid && selected.contains(
            g.member_ids@[k],
        )
}

pub open spec fn rule_hit(
    groups: Seq<SiblingGroup>,
    rule: PairingRule,
    pid: PersonId,
    selected: Seq<PersonId>,
) -> bool {
    exists|i: int|
        0 <= i < groups.len() && groups[i].pairing_rule == rule && fellow_selected(
            groups[i],
            pid,
            selected,
        )
}

/// SEPARATE wins over TOGETHER; without either, the candidate is neutral.
pub open spec fn sibling_status(
    groups: Seq<SiblingGroup>,
    pid: PersonId,
    selected: Seq<PersonId>,
) -> SiblingConstraintResult {
    if rule_hit(groups, PairingRule::Separate, pid, selected) {
        SiblingConstraintResult::Forbidden
    } else if rule_hit(groups, PairingRule::Together, pid, selected) {
        SiblingConstraintResult::Preferred
    } else {
        SiblingConstraintResult::Neutral
    }
}

/// Two different people share a SEPARATE group.
pub open spec fn kept_apart(groups: Seq<SiblingGroup>, a: PersonId, b: PersonId) -> bool {
    a != b && exists|i: int|
        0 <= i < groups.len() && groups[i].pairing_rule == PairingRule::Separate
            && groups[i].member_ids@.contains(a) && groups[i].member_ids@.contains(b)
}

/// Whether the group holds `person_id` and another member that is already selected.
fn has_fellow_selected(g: &SiblingGroup, person_id: PersonId, selected: &Vec<PersonId>) -> (r:
    bool)
    ensures
        r == fellow_selected(*g, person_id, selected@),
{
    if !contains_id(&g.member_ids, person_id) {
        return false;
    }
    let mut k: usize = 0;
    while k < g.member_ids.len()
        invariant
            0 <= k <= g.member_ids.len(),
            g.member_ids@.contains(person_id),
            forall|j: int|
                0 <= j < k ==> !(g.member_ids@[j] != person_id && selected@.contains(
                    g.member_ids@[j],
                )),
        decreases g.member_ids.len() - k,
    {
        let m = g.member_ids[k];
        if m != person_id && contains_id(selected, m) {
            assert(g.member_ids@[k as int] == m);
            assert(g.member_ids@.contains(person_id));
            assert(0 <= k < g.member_ids@.len() && g.member_ids@[k as int] != person_id
                && selected@.contains(g.member_ids@[k as int]));
            return true;
        }
        k += 1;
    }
    false
}

/// Whether some group with the given rule holds `person_id` and a selected fellow member.
fn any_rule_hit(
    groups: &Vec<SiblingGroup>,
    rule: PairingRule,
    person_id: PersonId,
    selected: &Vec<PersonId>,
) -> (r: bool)
    ensures
        r == rule_hit(groups@, rule, person_id, selected@),
{
    let mut i: usize = 0;
    while i < groups.len()
        invariant
            0 <= i <= groups.len(),
            forall|j: int|
                0 <= j < i ==> !(groups@[j].pairing_rule == rule && fellow_selected(
                    groups@[j],
                    person_id,
                    selected@,
                )),
        decreases groups.len() - i,
    {
        if groups[i].pairing_rule == rule && has_fellow_selected(&groups[i], person_id, selected) {
            return true;
        }
        i += 1;
    }
    false
}

/// Classifies a candidate against every group that holds them, given who is
/// already selected for this job and date.
pub fn check_sibling_constraint(
    person_id: PersonId,
    already_assigned: &Vec<PersonId>,
    sibling_groups: &Vec<SiblingGroup>,
) -> (r: SiblingConstraintResult)
    ensures
        r == sibling_status(sibling_groups@, person_id, already_assigned@),
{
    if any_rule_hit(sibling_groups, PairingRule::Separate, person_id, already_assigned) {
        SiblingConstraintResult::Forbidden
    } else if any_rule_hit(sibling_groups, PairingRule::Together, person_id, already_assigned) {
        SiblingConstraintResult::Preferred
    } else {
        SiblingConstraintResult::Neutral
    }
}

/// A candidate that is not forbidden shares no SEPARATE group with anyone selected.
pub proof fn lemma_not_forbidden_apart(
    groups: Seq<SiblingGroup>,
    pid: PersonId,
    selected: Seq<PersonId>,
    q: PersonId,
)
    requires
        !rule_hit(groups, PairingRule::Separate, pid, selected),
        selected.contains(q),
    ensures
        !kept_apart(groups, pid, q),
{
    if kept_apart(groups, pid, q) {
        let i = choose|i: int|
            0 <= i < groups.len() && groups[i].pairing_rule == PairingRule::Separate
                && groups[i].member_ids@.contains(pid) && groups[i].member_ids@.contains(q);
        let k = choose|k: int| 0 <= k < groups[i].member_ids@.len() && groups[i].member_ids@[k] == q;
        assert(fellow_selected(groups[i], pid, selected));
        assert(false);
    }
}

} // verus!

//! The evidence shown with a face-learning decision: what was decided about
//! what, the rules that vetoed it, and the checks on it that need no
//! floating point.

use vstd::prelude::*;
use crate::text::{owned, str_equal, with_number, with_unsigned, signed_decimal, decimal};

verus! {

/// The schema version of stored decision evidence.
pub const EVIDENCE_SCHEMA_VERSION: u32 = 1;

/// Which decision the evidence explains.
#[derive(Clone, Copy, Debug, PartialEq, Eq, Structural)]
pub enum DecisionKind {
    PairScore,
    ClusterMerge,
    PersonSuggestion,
}

/// What the decision came to.
#[derive(Clone, Copy, Debug, PartialEq, Eq, Structural)]
pub enum DecisionOutcome {
    Allowed,
    RejectedByScore,
    VetoedByRule,
}

/// What the subject faces were compared with.
#[derive(Clone, Debug, PartialEq, Eq)]
pub enum DecisionTarget {
    Face(i64),
    Cluster(i64),
    Person(String),
}

/// A hard rule that vetoed a decision.
#[derive(Clone, Debug, PartialEq, Eq)]
pub struct RuleVeto {
    pub rule_id: i64,
    pub kind: String,
}

impl RuleVeto {
    pub fn new(rule_id: i64, kind: &str) -> (r: Self)
        ensures
            r.rule_id == rule_id,
            r.kind@ == kind@,
    {
        RuleVeto { rule_id, kind: owned(kind) }
    }
}

/// Why decision evidence was refused.
#[derive(Clone, Debug, PartialEq, Eq)]
pub enum EvidenceError {
    UnsupportedSchemaVersion(u32),
    NonFinite(String),
    ProbabilityOutOfRange(String),
    ContributionMismatch,
    CalibratedScoreMismatch,
    MarginMismatch,
    OutcomeMismatch,
    DuplicateFeatureName(String),
    DuplicateRuleId(i64),
}

/// The message of an evidence error.
pub open spec fn evidence_error_text(e: EvidenceError) -> Seq<char> {
    match e {
        EvidenceError::UnsupportedSchemaVersion(v) => "unsupported face evidence schema version "@
            + decimal(v as nat),
        EvidenceError::NonFinite(field) => "face evidence field "@ + field@ + " is not finite"@,
        EvidenceError::ProbabilityOutOfRange(field) => "face evidence probability "@ + field@
            + " is outside 0..=1"@,
        EvidenceError::ContributionMismatch => "face evidence contributions do not reconstruct the raw logit"@,
        EvidenceError::CalibratedScoreMismatch => "face evidence calibration does not reconstruct confidence"@,
        EvidenceError::MarginMismatch => "face evidence margin does not match confidence minus threshold"@,
        EvidenceError::OutcomeMismatch => "face evidence outcome contradicts its score or rule vetoes"@,
        EvidenceError::DuplicateFeatureName(name) => "face evidence repeats feature "@ + name@,
        EvidenceError::DuplicateRuleId(id) => "face evidence repeats rule "@ + signed_decimal(
            id as int,
        ),
    }
}

impl EvidenceError {
    /// The message a reader sees.
    pub fn message(&self) -> (r: String)
        ensures
            r@ == evidence_error_text(*self),
    {
        match self {
            EvidenceError::UnsupportedSchemaVersion(v) => with_unsigned(
                "unsupported face evidence schema version ",
                *v as u64,
            ),
            EvidenceError::NonFinite(field) => {
                let mut m = owned("face evidence field ");
                m.append(field.as_str());
                m.append(" is not finite");
                m
            },
            EvidenceError::ProbabilityOutOfRange(field) => {
                let mut m = owned("face evidence probability ");
                m.append(field.as_str());
                m.append(" is outside 0..=1");
                m
            },
            EvidenceError::ContributionMismatch => owned(
                "face evidence contributions do not reconstruct the raw logit",
            ),
            EvidenceError::CalibratedScoreMismatch => owned(
                "face evidence calibration does not reconstruct confidence",
            ),
            EvidenceError::MarginMismatch => owned(
                "face evidence margin does not match confidence minus threshold",
            ),
            EvidenceError::OutcomeMismatch => owned(
                "face evidence outcome contradicts its score or rule vetoes",
            ),
            EvidenceError::DuplicateFeatureName(name) => {
                let mut m = owned("face evidence repeats feature ");
                m.append(name.as_str());
                m
            },
            EvidenceError::DuplicateRuleId(id) => with_number("face evidence repeats rule ", *id),
        }
    }
}

/// The id of the first veto whose rule an earlier veto already named.
pub open spec fn first_repeated_rule(rules: Seq<i64>, k: int) -> Option<i64>
    decreases rules.len() - k,
{
    if k < 0 || k >= rules.len() {
        None
    } else if exists|j: int| 0 <= j < k && rules[j] == rules[k] {
        Some(rules[k])
    } else {
        first_repeated_rule(rules, k + 1)
    }
}

/// The rule ids of a list of vetoes.
pub open spec fn rule_ids(v: Seq<RuleVeto>) -> Seq<i64> {
    Seq::new(v.len(), |i: int| v[i].rule_id)
}

/// Evidence names each vetoing rule once: the first repeated rule, if any.
pub fn check_rule_vetoes(rules: &[RuleVeto]) -> (r: Result<(), EvidenceError>)
    ensures
        match first_repeated_rule(rule_ids(rules@), 0) {
            Some(id) => r == Err::<(), EvidenceError>(EvidenceError::DuplicateRuleId(id)),
            None => r is Ok,
        },
{
    let ghost ids = rule_ids(rules@);
    let mut k: usize = 0;
    while k < rules.len()
        invariant
            k <= rules@.len(),
            ids == rule_ids(rules@),
            first_repeated_rule(ids, 0) == first_repeated_rule(ids, k as int),
        decreases rules@.len() - k,
    {
        let id = rules[k].rule_id;
        let mut j: usize = 0;
        while j < k
            invariant
                k < rules@.len(),
                ids == rule_ids(rules@),
                id == ids[k as int],
                first_repeated_rule(ids, 0) == first_repeated_rule(ids, k as int),
                j <= k,
                forall|i: int| 0 <= i < j ==> ids[i] != id,
            decreases k - j,
        {
            if rules[j].rule_id == id {
                assert(ids[j as int] == ids[k as int]);
                return Err(EvidenceError::DuplicateRuleId(id));
            }
            j = j + 1;
        }
        k = k + 1;
    }
    Ok(())
}

/// Whether feature `name` appears among the first `k` names.
pub fn name_seen(names: &[String], k: usize, name: &str) -> (r: bool)
    requires
        k <= names@.len(),
    ensures
        r == exists|j: int| 0 <= j < k && (#[trigger] names@[j])@ == name@,
{
    let mut j: usize = 0;
    while j < k
        invariant
            k <= names@.len(),
            j <= k,
            forall|i: int| 0 <= i < j ==> (#[trigger] names@[i])@ != name@,
        decreases k - j,
    {
        if str_equal(names[j].as_str(), name) {
            assert(names@[j as int]@ == name@);
            return true;
        }
        j = j + 1;
    }
    false
}

} // verus!

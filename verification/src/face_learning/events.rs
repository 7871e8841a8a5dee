//! Face-learning events: the stored names of their parts, the numbers read
//! back from storage, and the lifecycle of the learning state.

use vstd::prelude::*;
use crate::text::{owned, str_equal, signed_decimal, with_number, with_unsigned, trimmed, trim_chars,
    chars_of, decimal};
use crate::face_learning::features::{FeatureError, feature_error_text, membership_names,
    cluster_quality_names, string_views, is_membership_names, is_cluster_quality_names};
use crate::person::{identity_of, normalize};

verus! {

#[verifier::external_type_specification]
#[verifier::external_body]
pub struct ExSqlError(rusqlite::Error);

/// Why an event, a stored value or a state change was refused.
#[derive(Debug)]
pub enum LearningEventError {
    InvalidEvent(String),
    InvalidStoredValue(String),
    TransactionRequired,
    StateConflict(String),
    Sql(rusqlite::Error),
}

/// `rusqlite::Error`'s `Display`: the database's error as text. Nothing is
/// claimed of the text.
#[verifier::external_body]
pub(crate) fn sql_error_text(error: &rusqlite::Error) -> String {
    error.to_string()
}

/// The message of a learning event error; for a database error, the part
/// before the database's own text.
pub open spec fn learning_event_error_text(e: LearningEventError) -> Seq<char> {
    match e {
        LearningEventError::InvalidEvent(reason) => "invalid learning event: "@ + reason@,
        LearningEventError::InvalidStoredValue(reason) => "invalid stored learning value: "@
            + reason@,
        LearningEventError::TransactionRequired =>
            "learning event batches require an existing transaction"@,
        LearningEventError::StateConflict(reason) => "learning state conflict: "@ + reason@,
        LearningEventError::Sql(_) => "learning database error: "@,
    }
}

impl LearningEventError {
    /// The message a reader sees; a database error's message goes on with
    /// the database's own text.
    pub fn message(&self) -> (r: String)
        ensures
            !(*self is Sql) ==> r@ == learning_event_error_text(*self),
            exists|t: Seq<char>| r@ == learning_event_error_text(*self) + t,
    {
        let r = match self {
            LearningEventError::InvalidEvent(reason) => {
                let mut m = owned("invalid learning event: ");
                m.append(reason.as_str());
                m
            },
            LearningEventError::InvalidStoredValue(reason) => {
                let mut m = owned("invalid stored learning value: ");
                m.append(reason.as_str());
                m
            },
            LearningEventError::TransactionRequired => owned(
                "learning event batches require an existing transaction",
            ),
            LearningEventError::StateConflict(reason) => {
                let mut m = owned("learning state conflict: ");
                m.append(reason.as_str());
                m
            },
            LearningEventError::Sql(error) => {
                let mut m = owned("learning database error: ");
                let t = sql_error_text(error);
                m.append(t.as_str());
                m
            },
        };
        assert(r@ == learning_event_error_text(*self) + r@.skip(
            learning_event_error_text(*self).len() as int,
        ));
        r
    }
}

/// What the user did that produced a learning event.
#[derive(Clone, Copy, Debug, PartialEq, Eq, PartialOrd, Ord, Structural)]
pub enum LearningAction {
    LabelCluster,
    CreatePerson,
    AssignFace,
    AssignCluster,
    RemoveFaceFromCluster,
    RemoveFaceFromPerson,
    DissolveCluster,
    QuestionYes,
    QuestionNo,
}

/// The stored name of a learning action.
pub open spec fn learning_action_text(x: LearningAction) -> Seq<char> {
    match x {
        LearningAction::LabelCluster => "label_cluster"@,
        LearningAction::CreatePerson => "create_person"@,
        LearningAction::AssignFace => "assign_face"@,
        LearningAction::AssignCluster => "assign_cluster"@,
        LearningAction::RemoveFaceFromCluster => "remove_face_from_cluster"@,
        LearningAction::RemoveFaceFromPerson => "remove_face_from_person"@,
        LearningAction::DissolveCluster => "dissolve_cluster"@,
        LearningAction::QuestionYes => "question_yes"@,
        LearningAction::QuestionNo => "question_no"@,
    }
}

/// Different learning actions have different stored names.
pub proof fn lemma_learning_action_text_injective(a: LearningAction, b: LearningAction)
    ensures
        learning_action_text(a) == learning_action_text(b) ==> a == b,
{
    reveal_strlit("label_cluster");
    reveal_strlit("create_person");
    reveal_strlit("assign_face");
    reveal_strlit("assign_cluster");
    reveal_strlit("remove_face_from_cluster");
    reveal_strlit("remove_face_from_person");
    reveal_strlit("dissolve_cluster");
    reveal_strlit("question_yes");
    reveal_strlit("question_no");
    if a != b && learning_action_text(a) == learning_action_text(b) {
        assert(learning_action_text(a).len() == learning_action_text(b).len());
        assert(learning_action_text(a)[0] == learning_action_text(b)[0]);
    }
}

impl LearningAction {
    /// The stored name.
    pub fn as_str(self) -> (r: &'static str)
        ensures
            r@ == learning_action_text(self),
    {
        match self {
            LearningAction::LabelCluster => "label_cluster",
            LearningAction::CreatePerson => "create_person",
            LearningAction::AssignFace => "assign_face",
            LearningAction::AssignCluster => "assign_cluster",
            LearningAction::RemoveFaceFromCluster => "remove_face_from_cluster",
            LearningAction::RemoveFaceFromPerson => "remove_face_from_person",
            LearningAction::DissolveCluster => "dissolve_cluster",
            LearningAction::QuestionYes => "question_yes",
            LearningAction::QuestionNo => "question_no",
        }
    }

    /// The learning action a stored name stands for.
    pub fn parse(value: &str) -> (r: Result<Self, LearningEventError>)
        ensures
            match r {
                Ok(x) => learning_action_text(x) == value@,
                Err(e) => (forall|x: LearningAction| learning_action_text(x) != value@) && (e matches LearningEventError::InvalidStoredValue(m)
                    && m@ == "unknown learning action "@ + value@),
            },
    {
        if str_equal(value, "label_cluster") {
            Ok(LearningAction::LabelCluster)
        } else if str_equal(value, "create_person") {
            Ok(LearningAction::CreatePerson)
        } else if str_equal(value, "assign_face") {
            Ok(LearningAction::AssignFace)
        } else if str_equal(value, "assign_cluster") {
            Ok(LearningAction::AssignCluster)
        } else if str_equal(value, "remove_face_from_cluster") {
            Ok(LearningAction::RemoveFaceFromCluster)
        } else if str_equal(value, "remove_face_from_person") {
            Ok(LearningAction::RemoveFaceFromPerson)
        } else if str_equal(value, "dissolve_cluster") {
            Ok(LearningAction::DissolveCluster)
        } else if str_equal(value, "question_yes") {
            Ok(LearningAction::QuestionYes)
        } else if str_equal(value, "question_no") {
            Ok(LearningAction::QuestionNo)
        } else {
            let mut m = owned("unknown learning action ");
            m.append(value);
            Err(LearningEventError::InvalidStoredValue(m))
        }
    }
}

/// Which decision an event teaches: whether a face belongs to a person, or
/// whether a cluster is one person.
#[derive(Clone, Copy, Debug, PartialEq, Eq, PartialOrd, Ord, Structural)]
pub enum LearningDecisionKind {
    Membership,
    ClusterQuality,
}

/// The stored name of a learning decision kind.
pub open spec fn learning_decision_kind_text(x: LearningDecisionKind) -> Seq<char> {
    match x {
        LearningDecisionKind::Membership => "membership"@,
        LearningDecisionKind::ClusterQuality => "cluster_quality"@,
    }
}

/// Different learning decision kinds have different stored names.
pub proof fn lemma_learning_decision_kind_text_injective(a: LearningDecisionKind, b: LearningDecisionKind)
    ensures
        learning_decision_kind_text(a) == learning_decision_kind_text(b) ==> a == b,
{
    reveal_strlit("membership");
    reveal_strlit("cluster_quality");
    if a != b && learning_decision_kind_text(a) == learning_decision_kind_text(b) {
        assert(learning_decision_kind_text(a).len() == learning_decision_kind_text(b).len());
    }
}

impl LearningDecisionKind {
    /// The stored name.
    pub fn as_str(self) -> (r: &'static str)
        ensures
            r@ == learning_decision_kind_text(self),
    {
        match self {
            LearningDecisionKind::Membership => "membership",
            LearningDecisionKind::ClusterQuality => "cluster_quality",
        }
    }

    /// The learning decision kind a stored name stands for.
    pub fn parse(value: &str) -> (r: Result<Self, LearningEventError>)
        ensures
            match r {
                Ok(x) => learning_decision_kind_text(x) == value@,
                Err(e) => (forall|x: LearningDecisionKind| learning_decision_kind_text(x) != value@) && (e matches LearningEventError::InvalidStoredValue(m)
                    && m@ == "unknown learning decision kind "@ + value@),
            },
    {
        if str_equal(value, "membership") {
            Ok(LearningDecisionKind::Membership)
        } else if str_equal(value, "cluster_quality") {
            Ok(LearningDecisionKind::ClusterQuality)
        } else {
            let mut m = owned("unknown learning decision kind ");
            m.append(value);
            Err(LearningEventError::InvalidStoredValue(m))
        }
    }
}

/// Whether the decision was confirmed or refused.
#[derive(Clone, Copy, Debug, PartialEq, Eq, Structural)]
pub enum LearningOutcome {
    Positive,
    Negative,
}

/// The stored name of a learning outcome.
pub open spec fn learning_outcome_text(x: LearningOutcome) -> Seq<char> {
    match x {
        LearningOutcome::Positive => "positive"@,
        LearningOutcome::Negative => "negative"@,
    }
}

/// Different learning outcomes have different stored names.
pub proof fn lemma_learning_outcome_text_injective(a: LearningOutcome, b: LearningOutcome)
    ensures
        learning_outcome_text(a) == learning_outcome_text(b) ==> a == b,
{
    reveal_strlit("positive");
    reveal_strlit("negative");
    if a != b && learning_outcome_text(a) == learning_outcome_text(b) {
        assert(learning_outcome_text(a).len() == learning_outcome_text(b).len());
        assert(learning_outcome_text(a)[0] == learning_outcome_text(b)[0]);
    }
}

impl LearningOutcome {
    /// The stored name.
    pub fn as_str(self) -> (r: &'static str)
        ensures
            r@ == learning_outcome_text(self),
    {
        match self {
            LearningOutcome::Positive => "positive",
            LearningOutcome::Negative => "negative",
        }
    }

    /// The learning outcome a stored name stands for.
    pub fn parse(value: &str) -> (r: Result<Self, LearningEventError>)
        ensures
            match r {
                Ok(x) => learning_outcome_text(x) == value@,
                Err(e) => (forall|x: LearningOutcome| learning_outcome_text(x) != value@) && (e matches LearningEventError::InvalidStoredValue(m)
                    && m@ == "unknown learning outcome "@ + value@),
            },
    {
        if str_equal(value, "positive") {
            Ok(LearningOutcome::Positive)
        } else if str_equal(value, "negative") {
            Ok(LearningOutcome::Negative)
        } else {
            let mut m = owned("unknown learning outcome ");
            m.append(value);
            Err(LearningEventError::InvalidStoredValue(m))
        }
    }
}

/// The part a face plays in an event.
#[derive(Clone, Copy, Debug, PartialEq, Eq, PartialOrd, Ord, Structural)]
pub enum EventFaceRole {
    Subject,
    ClusterMember,
    TargetSupport,
}

/// The stored name of a event face role.
pub open spec fn event_face_role_text(x: EventFaceRole) -> Seq<char> {
    match x {
        EventFaceRole::Subject => "subject"@,
        EventFaceRole::ClusterMember => "cluster_member"@,
        EventFaceRole::TargetSupport => "target_support"@,
    }
}

/// Different event face roles have different stored names.
pub proof fn lemma_event_face_role_text_injective(a: EventFaceRole, b: EventFaceRole)
    ensures
        event_face_role_text(a) == event_face_role_text(b) ==> a == b,
{
    reveal_strlit("subject");
    reveal_strlit("cluster_member");
    reveal_strlit("target_support");
    if a != b && event_face_role_text(a) == event_face_role_text(b) {
        assert(event_face_role_text(a).len() == event_face_role_text(b).len());
        assert(event_face_role_text(a)[0] == event_face_role_text(b)[0]);
    }
}

impl EventFaceRole {
    /// The stored name.
    pub fn as_str(self) -> (r: &'static str)
        ensures
            r@ == event_face_role_text(self),
    {
        match self {
            EventFaceRole::Subject => "subject",
            EventFaceRole::ClusterMember => "cluster_member",
            EventFaceRole::TargetSupport => "target_support",
        }
    }

    /// The event face role a stored name stands for.
    pub fn parse(value: &str) -> (r: Result<Self, LearningEventError>)
        ensures
            match r {
                Ok(x) => event_face_role_text(x) == value@,
                Err(e) => (forall|x: EventFaceRole| event_face_role_text(x) != value@) && (e matches LearningEventError::InvalidStoredValue(m)
                    && m@ == "unknown event face role "@ + value@),
            },
    {
        if str_equal(value, "subject") {
            Ok(EventFaceRole::Subject)
        } else if str_equal(value, "cluster_member") {
            Ok(EventFaceRole::ClusterMember)
        } else if str_equal(value, "target_support") {
            Ok(EventFaceRole::TargetSupport)
        } else {
            let mut m = owned("unknown event face role ");
            m.append(value);
            Err(LearningEventError::InvalidStoredValue(m))
        }
    }
}

/// Why a stored event no longer counts as evidence.
#[derive(Clone, Copy, Debug, PartialEq, Eq, Structural)]
pub enum InvalidationReason {
    PersonRemoved,
    MissingRequiredContext,
}

/// The stored name of a invalidation reason.
pub open spec fn invalidation_reason_text(x: InvalidationReason) -> Seq<char> {
    match x {
        InvalidationReason::PersonRemoved => "person_removed"@,
        InvalidationReason::MissingRequiredContext => "missing_required_context"@,
    }
}

/// Different invalidation reasons have different stored names.
pub proof fn lemma_invalidation_reason_text_injective(a: InvalidationReason, b: InvalidationReason)
    ensures
        invalidation_reason_text(a) == invalidation_reason_text(b) ==> a == b,
{
    reveal_strlit("person_removed");
    reveal_strlit("missing_required_context");
    if a != b && invalidation_reason_text(a) == invalidation_reason_text(b) {
        assert(invalidation_reason_text(a).len() == invalidation_reason_text(b).len());
    }
}

impl InvalidationReason {
    /// The stored name.
    pub fn as_str(self) -> (r: &'static str)
        ensures
            r@ == invalidation_reason_text(self),
    {
        match self {
            InvalidationReason::PersonRemoved => "person_removed",
            InvalidationReason::MissingRequiredContext => "missing_required_context",
        }
    }

    /// The invalidation reason a stored name stands for.
    pub fn parse(value: &str) -> (r: Result<Self, LearningEventError>)
        ensures
            match r {
                Ok(x) => invalidation_reason_text(x) == value@,
                Err(e) => (forall|x: InvalidationReason| invalidation_reason_text(x) != value@) && (e matches LearningEventError::InvalidStoredValue(m)
                    && m@ == "unknown invalidation reason "@ + value@),
            },
    {
        if str_equal(value, "person_removed") {
            Ok(InvalidationReason::PersonRemoved)
        } else if str_equal(value, "missing_required_context") {
            Ok(InvalidationReason::MissingRequiredContext)
        } else {
            let mut m = owned("unknown invalidation reason ");
            m.append(value);
            Err(LearningEventError::InvalidStoredValue(m))
        }
    }
}

/// Where the learning lifecycle stands.
#[derive(Clone, Copy, Debug, PartialEq, Eq, Structural)]
pub enum LearningStatus {
    Current,
    Stale,
    Training,
    Failed,
    /// The last run found too little feedback to train on. Not a failure:
    /// the generation counts as evaluated, and new feedback retries it.
    Waiting,
}

/// The stored name of a learning status.
pub open spec fn learning_status_text(x: LearningStatus) -> Seq<char> {
    match x {
        LearningStatus::Current => "current"@,
        LearningStatus::Stale => "stale"@,
        LearningStatus::Training => "training"@,
        LearningStatus::Failed => "failed"@,
        LearningStatus::Waiting => "waiting"@,
    }
}

/// Different learning statuses have different stored names.
pub proof fn lemma_learning_status_text_injective(a: LearningStatus, b: LearningStatus)
    ensures
        learning_status_text(a) == learning_status_text(b) ==> a == b,
{
    reveal_strlit("current");
    reveal_strlit("stale");
    reveal_strlit("training");
    reveal_strlit("failed");
    reveal_strlit("waiting");
    if a != b && learning_status_text(a) == learning_status_text(b) {
        assert(learning_status_text(a).len() == learning_status_text(b).len());
        assert(learning_status_text(a)[0] == learning_status_text(b)[0]);
    }
}

impl LearningStatus {
    /// The stored name.
    pub fn as_str(self) -> (r: &'static str)
        ensures
            r@ == learning_status_text(self),
    {
        match self {
            LearningStatus::Current => "current",
            LearningStatus::Stale => "stale",
            LearningStatus::Training => "training",
            LearningStatus::Failed => "failed",
            LearningStatus::Waiting => "waiting",
        }
    }

    /// The learning status a stored name stands for.
    pub fn parse(value: &str) -> (r: Result<Self, LearningEventError>)
        ensures
            match r {
                Ok(x) => learning_status_text(x) == value@,
                Err(e) => (forall|x: LearningStatus| learning_status_text(x) != value@) && (e matches LearningEventError::InvalidStoredValue(m)
                    && m@ == "unknown learning status "@ + value@),
            },
    {
        if str_equal(value, "current") {
            Ok(LearningStatus::Current)
        } else if str_equal(value, "stale") {
            Ok(LearningStatus::Stale)
        } else if str_equal(value, "training") {
            Ok(LearningStatus::Training)
        } else if str_equal(value, "failed") {
            Ok(LearningStatus::Failed)
        } else if str_equal(value, "waiting") {
            Ok(LearningStatus::Waiting)
        } else {
            let mut m = owned("unknown learning status ");
            m.append(value);
            Err(LearningEventError::InvalidStoredValue(m))
        }
    }
}

/// One face an event rests on: its id, its role and its place in that role.
#[derive(Clone, Copy, Debug, PartialEq, Eq, Structural)]
pub struct EventFaceRef {
    pub face_id: i64,
    pub role: EventFaceRole,
    pub ordinal: u32,
}

/// What appending a batch of events gave back: the new generation and the
/// ids of the stored events, in order.
#[derive(Clone, Debug, PartialEq, Eq)]
pub struct LearningBatchReceipt {
    pub generation: u64,
    pub event_ids: Vec<i64>,
}

/// A stored integer as a `u64`, refused when negative.
pub fn nonnegative_u64(value: i64, name: &str) -> (r: Result<u64, LearningEventError>)
    ensures
        match r {
            Ok(v) => value >= 0 && v == value,
            Err(e) => value < 0 && (e matches LearningEventError::InvalidStoredValue(m) && m@
                == name@ + " is negative: "@ + signed_decimal(value as int)),
        },
{
    if value < 0 {
        let mut m = owned(name);
        m.append(" is negative: ");
        let n = with_number("", value);
        m.append(n.as_str());
        assert(""@ + signed_decimal(value as int) =~= signed_decimal(value as int)) by {
            reveal_strlit("");
        }
        Err(LearningEventError::InvalidStoredValue(m))
    } else {
        Ok(value as u64)
    }
}

/// A stored integer as a `u32`, refused when out of its range.
pub fn nonnegative_u32(value: i64, name: &str) -> (r: Result<u32, LearningEventError>)
    ensures
        match r {
            Ok(v) => 0 <= value <= u32::MAX && v == value,
            Err(e) => !(0 <= value <= u32::MAX) && (e matches LearningEventError::InvalidStoredValue(
                m,
            ) && m@ == name@ + " is out of range: "@ + signed_decimal(value as int)),
        },
{
    if value < 0 || value > 0xffff_ffff {
        let mut m = owned(name);
        m.append(" is out of range: ");
        let n = with_number("", value);
        m.append(n.as_str());
        assert(""@ + signed_decimal(value as int) =~= signed_decimal(value as int)) by {
            reveal_strlit("");
        }
        Err(LearningEventError::InvalidStoredValue(m))
    } else {
        Ok(value as u32)
    }
}


/// The learning state: the generation of the feedback, the last generation
/// trained, the status, the generation being trained, the last profile
/// trained and the last error or note.
#[derive(Clone, Debug, PartialEq, Eq)]
pub struct LearningState {
    pub generation: u64,
    pub trained_generation: u64,
    pub status: LearningStatus,
    pub training_generation: Option<u64>,
    pub last_profile_id: Option<i64>,
    pub last_error: Option<String>,
}

/// The fields of a learning state, in declaration order, the last error by
/// its characters.
pub type StateView = (u64, u64, LearningStatus, Option<u64>, Option<i64>, Option<Seq<char>>);

impl View for LearningState {
    type V = StateView;

    open spec fn view(&self) -> StateView {
        (
            self.generation,
            self.trained_generation,
            self.status,
            self.training_generation,
            self.last_profile_id,
            match self.last_error {
                Some(e) => Some(e@),
                None => None,
            },
        )
    }
}

/// What every stored state satisfies: nothing trained beyond the current
/// generation, a generation in training exactly while training, and that
/// generation not beyond the current one.
pub open spec fn consistent(s: StateView) -> bool {
    &&& s.1 <= s.0
    &&& (s.2 == LearningStatus::Training) == (s.3 is Some)
    &&& (s.3 matches Some(t) ==> t <= s.0)
}

/// The state after new feedback: one generation on, stale unless a
/// training run is under way, whose note it keeps.
pub open spec fn feedback_spec(s: StateView) -> StateView {
    let training = s.2 == LearningStatus::Training;
    (
        (s.0 + 1) as u64,
        s.1,
        if training {
            LearningStatus::Training
        } else {
            LearningStatus::Stale
        },
        s.3,
        s.4,
        if training {
            s.5
        } else {
            None
        },
    )
}

/// The state once training starts, when a stale or failed generation is
/// newer than the one trained, or the state is waiting; `None` otherwise.
pub open spec fn start_spec(s: StateView) -> Option<StateView> {
    if (s.0 > s.1 && (s.2 == LearningStatus::Stale || s.2 == LearningStatus::Failed)) || s.2
        == LearningStatus::Waiting {
        Some((s.0, s.1, LearningStatus::Training, Some(s.0), s.4, None))
    } else {
        None
    }
}

/// Whether generation `g` is the one in training.
pub open spec fn training_of(s: StateView, g: u64) -> bool {
    s.2 == LearningStatus::Training && s.3 == Some(g)
}

/// The state after training generation `g` failed with `error`.
pub open spec fn failed_spec(s: StateView, g: u64, error: Seq<char>) -> Option<StateView> {
    if training_of(s, g) {
        Some((s.0, s.1, LearningStatus::Failed, None, s.4, Some(error)))
    } else {
        None
    }
}

/// The state after generation `g` turned out too thin to train, with what
/// would change that: evaluated, and waiting unless newer feedback came.
pub open spec fn waiting_spec(s: StateView, g: u64, needed: Seq<char>) -> Option<StateView> {
    if training_of(s, g) {
        Some(
            (
                s.0,
                g,
                if s.0 == g {
                    LearningStatus::Waiting
                } else {
                    LearningStatus::Stale
                },
                None,
                s.4,
                if s.0 == g {
                    Some(needed)
                } else {
                    None
                },
            ),
        )
    } else {
        None
    }
}

/// The state after generation `g` was trained into profile `profile`:
/// current unless newer feedback came.
pub open spec fn trained_spec(s: StateView, g: u64, profile: Option<i64>) -> Option<StateView> {
    if training_of(s, g) {
        Some(
            (
                s.0,
                g,
                if s.0 == g {
                    LearningStatus::Current
                } else {
                    LearningStatus::Stale
                },
                None,
                profile,
                None,
            ),
        )
    } else {
        None
    }
}

/// The largest value a stored integer holds.
pub const STORED_MAX: u64 = 0x7fff_ffff_ffff_ffff;

/// The first reason a stored state row is refused, if any.
pub open spec fn state_row_error(
    generation: i64,
    trained: i64,
    status: Seq<char>,
    training: Option<i64>,
) -> Option<Seq<char>> {
    if generation < 0 {
        Some("generation"@ + " is negative: "@ + signed_decimal(generation as int))
    } else if trained < 0 {
        Some("trained generation"@ + " is negative: "@ + signed_decimal(trained as int))
    } else if trained > generation {
        Some("trained generation exceeds current generation"@)
    } else if forall|x: LearningStatus| learning_status_text(x) != status {
        Some("unknown learning status "@ + status)
    } else if training matches Some(t) && t < 0 {
        Some("training generation"@ + " is negative: "@ + signed_decimal(training->0 as int))
    } else if (status == learning_status_text(LearningStatus::Training)) != (training is Some) {
        Some("training status and generation disagree"@)
    } else if training matches Some(t) && t > generation {
        Some("training generation exceeds current generation"@)
    } else {
        None
    }
}

impl LearningState {
    /// The state a stored row holds, checked: counts not negative, nothing
    /// trained or training beyond the current generation, a known status,
    /// and a training generation exactly while training.
    pub fn from_row(
        generation: i64,
        trained_generation: i64,
        status: &str,
        training_generation: Option<i64>,
        last_profile_id: Option<i64>,
        last_error: Option<String>,
    ) -> (r: Result<LearningState, LearningEventError>)
        ensures
            match r {
                Ok(st) => state_row_error(generation, trained_generation, status@, training_generation)
                    is None && st.generation == generation && st.trained_generation
                    == trained_generation && learning_status_text(st.status) == status@ && (match (
                    st.training_generation,
                    training_generation,
                ) {
                    (Some(a), Some(b)) => a == b,
                    (None, None) => true,
                    _ => false,
                }) && st.last_profile_id == last_profile_id && st@.5 == (match last_error {
                    Some(e) => Some(e@),
                    None => None,
                }) && consistent(st@),
                Err(e) => e matches LearningEventError::InvalidStoredValue(m) && state_row_error(
                    generation,
                    trained_generation,
                    status@,
                    training_generation,
                ) == Some(m@),
            },
    {
        let g = match nonnegative_u64(generation, "generation") {
            Ok(v) => v,
            Err(e) => {
                return Err(e);
            },
        };
        let t = match nonnegative_u64(trained_generation, "trained generation") {
            Ok(v) => v,
            Err(e) => {
                return Err(e);
            },
        };
        if t > g {
            return Err(
                LearningEventError::InvalidStoredValue(
                    owned("trained generation exceeds current generation"),
                ),
            );
        }
        let st = match LearningStatus::parse(status) {
            Ok(x) => x,
            Err(e) => {
                return Err(e);
            },
        };
        proof {
            assert(exists|x: LearningStatus| learning_status_text(x) == status@);
        }
        let training = match training_generation {
            Some(v) => match nonnegative_u64(v, "training generation") {
                Ok(u) => Some(u),
                Err(e) => {
                    return Err(e);
                },
            },
            None => None,
        };
        let is_training = match st {
            LearningStatus::Training => true,
            _ => false,
        };
        proof {
            lemma_learning_status_text_injective(st, LearningStatus::Training);
        }
        if is_training != training.is_some() {
            return Err(
                LearningEventError::InvalidStoredValue(
                    owned("training status and generation disagree"),
                ),
            );
        }
        match training {
            Some(v) => {
                if v > g {
                    return Err(
                        LearningEventError::InvalidStoredValue(
                            owned("training generation exceeds current generation"),
                        ),
                    );
                }
            },
            None => {},
        }
        Ok(
            LearningState {
                generation: g,
                trained_generation: t,
                status: st,
                training_generation: training,
                last_profile_id,
                last_error,
            },
        )
    }

    /// The state after new feedback.
    pub fn with_new_feedback(&self) -> (r: LearningState)
        requires
            self.generation < STORED_MAX,
        ensures
            r@ == feedback_spec(self@),
            consistent(self@) ==> consistent(r@),
            r.generation == self.generation + 1,
    {
        let training = match self.status {
            LearningStatus::Training => true,
            _ => false,
        };
        LearningState {
            generation: self.generation + 1,
            trained_generation: self.trained_generation,
            status: if training {
                LearningStatus::Training
            } else {
                LearningStatus::Stale
            },
            training_generation: self.training_generation,
            last_profile_id: self.last_profile_id,
            last_error: if training {
                match &self.last_error {
                    Some(e) => Some(owned(e.as_str())),
                    None => None,
                }
            } else {
                None
            },
        }
    }

    /// The state after removing a person's evidence: new feedback when any
    /// event or pending question changed, else the state as it was.
    pub fn after_invalidation(&self, invalidated: usize, superseded: usize) -> (r: LearningState)
        requires
            invalidated > 0 || superseded > 0 ==> self.generation < STORED_MAX,
        ensures
            r@ == if invalidated > 0 || superseded > 0 {
                feedback_spec(self@)
            } else {
                self@
            },
    {
        if invalidated > 0 || superseded > 0 {
            self.with_new_feedback()
        } else {
            self.copy()
        }
    }

    /// A copy of the state.
    pub fn copy(&self) -> (r: LearningState)
        ensures
            r@ == self@,
    {
        LearningState {
            generation: self.generation,
            trained_generation: self.trained_generation,
            status: self.status,
            training_generation: self.training_generation,
            last_profile_id: self.last_profile_id,
            last_error: match &self.last_error {
                Some(e) => Some(owned(e.as_str())),
                None => None,
            },
        }
    }

    /// Start training the current generation.
    pub fn start_training(&self) -> (r: Result<LearningState, LearningEventError>)
        ensures
            match r {
                Ok(t) => start_spec(self@) == Some(t@),
                Err(e) => start_spec(self@) is None && (e matches LearningEventError::StateConflict(
                    m,
                ) && m@ == "no stale generation is available to train"@),
            },
            r matches Ok(t) ==> (consistent(self@) ==> consistent(t@)),
    {
        let ok = match self.status {
            LearningStatus::Stale => self.generation > self.trained_generation,
            LearningStatus::Failed => self.generation > self.trained_generation,
            LearningStatus::Waiting => true,
            _ => false,
        };
        if !ok {
            return Err(
                LearningEventError::StateConflict(owned("no stale generation is available to train")),
            );
        }
        Ok(
            LearningState {
                generation: self.generation,
                trained_generation: self.trained_generation,
                status: LearningStatus::Training,
                training_generation: Some(self.generation),
                last_profile_id: self.last_profile_id,
                last_error: None,
            },
        )
    }

    fn is_training(&self, generation: u64) -> (r: bool)
        ensures
            r == training_of(self@, generation),
    {
        match (self.status, self.training_generation) {
            (LearningStatus::Training, Some(g)) => g == generation,
            _ => false,
        }
    }

    /// Record that training `generation` failed with `error`.
    pub fn training_failed(&self, generation: u64, error: &str) -> (r: Result<
        LearningState,
        LearningEventError,
    >)
        ensures
            trimmed(error@).len() == 0 ==> (r matches Err(e) && (e matches LearningEventError::StateConflict(
                m,
            ) && m@ == "training failure message is empty"@)),
            trimmed(error@).len() > 0 && generation > STORED_MAX ==> (r matches Err(e) && (e matches LearningEventError::StateConflict(
                m,
            ) && m@ == "training generation is out of range"@)),
            trimmed(error@).len() > 0 && generation <= STORED_MAX ==> match failed_spec(
                self@,
                generation,
                error@,
            ) {
                Some(t) => r matches Ok(u) && u@ == t,
                None => r matches Err(e) && (e matches LearningEventError::StateConflict(m) && m@
                    == "generation "@ + signed_decimal(generation as int) + " is not training"@),
            },
            r matches Ok(u) ==> (consistent(self@) ==> consistent(u@)),
    {
        if trim_chars(chars_of(error).as_slice()).len() == 0 {
            return Err(LearningEventError::StateConflict(owned("training failure message is empty")));
        }
        if generation > STORED_MAX {
            return Err(LearningEventError::StateConflict(owned("training generation is out of range")));
        }
        if !self.is_training(generation) {
            let mut m = with_number("generation ", generation as i64);
            m.append(" is not training");
            return Err(LearningEventError::StateConflict(m));
        }
        Ok(
            LearningState {
                generation: self.generation,
                trained_generation: self.trained_generation,
                status: LearningStatus::Failed,
                training_generation: None,
                last_profile_id: self.last_profile_id,
                last_error: Some(owned(error)),
            },
        )
    }

    /// Record that `generation` could not be trained because the feedback so
    /// far is too thin, with `needed` saying what would change that. Unlike
    /// a failure the generation counts as evaluated.
    pub fn training_waiting(&self, generation: u64, needed: &str) -> (r: Result<
        LearningState,
        LearningEventError,
    >)
        ensures
            trimmed(needed@).len() == 0 ==> (r matches Err(e) && (e matches LearningEventError::StateConflict(
                m,
            ) && m@ == "the feedback needed is empty"@)),
            trimmed(needed@).len() > 0 && generation > STORED_MAX ==> (r matches Err(e) && (e matches LearningEventError::StateConflict(
                m,
            ) && m@ == "training generation is out of range"@)),
            trimmed(needed@).len() > 0 && generation <= STORED_MAX ==> match waiting_spec(
                self@,
                generation,
                needed@,
            ) {
                Some(t) => r matches Ok(u) && u@ == t,
                None => r matches Err(e) && (e matches LearningEventError::StateConflict(m) && m@
                    == "generation "@ + signed_decimal(generation as int) + " is not training"@),
            },
            r matches Ok(u) ==> (consistent(self@) ==> consistent(u@)),
    {
        if trim_chars(chars_of(needed).as_slice()).len() == 0 {
            return Err(LearningEventError::StateConflict(owned("the feedback needed is empty")));
        }
        if generation > STORED_MAX {
            return Err(LearningEventError::StateConflict(owned("training generation is out of range")));
        }
        if !self.is_training(generation) {
            let mut m = with_number("generation ", generation as i64);
            m.append(" is not training");
            return Err(LearningEventError::StateConflict(m));
        }
        let same = self.generation == generation;
        Ok(
            LearningState {
                generation: self.generation,
                trained_generation: generation,
                status: if same {
                    LearningStatus::Waiting
                } else {
                    LearningStatus::Stale
                },
                training_generation: None,
                last_profile_id: self.last_profile_id,
                last_error: if same {
                    Some(owned(needed))
                } else {
                    None
                },
            },
        )
    }

    /// Record that `generation` was trained into profile `profile_id`.
    pub fn generation_trained(&self, generation: u64, profile_id: Option<i64>) -> (r: Result<
        LearningState,
        LearningEventError,
    >)
        ensures
            generation > STORED_MAX ==> (r matches Err(e) && (e matches LearningEventError::StateConflict(
                m,
            ) && m@ == "trained generation is out of range"@)),
            generation <= STORED_MAX ==> match trained_spec(self@, generation, profile_id) {
                Some(t) => r matches Ok(u) && u@ == t,
                None => r matches Err(e) && (e matches LearningEventError::StateConflict(m) && m@
                    == "generation "@ + signed_decimal(generation as int) + " is not training"@),
            },
            r matches Ok(u) ==> (consistent(self@) ==> consistent(u@)),
    {
        if generation > STORED_MAX {
            return Err(LearningEventError::StateConflict(owned("trained generation is out of range")));
        }
        if !self.is_training(generation) {
            let mut m = with_number("generation ", generation as i64);
            m.append(" is not training");
            return Err(LearningEventError::StateConflict(m));
        }
        let same = self.generation == generation;
        Ok(
            LearningState {
                generation: self.generation,
                trained_generation: generation,
                status: if same {
                    LearningStatus::Current
                } else {
                    LearningStatus::Stale
                },
                training_generation: None,
                last_profile_id: profile_id,
                last_error: None,
            },
        )
    }
}

/// New feedback always makes an idle state trainable: whatever the last run
/// found (current, failed or waiting), the next start is accepted.
pub proof fn lemma_feedback_makes_trainable(s: StateView)
    requires
        consistent(s),
        s.2 != LearningStatus::Training,
        s.0 < STORED_MAX,
    ensures
        start_spec(feedback_spec(s)) is Some,
{
}

/// A training run that sees no new feedback leaves the state current, with
/// the trained generation caught up.
pub proof fn lemma_training_without_feedback_is_current(s: StateView, profile: Option<i64>)
    requires
        consistent(s),
        start_spec(s) is Some,
    ensures
        trained_spec(start_spec(s)->0, s.0, profile) matches Some(u) && u.2
            == LearningStatus::Current && u.1 == u.0 && u.4 == profile,
{
}

/// Feedback that arrives during a run keeps the run going, and the state it
/// finishes in is stale, so the new feedback is trained next.
pub proof fn lemma_feedback_during_training_stays_stale(s: StateView, profile: Option<i64>)
    requires
        consistent(s),
        start_spec(s) is Some,
        s.0 < STORED_MAX,
    ensures
        trained_spec(feedback_spec(start_spec(s)->0), s.0, profile) matches Some(u) && u.2
            == LearningStatus::Stale && u.1 < u.0 && start_spec(u) is Some,
{
}

/// Every change of state keeps it consistent: whatever sequence of feedback,
/// starts and finishes, the stored state is always one a reader accepts.
pub proof fn lemma_transitions_keep_consistency(
    s: StateView,
    g: u64,
    text: Seq<char>,
    profile: Option<i64>,
)
    requires
        consistent(s),
    ensures
        s.0 < STORED_MAX ==> consistent(feedback_spec(s)),
        start_spec(s) matches Some(t) ==> consistent(t),
        failed_spec(s, g, text) matches Some(t) ==> consistent(t),
        waiting_spec(s, g, text) matches Some(t) ==> consistent(t),
        trained_spec(s, g, profile) matches Some(t) ==> consistent(t),
        s.0 < STORED_MAX ==> feedback_spec(s).0 == s.0 + 1,
{
}


// ---- the shape of a new event ----

/// How a role prints in a message.
pub open spec fn role_debug(r: EventFaceRole) -> Seq<char> {
    match r {
        EventFaceRole::Subject => "Subject"@,
        EventFaceRole::ClusterMember => "ClusterMember"@,
        EventFaceRole::TargetSupport => "TargetSupport"@,
    }
}

fn role_debug_str(r: EventFaceRole) -> (s: &'static str)
    ensures
        s@ == role_debug(r),
{
    match r {
        EventFaceRole::Subject => "Subject",
        EventFaceRole::ClusterMember => "ClusterMember",
        EventFaceRole::TargetSupport => "TargetSupport",
    }
}

/// How many of `faces` have role `role`.
pub open spec fn role_count(faces: Seq<EventFaceRef>, role: EventFaceRole) -> nat
    decreases faces.len(),
{
    if faces.len() == 0 {
        0
    } else {
        role_count(faces.drop_last(), role) + if faces.last().role == role {
            1nat
        } else {
            0nat
        }
    }
}

/// What is wrong with face `k` given the faces before it: an id that is not
/// positive, an id seen before, or a role and ordinal seen before.
pub open spec fn face_problem(faces: Seq<EventFaceRef>, k: int) -> Option<Seq<char>> {
    let f = faces[k];
    if f.face_id <= 0 {
        Some("face id "@ + signed_decimal(f.face_id as int) + " is not positive"@)
    } else if exists|j: int| 0 <= j < k && (#[trigger] faces[j]).face_id == f.face_id {
        Some("face "@ + signed_decimal(f.face_id as int) + " appears more than once"@)
    } else if exists|j: int|
        0 <= j < k && (#[trigger] faces[j]).role == f.role && faces[j].ordinal == f.ordinal {
        Some("duplicate "@ + role_debug(f.role) + " ordinal "@ + decimal(f.ordinal as nat))
    } else {
        None
    }
}

/// The problem of the first face from `k` on that has one.
pub open spec fn first_face_problem(faces: Seq<EventFaceRef>, k: int) -> Option<Seq<char>>
    decreases faces.len() - k,
{
    if k < 0 || k >= faces.len() {
        None
    } else {
        match face_problem(faces, k) {
            Some(m) => Some(m),
            None => first_face_problem(faces, k + 1),
        }
    }
}

/// The ordinals of role `role` are contiguous from zero: with distinct
/// ordinals, the same as every one of them being below their count.
pub open spec fn contiguous(faces: Seq<EventFaceRef>, role: EventFaceRole) -> bool {
    forall|i: int|
        0 <= i < faces.len() && (#[trigger] faces[i]).role == role ==> faces[i].ordinal
            < role_count(faces, role)
}

/// The first role, in role order, whose ordinals are not contiguous.
pub open spec fn first_gap(faces: Seq<EventFaceRef>) -> Option<EventFaceRole> {
    if !contiguous(faces, EventFaceRole::Subject) {
        Some(EventFaceRole::Subject)
    } else if !contiguous(faces, EventFaceRole::ClusterMember) {
        Some(EventFaceRole::ClusterMember)
    } else if !contiguous(faces, EventFaceRole::TargetSupport) {
        Some(EventFaceRole::TargetSupport)
    } else {
        None
    }
}

/// The faces fit the decision: a membership decision has subjects and
/// target support and no cluster, a cluster decision at least two cluster
/// members and nothing else, and the support count counts the support.
pub open spec fn provenance_matches(
    kind: LearningDecisionKind,
    faces: Seq<EventFaceRef>,
    support_count: u32,
) -> bool {
    let subjects = role_count(faces, EventFaceRole::Subject);
    let support = role_count(faces, EventFaceRole::TargetSupport);
    let cluster = role_count(faces, EventFaceRole::ClusterMember);
    match kind {
        LearningDecisionKind::Membership => subjects > 0 && support > 0 && cluster == 0
            && support_count == support,
        LearningDecisionKind::ClusterQuality => subjects == 0 && support == 0 && cluster >= 2
            && support_count == cluster,
    }
}

/// The schema a decision kind's features follow.
pub open spec fn expected_names(kind: LearningDecisionKind) -> Seq<Seq<char>> {
    match kind {
        LearningDecisionKind::Membership => membership_names(),
        LearningDecisionKind::ClusterQuality => cluster_quality_names(),
    }
}

/// The first reason a new event is refused, in the order the checks run,
/// or `None` when it may be recorded.
pub open spec fn event_problem(
    embedding_model_id: Seq<char>,
    kind: LearningDecisionKind,
    feature_names: Seq<Seq<char>>,
    feature_error: Option<FeatureError>,
    confidence_is_probability: bool,
    target_identity: Option<Seq<char>>,
    faces: Seq<EventFaceRef>,
    support_count: u32,
) -> Option<Seq<char>> {
    if trimmed(embedding_model_id).len() == 0 {
        Some("embedding model id is empty"@)
    } else if feature_error is Some {
        Some(feature_error_text(feature_error->0))
    } else if feature_names != expected_names(kind) {
        Some("feature schema does not match decision kind"@)
    } else if !confidence_is_probability {
        Some("scorer confidence is not a probability"@)
    } else if target_identity is Some && identity_of(target_identity->0) != target_identity {
        Some("target identity is not normalized"@)
    } else if faces.len() == 0 {
        Some("event provenance is empty"@)
    } else if first_face_problem(faces, 0) is Some {
        first_face_problem(faces, 0)
    } else if !provenance_matches(kind, faces, support_count) {
        Some("provenance does not match decision kind or support count"@)
    } else if first_gap(faces) is Some {
        Some(role_debug(first_gap(faces)->0) + " ordinals are not contiguous"@)
    } else {
        None
    }
}

fn count_role(faces: &[EventFaceRef], role: EventFaceRole) -> (r: usize)
    ensures
        r == role_count(faces@, role),
{
    let mut n: usize = 0;
    let mut i: usize = 0;
    while i < faces.len()
        invariant
            i <= faces@.len(),
            n == role_count(faces@.take(i as int), role),
            n <= i,
        decreases faces@.len() - i,
    {
        assert(faces@.take(i + 1).drop_last() =~= faces@.take(i as int));
        if faces[i].role == role {
            n = n + 1;
        }
        i = i + 1;
    }
    assert(faces@.take(faces@.len() as int) =~= faces@);
    n
}

fn ordinals_contiguous(faces: &[EventFaceRef], role: EventFaceRole) -> (r: bool)
    ensures
        r == contiguous(faces@, role),
{
    let n = count_role(faces, role);
    let mut i: usize = 0;
    while i < faces.len()
        invariant
            i <= faces@.len(),
            n == role_count(faces@, role),
            forall|j: int|
                0 <= j < i && (#[trigger] faces@[j]).role == role ==> faces@[j].ordinal < n,
        decreases faces@.len() - i,
    {
        if faces[i].role == role && faces[i].ordinal as usize >= n {
            return false;
        }
        i = i + 1;
    }
    true
}

/// Why face `k` cannot be recorded, given the faces before it.
fn check_face(faces: &[EventFaceRef], k: usize) -> (r: Option<String>)
    requires
        k < faces@.len(),
    ensures
        match r {
            Some(m) => face_problem(faces@, k as int) == Some(m@),
            None => face_problem(faces@, k as int) is None,
        },
{
    let f = faces[k];
    if f.face_id <= 0 {
        let mut m = with_number("face id ", f.face_id);
        m.append(" is not positive");
        return Some(m);
    }
    let mut j: usize = 0;
    while j < k
        invariant
            k < faces@.len(),
            f == faces@[k as int],
            f.face_id > 0,
            j <= k,
            forall|i: int| 0 <= i < j ==> (#[trigger] faces@[i]).face_id != f.face_id,
        decreases k - j,
    {
        if faces[j].face_id == f.face_id {
            assert(faces@[j as int].face_id == f.face_id);
            let mut m = with_number("face ", f.face_id);
            m.append(" appears more than once");
            return Some(m);
        }
        j = j + 1;
    }
    let mut j: usize = 0;
    while j < k
        invariant
            k < faces@.len(),
            f == faces@[k as int],
            f.face_id > 0,
            forall|i: int| 0 <= i < k ==> (#[trigger] faces@[i]).face_id != f.face_id,
            j <= k,
            forall|i: int|
                0 <= i < j ==> !((#[trigger] faces@[i]).role == f.role && faces@[i].ordinal
                    == f.ordinal),
        decreases k - j,
    {
        if faces[j].role == f.role && faces[j].ordinal == f.ordinal {
            assert(faces@[j as int].role == f.role && faces@[j as int].ordinal == f.ordinal);
            assert(!exists|i: int| 0 <= i < k && (#[trigger] faces@[i]).face_id == f.face_id);
            let mut m = owned("duplicate ");
            m.append(role_debug_str(f.role));
            let n = with_unsigned(" ordinal ", f.ordinal as u64);
            m.append(n.as_str());
            return Some(m);
        }
        j = j + 1;
    }
    None
}

/// Check a new event before it is recorded, from its parts: the embedding
/// model id, the decision kind, its feature names in order, what checking
/// its feature vector gave, whether the scorer confidence (if any) is a
/// probability, the target identity, its faces and its support count.
pub fn validate_new_event(
    embedding_model_id: &str,
    decision_kind: LearningDecisionKind,
    feature_names: &[String],
    feature_check: &Result<(), FeatureError>,
    confidence_is_probability: bool,
    target_identity: Option<&str>,
    faces: &[EventFaceRef],
    support_count: u32,
) -> (r: Result<(), LearningEventError>)
    ensures
        ({
            let p = event_problem(
                embedding_model_id@,
                decision_kind,
                string_views(feature_names@),
                match feature_check {
                    Err(e) => Some(*e),
                    Ok(_) => None,
                },
                confidence_is_probability,
                match target_identity {
                    Some(t) => Some(t@),
                    None => None,
                },
                faces@,
                support_count,
            );
            match r {
                Ok(_) => p is None,
                Err(e) => e matches LearningEventError::InvalidEvent(m) && p == Some(m@),
            }
        }),
{
    if trim_chars(chars_of(embedding_model_id).as_slice()).len() == 0 {
        return Err(LearningEventError::InvalidEvent(owned("embedding model id is empty")));
    }
    match feature_check {
        Err(e) => {
            return Err(LearningEventError::InvalidEvent(e.message()));
        },
        Ok(_) => {},
    }
    let names_ok = match decision_kind {
        LearningDecisionKind::Membership => is_membership_names(feature_names),
        LearningDecisionKind::ClusterQuality => is_cluster_quality_names(feature_names),
    };
    if !names_ok {
        return Err(
            LearningEventError::InvalidEvent(owned("feature schema does not match decision kind")),
        );
    }
    if !confidence_is_probability {
        return Err(LearningEventError::InvalidEvent(owned("scorer confidence is not a probability")));
    }
    match target_identity {
        Some(id) => {
            let same = match normalize(id) {
                Some(n) => str_equal(n.as_str(), id),
                None => false,
            };
            if !same {
                return Err(LearningEventError::InvalidEvent(owned("target identity is not normalized")));
            }
        },
        None => {},
    }
    if faces.len() == 0 {
        return Err(LearningEventError::InvalidEvent(owned("event provenance is empty")));
    }
    let mut k: usize = 0;
    let mut problem: Option<String> = None;
    while k < faces.len() && problem.is_none()
        invariant
            k <= faces@.len(),
            problem is None ==> first_face_problem(faces@, 0) == first_face_problem(faces@, k as int),
            problem matches Some(m) ==> first_face_problem(faces@, 0) == Some(m@),
        decreases faces@.len() - k,
    {
        problem = check_face(faces, k);
        k = k + 1;
    }
    match problem {
        Some(m) => {
            return Err(LearningEventError::InvalidEvent(m));
        },
        None => {},
    }
    let subjects = count_role(faces, EventFaceRole::Subject);
    let support = count_role(faces, EventFaceRole::TargetSupport);
    let cluster = count_role(faces, EventFaceRole::ClusterMember);
    let matches = match decision_kind {
        LearningDecisionKind::Membership => subjects > 0 && support > 0 && cluster == 0
            && support_count as usize == support,
        LearningDecisionKind::ClusterQuality => subjects == 0 && support == 0 && cluster >= 2
            && support_count as usize == cluster,
    };
    if !matches {
        return Err(
            LearningEventError::InvalidEvent(
                owned("provenance does not match decision kind or support count"),
            ),
        );
    }
    if !ordinals_contiguous(faces, EventFaceRole::Subject) {
        let mut m = owned("Subject");
        m.append(" ordinals are not contiguous");
        return Err(LearningEventError::InvalidEvent(m));
    }
    if !ordinals_contiguous(faces, EventFaceRole::ClusterMember) {
        let mut m = owned("ClusterMember");
        m.append(" ordinals are not contiguous");
        return Err(LearningEventError::InvalidEvent(m));
    }
    if !ordinals_contiguous(faces, EventFaceRole::TargetSupport) {
        let mut m = owned("TargetSupport");
        m.append(" ordinals are not contiguous");
        return Err(LearningEventError::InvalidEvent(m));
    }
    Ok(())
}

/// The invalidation reason a stored name stands for, if any.
pub open spec fn reason_named(text: Seq<char>) -> Option<InvalidationReason> {
    if text == invalidation_reason_text(InvalidationReason::PersonRemoved) {
        Some(InvalidationReason::PersonRemoved)
    } else if text == invalidation_reason_text(InvalidationReason::MissingRequiredContext) {
        Some(InvalidationReason::MissingRequiredContext)
    } else {
        None
    }
}

/// What a stored event's model id, `eligible` column and invalidation
/// reason read as: whether it is eligible and why not, or why the row is
/// refused. An eligible event has no reason and an ineligible one has one.
pub open spec fn stored_eligibility(
    embedding_model_id: Seq<char>,
    eligible: i64,
    reason: Option<Seq<char>>,
) -> Result<(bool, Option<InvalidationReason>), Seq<char>> {
    if trimmed(embedding_model_id).len() == 0 {
        Err("embedding model id is empty"@)
    } else if eligible != 0 && eligible != 1 {
        Err("eligible is not boolean: "@ + signed_decimal(eligible as int))
    } else {
        match reason {
            Some(text) => match reason_named(text) {
                None => Err("unknown invalidation reason "@ + text),
                Some(x) => if eligible == 1 {
                    Err("eligibility and invalidation reason disagree"@)
                } else {
                    Ok((false, Some(x)))
                },
            },
            None => if eligible == 0 {
                Err("eligibility and invalidation reason disagree"@)
            } else {
                Ok((true, None))
            },
        }
    }
}

/// Read a stored event's eligibility: its model id must not be blank, the
/// `eligible` column must be 0 or 1, the reason must be a known one, and
/// exactly the ineligible events must have a reason.
pub fn check_stored_eligibility(
    embedding_model_id: &str,
    eligible: i64,
    invalidation_reason: Option<&str>,
) -> (r: Result<(bool, Option<InvalidationReason>), LearningEventError>)
    ensures
        match r {
            Ok(v) => stored_eligibility(
                embedding_model_id@,
                eligible,
                match invalidation_reason {
                    Some(t) => Some(t@),
                    None => None,
                },
            ) == Ok::<(bool, Option<InvalidationReason>), Seq<char>>(v),
            Err(e) => e matches LearningEventError::InvalidStoredValue(m) && stored_eligibility(
                embedding_model_id@,
                eligible,
                match invalidation_reason {
                    Some(t) => Some(t@),
                    None => None,
                },
            ) == Err::<(bool, Option<InvalidationReason>), Seq<char>>(m@),
        },
{
    if trim_chars(chars_of(embedding_model_id).as_slice()).len() == 0 {
        return Err(LearningEventError::InvalidStoredValue(owned("embedding model id is empty")));
    }
    if eligible != 0 && eligible != 1 {
        let m = with_number("eligible is not boolean: ", eligible);
        return Err(LearningEventError::InvalidStoredValue(m));
    }
    let flag = eligible == 1;
    let reason = match invalidation_reason {
        Some(text) => {
            match InvalidationReason::parse(text) {
                Ok(x) => {
                    proof {
                        reveal_strlit("person_removed");
                        reveal_strlit("missing_required_context");
                        lemma_invalidation_reason_text_injective(
                            x,
                            InvalidationReason::PersonRemoved,
                        );
                        lemma_invalidation_reason_text_injective(
                            x,
                            InvalidationReason::MissingRequiredContext,
                        );
                    }
                    Some(x)
                },
                Err(e) => {
                    return Err(e);
                },
            }
        },
        None => None,
    };
    if flag != reason.is_none() {
        return Err(
            LearningEventError::InvalidStoredValue(
                owned("eligibility and invalidation reason disagree"),
            ),
        );
    }
    Ok((flag, reason))
}

/// Refuse a stored target identity that is not in its normalized form.
pub fn check_stored_identity(target_identity: Option<&str>) -> (r: Result<(), LearningEventError>)
    ensures
        r is Ok <==> (target_identity matches Some(t) ==> identity_of(t@) == Some(t@)),
        r matches Err(e) ==> e matches LearningEventError::InvalidStoredValue(m) && m@
            == "target identity is not normalized"@,
{
    if let Some(identity) = target_identity {
        let normalized = normalize(identity);
        let same = match &normalized {
            Some(n) => str_equal(n.as_str(), identity),
            None => false,
        };
        if !same {
            return Err(
                LearningEventError::InvalidStoredValue(owned("target identity is not normalized")),
            );
        }
    }
    Ok(())
}

/// The first problem with a stored feature snapshot's schema and size:
/// the schema in its JSON differs from the row's column, or it holds no
/// value.
pub open spec fn stored_features_problem(json_schema: u32, column_schema: u32, value_count: nat) -> Option<
    Seq<char>,
> {
    if json_schema != column_schema {
        Some(
            "feature JSON schema "@ + decimal(json_schema as nat) + " does not match column "@
                + decimal(column_schema as nat),
        )
    } else if value_count == 0 {
        Some("feature vector is empty"@)
    } else {
        None
    }
}

/// Check a stored feature snapshot's schema against its row's column and
/// that it holds some value.
pub fn check_stored_features(json_schema: u32, column_schema: u32, value_count: usize) -> (r: Result<
    (),
    LearningEventError,
>)
    ensures
        match r {
            Ok(_) => stored_features_problem(json_schema, column_schema, value_count as nat) is None,
            Err(e) => e matches LearningEventError::InvalidStoredValue(m) && stored_features_problem(
                json_schema,
                column_schema,
                value_count as nat,
            ) == Some(m@),
        },
{
    if json_schema != column_schema {
        let mut m = with_unsigned("feature JSON schema ", json_schema as u64);
        let tail = with_unsigned(" does not match column ", column_schema as u64);
        m.append(tail.as_str());
        return Err(LearningEventError::InvalidStoredValue(m));
    }
    if value_count == 0 {
        return Err(LearningEventError::InvalidStoredValue(owned("feature vector is empty")));
    }
    Ok(())
}

} // verus!

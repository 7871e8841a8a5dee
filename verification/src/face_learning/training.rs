//! Training a scorer: where its examples come from, why stored feedback is
//! left out, and the errors of a run.

use vstd::prelude::*;
use crate::text::{owned, str_equal, trimmed, trim_chars, chars_of, with_number, with_unsigned, signed_decimal, decimal};
use crate::face_learning::events::LearningDecisionKind;
use crate::face_learning::features::{FEATURE_SCHEMA_VERSION, string_views, is_membership_names,
    is_cluster_quality_names};
use crate::face_learning::events::expected_names;
use crate::order::{lemma_stable_order_positions, sort_order, stable_order};
use crate::strings::{str_less, str_lt};

verus! {

/// Where a training example came from.
#[derive(Clone, Copy, Debug, PartialEq, Eq, Structural)]
pub enum ExampleSource {
    ConfirmedLabels,
    ExplicitFeedback,
}

/// A stored event left out of training, and why.
#[derive(Clone, Debug, PartialEq, Eq)]
pub struct TrainingExclusion {
    pub event_id: i64,
    pub reason: String,
}

/// Why a training run could not produce a scorer.
#[derive(Clone, Debug, PartialEq, Eq)]
pub enum TrainingError {
    InvalidConfig(String),
    InvalidInput(String),
    InsufficientEvidence {
        decision_kind: LearningDecisionKind,
        positive_identities: usize,
        negative_identities: usize,
    },
    TooFewIdentities { identities: usize, folds: usize },
    NonConvergence,
}

/// How a decision kind prints in a message.
pub open spec fn kind_debug(k: LearningDecisionKind) -> Seq<char> {
    match k {
        LearningDecisionKind::Membership => "Membership"@,
        LearningDecisionKind::ClusterQuality => "ClusterQuality"@,
    }
}

/// The message of a training error.
pub open spec fn training_error_text(e: TrainingError) -> Seq<char> {
    match e {
        TrainingError::InvalidConfig(reason) => "invalid training config: "@ + reason@,
        TrainingError::InvalidInput(reason) => "invalid training input: "@ + reason@,
        TrainingError::InsufficientEvidence {
            decision_kind,
            positive_identities,
            negative_identities,
        } => "insufficient "@ + kind_debug(decision_kind) + " evidence: "@ + decimal(
            positive_identities as nat,
        ) + " positive and "@ + decimal(negative_identities as nat) + " negative identities"@,
        TrainingError::TooFewIdentities { identities, folds } => "only "@ + decimal(
            identities as nat,
        ) + " labeled identities for "@ + decimal(folds as nat)
            + " cross-validation folds; label more people or lower the fold count"@,
        TrainingError::NonConvergence => "logistic optimization did not converge"@,
    }
}

impl TrainingError {
    /// The message a reader sees.
    pub fn message(&self) -> (r: String)
        ensures
            r@ == training_error_text(*self),
    {
        match self {
            TrainingError::InvalidConfig(reason) => {
                let mut m = owned("invalid training config: ");
                m.append(reason.as_str());
                m
            },
            TrainingError::InvalidInput(reason) => {
                let mut m = owned("invalid training input: ");
                m.append(reason.as_str());
                m
            },
            TrainingError::InsufficientEvidence {
                decision_kind,
                positive_identities,
                negative_identities,
            } => {
                let mut m = owned("insufficient ");
                m.append(
                    match decision_kind {
                        LearningDecisionKind::Membership => "Membership",
                        LearningDecisionKind::ClusterQuality => "ClusterQuality",
                    },
                );
                let a = with_unsigned(" evidence: ", *positive_identities as u64);
                m.append(a.as_str());
                let b = with_unsigned(" positive and ", *negative_identities as u64);
                m.append(b.as_str());
                m.append(" negative identities");
                m
            },
            TrainingError::TooFewIdentities { identities, folds } => {
                let mut m = with_unsigned("only ", *identities as u64);
                let b = with_unsigned(" labeled identities for ", *folds as u64);
                m.append(b.as_str());
                m.append(" cross-validation folds; label more people or lower the fold count");
                m
            },
            TrainingError::NonConvergence => owned("logistic optimization did not converge"),
        }
    }
}


/// What building a training snapshot reads of one stored event: its id,
/// eligibility, embedding model, feature schema version, whether its
/// feature vector passed its check, its feature names in order, its
/// decision kind and its target identity.
pub struct EventSummary {
    pub id: i64,
    pub eligible: bool,
    pub embedding_model_id: String,
    pub feature_schema_version: u32,
    pub features_valid: bool,
    pub feature_names: Vec<String>,
    pub decision_kind: LearningDecisionKind,
    pub target_identity: Option<String>,
}

/// What becomes of one stored event in a training snapshot: left out for a
/// reason, or kept under an identity key.
#[derive(Clone, Debug, PartialEq, Eq)]
pub enum EventTriage {
    Excluded(&'static str),
    Accepted(String),
}

/// The view of a triage outcome: the identity key when kept, the reason
/// when left out.
pub open spec fn triage_view(t: EventTriage) -> Result<Seq<char>, Seq<char>> {
    match t {
        EventTriage::Excluded(r) => Err(r@),
        EventTriage::Accepted(k) => Ok(k@),
    }
}

/// The first reason event `k` is left out, short of the per-identity cap:
/// an id seen before, not eligible, another embedding model, another
/// feature schema, an invalid feature vector, or features of the other
/// decision kind.
pub open spec fn pre_reason(events: Seq<EventSummary>, k: int, model: Seq<char>) -> Option<
    Seq<char>,
> {
    let e = events[k];
    if exists|j: int| 0 <= j < k && (#[trigger] events[j]).id == e.id {
        Some("duplicate_event"@)
    } else if !e.eligible {
        Some("ineligible"@)
    } else if e.embedding_model_id@ != model {
        Some("embedding_model_mismatch"@)
    } else if e.feature_schema_version != FEATURE_SCHEMA_VERSION {
        Some("feature_schema_mismatch"@)
    } else if !e.features_valid {
        Some("invalid_feature_vector"@)
    } else if string_views(e.feature_names@) != expected_names(e.decision_kind) {
        Some("decision_feature_mismatch"@)
    } else {
        None
    }
}

/// The identity an event counts against: its target, or the event itself.
pub open spec fn identity_key(e: EventSummary) -> Seq<char> {
    match e.target_identity {
        Some(t) => t@,
        None => "event:"@ + signed_decimal(e.id as int),
    }
}

/// How many of the first outcomes kept an event of kind `kind` under key
/// `key`.
pub open spec fn kept_count(
    outs: Seq<Result<Seq<char>, Seq<char>>>,
    events: Seq<EventSummary>,
    kind: LearningDecisionKind,
    key: Seq<char>,
) -> nat
    decreases outs.len(),
{
    if outs.len() == 0 {
        0
    } else {
        let k = outs.len() - 1;
        kept_count(outs.drop_last(), events, kind, key) + if outs[k] == Ok::<Seq<char>, Seq<char>>(
            key,
        ) && events[k].decision_kind == kind {
            1nat
        } else {
            0nat
        }
    }
}

/// The outcome of every event, in order: its own reason to be left out if
/// any, else left out once `cap` events of its kind and identity are kept,
/// else kept under its identity key.
pub open spec fn triage_spec(events: Seq<EventSummary>, model: Seq<char>, cap: nat) -> Seq<
    Result<Seq<char>, Seq<char>>,
>
    decreases events.len(),
{
    if events.len() == 0 {
        Seq::empty()
    } else {
        let k = events.len() - 1;
        let prev = triage_spec(events.drop_last(), model, cap);
        let o = match pre_reason(events, k, model) {
            Some(r) => Err(r),
            None => {
                let key = identity_key(events[k]);
                if kept_count(prev, events, events[k].decision_kind, key) >= cap {
                    Err("per_identity_cap"@)
                } else {
                    Ok(key)
                }
            },
        };
        prev.push(o)
    }
}

proof fn lemma_pre_reason_prefix(events: Seq<EventSummary>, n: int, k: int, model: Seq<char>)
    requires
        0 <= k < n <= events.len(),
    ensures
        pre_reason(events.take(n), k, model) == pre_reason(events, k, model),
{
    let t = events.take(n);
    assert(t[k] == events[k]);
    assert forall|j: int| 0 <= j < k implies t[j] == events[j] by {}
    if exists|j: int| 0 <= j < k && (#[trigger] events[j]).id == events[k].id {
        let j = choose|j: int| 0 <= j < k && (#[trigger] events[j]).id == events[k].id;
        assert(t[j].id == t[k].id);
    }
}

proof fn lemma_kept_count_prefix(
    outs: Seq<Result<Seq<char>, Seq<char>>>,
    events: Seq<EventSummary>,
    n: int,
    kind: LearningDecisionKind,
    key: Seq<char>,
)
    requires
        outs.len() <= n <= events.len(),
    ensures
        kept_count(outs, events.take(n), kind, key) == kept_count(outs, events, kind, key),
    decreases outs.len(),
{
    if outs.len() > 0 {
        lemma_kept_count_prefix(outs.drop_last(), events, n, kind, key);
    }
}

proof fn lemma_kept_count_bound(
    outs: Seq<Result<Seq<char>, Seq<char>>>,
    events: Seq<EventSummary>,
    kind: LearningDecisionKind,
    key: Seq<char>,
)
    ensures
        kept_count(outs, events, kind, key) <= outs.len(),
    decreases outs.len(),
{
    if outs.len() > 0 {
        lemma_kept_count_bound(outs.drop_last(), events, kind, key);
    }
}

/// The views of triage outcomes.
pub open spec fn triage_views(v: Seq<EventTriage>) -> Seq<Result<Seq<char>, Seq<char>>> {
    Seq::new(v.len(), |i: int| triage_view(v[i]))
}

fn event_key(e: &EventSummary) -> (r: String)
    ensures
        r@ == identity_key(*e),
{
    match &e.target_identity {
        Some(t) => owned(t.as_str()),
        None => with_number("event:", e.id),
    }
}

fn check_event(events: &[EventSummary], k: usize, model: &str) -> (r: Option<&'static str>)
    requires
        k < events@.len(),
    ensures
        match r {
            Some(m) => pre_reason(events@, k as int, model@) == Some(m@),
            None => pre_reason(events@, k as int, model@) is None,
        },
{
    let e = &events[k];
    let mut j: usize = 0;
    while j < k
        invariant
            k < events@.len(),
            *e == events@[k as int],
            j <= k,
            forall|i: int| 0 <= i < j ==> (#[trigger] events@[i]).id != e.id,
        decreases k - j,
    {
        if events[j].id == e.id {
            assert(events@[j as int].id == e.id);
            return Some("duplicate_event");
        }
        j = j + 1;
    }
    if !e.eligible {
        return Some("ineligible");
    }
    if !str_equal(e.embedding_model_id.as_str(), model) {
        return Some("embedding_model_mismatch");
    }
    if e.feature_schema_version != FEATURE_SCHEMA_VERSION {
        return Some("feature_schema_mismatch");
    }
    if !e.features_valid {
        return Some("invalid_feature_vector");
    }
    let names_match = match e.decision_kind {
        LearningDecisionKind::Membership => is_membership_names(e.feature_names.as_slice()),
        LearningDecisionKind::ClusterQuality => is_cluster_quality_names(
            e.feature_names.as_slice(),
        ),
    };
    if !names_match {
        return Some("decision_feature_mismatch");
    }
    None
}

/// Decide, for stored events in the order given, which feedback a training
/// snapshot keeps and why the rest is left out: at most `cap` events of one
/// decision kind and identity are kept.
pub fn triage_events(events: &[EventSummary], embedding_model_id: &str, cap: usize) -> (r: Vec<
    EventTriage,
>)
    ensures
        triage_views(r@) == triage_spec(events@, embedding_model_id@, cap as nat),
{
    let mut out: Vec<EventTriage> = Vec::new();
    let mut k: usize = 0;
    assert(events@.take(0) =~= Seq::<EventSummary>::empty());
    while k < events.len()
        invariant
            k <= events@.len(),
            out@.len() == k,
            triage_views(out@) == triage_spec(events@.take(k as int), embedding_model_id@, cap as nat),
        decreases events@.len() - k,
    {
        let ghost prefix = events@.take(k + 1);
        let ghost prev = triage_views(out@);
        proof {
            assert(prefix.drop_last() =~= events@.take(k as int));
            lemma_pre_reason_prefix(events@, k + 1, k as int, embedding_model_id@);
            assert(prefix[k as int] == events@[k as int]);
        }
        let o = match check_event(events, k, embedding_model_id) {
            Some(reason) => EventTriage::Excluded(reason),
            None => {
                let key = event_key(&events[k]);
                let kind = events[k].decision_kind;
                let mut count: usize = 0;
                let mut j: usize = 0;
                while j < k
                    invariant
                        j <= k,
                        k < events@.len(),
                        out@.len() == k,
                        prev == triage_views(out@),
                        count == kept_count(prev.take(j as int), events@, kind, key@),
                        count <= j,
                    decreases k - j,
                {
                    proof {
                        assert(prev.take(j + 1).drop_last() =~= prev.take(j as int));
                    }
                    let same = match &out[j] {
                        EventTriage::Accepted(other) => str_equal(other.as_str(), key.as_str())
                            && events[j].decision_kind == kind,
                        EventTriage::Excluded(_) => false,
                    };
                    if same {
                        count = count + 1;
                    }
                    j = j + 1;
                }
                proof {
                    assert(prev.take(k as int) =~= prev);
                    lemma_kept_count_prefix(prev, events@, k + 1, kind, key@);
                }
                if count >= cap {
                    EventTriage::Excluded("per_identity_cap")
                } else {
                    EventTriage::Accepted(key)
                }
            },
        };
        let ghost ov = triage_view(o);
        out.push(o);
        proof {
            assert(triage_views(out@) =~= prev.push(ov));
        }
        k = k + 1;
    }
    assert(events@.take(events@.len() as int) =~= events@);
    out
}

/// Kept feedback never exceeds the cap: after triage, no decision kind and
/// identity has more than `cap` events kept.
pub proof fn lemma_triage_respects_cap(
    events: Seq<EventSummary>,
    model: Seq<char>,
    cap: nat,
    kind: LearningDecisionKind,
    key: Seq<char>,
)
    ensures
        kept_count(triage_spec(events, model, cap), events, kind, key) <= cap,
        triage_spec(events, model, cap).len() == events.len(),
    decreases events.len(),
{
    if events.len() > 0 {
        let prev_events = events.drop_last();
        lemma_triage_respects_cap(prev_events, model, cap, kind, key);
        let prev = triage_spec(prev_events, model, cap);
        let all = triage_spec(events, model, cap);
        assert(all.drop_last() =~= prev);
        assert(events.take(events.len() - 1) =~= prev_events);
        lemma_kept_count_prefix(prev, events, events.len() - 1, kind, key);
    }
}

/// How many of the events before position `j` were kept under `key` with
/// decision kind `kind`.
pub open spec fn kept_before(
    outs: Seq<Result<Seq<char>, Seq<char>>>,
    events: Seq<EventSummary>,
    j: int,
    kind: LearningDecisionKind,
    key: Seq<char>,
) -> nat
    decreases j,
{
    if j <= 0 {
        0
    } else {
        kept_before(outs, events, j - 1, kind, key) + if outs[j - 1] == Ok::<Seq<char>, Seq<char>>(
            key,
        ) && events[j - 1].decision_kind == kind {
            1nat
        } else {
            0nat
        }
    }
}

proof fn lemma_kept_count_is_kept_before(
    outs: Seq<Result<Seq<char>, Seq<char>>>,
    all: Seq<Result<Seq<char>, Seq<char>>>,
    events: Seq<EventSummary>,
    kind: LearningDecisionKind,
    key: Seq<char>,
)
    requires
        outs.len() <= all.len(),
        forall|j: int| 0 <= j < outs.len() ==> outs[j] == all[j],
    ensures
        kept_count(outs, events, kind, key) == kept_before(all, events, outs.len() as int, kind, key),
    decreases outs.len(),
{
    if outs.len() > 0 {
        lemma_kept_count_is_kept_before(outs.drop_last(), all, events, kind, key);
    }
}

proof fn lemma_kept_before_agree(
    a: Seq<Result<Seq<char>, Seq<char>>>,
    b: Seq<Result<Seq<char>, Seq<char>>>,
    ea: Seq<EventSummary>,
    eb: Seq<EventSummary>,
    j: int,
    kind: LearningDecisionKind,
    key: Seq<char>,
)
    requires
        forall|m: int| 0 <= m < j ==> a[m] == b[m] && ea[m] == eb[m],
    ensures
        kept_before(a, ea, j, kind, key) == kept_before(b, eb, j, kind, key),
    decreases j,
{
    if j > 0 {
        lemma_kept_before_agree(a, b, ea, eb, j - 1, kind, key);
    }
}

proof fn lemma_kept_before_none(
    outs: Seq<Result<Seq<char>, Seq<char>>>,
    events: Seq<EventSummary>,
    j: int,
    kind: LearningDecisionKind,
    key: Seq<char>,
)
    requires
        forall|m: int|
            0 <= m < j ==> !(outs[m] == Ok::<Seq<char>, Seq<char>>(key) && events[m].decision_kind
                == kind),
    ensures
        kept_before(outs, events, j, kind, key) == 0,
    decreases j,
{
    if j > 0 {
        lemma_kept_before_none(outs, events, j - 1, kind, key);
    }
}

/// What triage does with each event, in terms of the events alone: an event
/// with a reason of its own is left out for that reason; otherwise it is
/// left out for the per-identity cap exactly when `cap` earlier events of
/// the same decision kind and the same identity key were kept, and kept
/// under its identity key when fewer were. Kept events of the other
/// decision kind, or of other identities, never count against it.
pub proof fn lemma_triage_outcome(events: Seq<EventSummary>, model: Seq<char>, cap: nat)
    ensures
        triage_spec(events, model, cap).len() == events.len(),
        forall|k: int|
            0 <= k < events.len() ==> (pre_reason(events, k, model) matches Some(r)
                ==> #[trigger] triage_spec(events, model, cap)[k] == Err::<Seq<char>, Seq<char>>(r)),
        forall|k: int|
            0 <= k < events.len() && pre_reason(events, k, model) is None ==> #[trigger] triage_spec(
                events,
                model,
                cap,
            )[k] == if kept_before(
                triage_spec(events, model, cap),
                events,
                k,
                events[k].decision_kind,
                identity_key(events[k]),
            ) >= cap {
                Err::<Seq<char>, Seq<char>>("per_identity_cap"@)
            } else {
                Ok::<Seq<char>, Seq<char>>(identity_key(events[k]))
            },
    decreases events.len(),
{
    let t = triage_spec(events, model, cap);
    if events.len() > 0 {
        let n = events.len() - 1;
        let pe = events.drop_last();
        lemma_triage_outcome(pe, model, cap);
        let prev = triage_spec(pe, model, cap);
        assert(pe =~= events.take(n));
        assert forall|k: int| 0 <= k < n implies t[k] == prev[k] && pre_reason(pe, k, model)
            == pre_reason(events, k, model) && pe[k] == events[k] by {
            lemma_pre_reason_prefix(events, n, k, model);
        }
        assert forall|k: int| 0 <= k < n implies kept_before(t, events, k, events[k].decision_kind,
            identity_key(events[k])) == kept_before(prev, pe, k, events[k].decision_kind,
            identity_key(events[k])) by {
            lemma_kept_before_agree(t, prev, events, pe, k, events[k].decision_kind, identity_key(
                events[k],
            ));
        }
        lemma_kept_count_is_kept_before(prev, t, events, events[n].decision_kind, identity_key(
            events[n],
        ));
        assert(t[n] == triage_spec(events, model, cap).last());
    }
}

/// Triage never holds an event back for the per-identity cap when no
/// earlier event of its decision kind and identity key was kept and the cap
/// allows any: the first kept event of a kind and identity is never capped,
/// whatever was kept of the other kind.
pub proof fn lemma_first_of_kind_is_not_capped(
    events: Seq<EventSummary>,
    model: Seq<char>,
    cap: nat,
    k: int,
)
    requires
        0 <= k < events.len(),
        cap > 0,
        pre_reason(events, k, model) is None,
        forall|j: int|
            0 <= j < k ==> !(triage_spec(events, model, cap)[j] == Ok::<Seq<char>, Seq<char>>(
                identity_key(events[k]),
            ) && events[j].decision_kind == events[k].decision_kind),
    ensures
        triage_spec(events, model, cap)[k] == Ok::<Seq<char>, Seq<char>>(identity_key(events[k])),
{
    lemma_triage_outcome(events, model, cap);
    lemma_kept_before_none(
        triage_spec(events, model, cap),
        events,
        k,
        events[k].decision_kind,
        identity_key(events[k]),
    );
}

/// The most iterations a fit may be given.
pub const MAX_TRAINING_ITERATIONS: usize = 10_000;

/// Whether the whole-number settings of a training run are usable: at
/// least two folds, positive caps and minimums, an iteration budget within
/// the limit, and non-empty parameter grids.
pub open spec fn training_counts_valid(
    folds: usize,
    max_derived_pairs_per_identity: usize,
    max_negative_pairs_per_identity_pair: usize,
    max_explicit_examples_per_identity: usize,
    min_positive_identities: usize,
    min_negative_identities: usize,
    max_iterations: usize,
    l2_grid_len: usize,
    class_weight_grid_len: usize,
) -> bool {
    &&& folds >= 2
    &&& max_derived_pairs_per_identity != 0
    &&& max_negative_pairs_per_identity_pair != 0
    &&& max_explicit_examples_per_identity != 0
    &&& min_positive_identities != 0
    &&& min_negative_identities != 0
    &&& 0 < max_iterations <= MAX_TRAINING_ITERATIONS
    &&& l2_grid_len != 0
    &&& class_weight_grid_len != 0
}

/// Check the whole-number settings of a training run.
pub fn training_counts_ok(
    folds: usize,
    max_derived_pairs_per_identity: usize,
    max_negative_pairs_per_identity_pair: usize,
    max_explicit_examples_per_identity: usize,
    min_positive_identities: usize,
    min_negative_identities: usize,
    max_iterations: usize,
    l2_grid_len: usize,
    class_weight_grid_len: usize,
) -> (r: bool)
    ensures
        r == training_counts_valid(
            folds,
            max_derived_pairs_per_identity,
            max_negative_pairs_per_identity_pair,
            max_explicit_examples_per_identity,
            min_positive_identities,
            min_negative_identities,
            max_iterations,
            l2_grid_len,
            class_weight_grid_len,
        ),
{
    folds >= 2 && max_derived_pairs_per_identity != 0 && max_negative_pairs_per_identity_pair != 0
        && max_explicit_examples_per_identity != 0 && min_positive_identities != 0
        && min_negative_identities != 0 && max_iterations != 0 && max_iterations
        <= MAX_TRAINING_ITERATIONS && l2_grid_len != 0 && class_weight_grid_len != 0
}

/// Refuse a decision kind whose examples name too few positive or negative
/// identities.
pub fn check_identity_evidence(
    decision_kind: LearningDecisionKind,
    positive_identities: usize,
    negative_identities: usize,
    min_positive_identities: usize,
    min_negative_identities: usize,
) -> (r: Result<(), TrainingError>)
    ensures
        r is Ok <==> (positive_identities >= min_positive_identities && negative_identities
            >= min_negative_identities),
        r is Err ==> r == Err::<(), TrainingError>(
            TrainingError::InsufficientEvidence {
                decision_kind,
                positive_identities,
                negative_identities,
            },
        ),
{
    if positive_identities < min_positive_identities || negative_identities
        < min_negative_identities {
        return Err(
            TrainingError::InsufficientEvidence {
                decision_kind,
                positive_identities,
                negative_identities,
            },
        );
    }
    Ok(())
}

/// Whether a snapshot can train a bundle: it names an embedding model, has
/// the current feature schema, and its two datasets are of their kinds.
pub open spec fn snapshot_compatible(
    embedding_model_id: Seq<char>,
    feature_schema_version: u32,
    membership_kind: LearningDecisionKind,
    cluster_quality_kind: LearningDecisionKind,
) -> bool {
    &&& trimmed(embedding_model_id).len() > 0
    &&& feature_schema_version == FEATURE_SCHEMA_VERSION
    &&& membership_kind == LearningDecisionKind::Membership
    &&& cluster_quality_kind == LearningDecisionKind::ClusterQuality
}

/// Refuse a snapshot a bundle cannot be trained from.
pub fn check_snapshot_compatible(
    embedding_model_id: &str,
    feature_schema_version: u32,
    membership_kind: LearningDecisionKind,
    cluster_quality_kind: LearningDecisionKind,
) -> (r: Result<(), TrainingError>)
    ensures
        r is Ok <==> snapshot_compatible(
            embedding_model_id@,
            feature_schema_version,
            membership_kind,
            cluster_quality_kind,
        ),
        r matches Err(e) ==> e matches TrainingError::InvalidInput(m) && m@
            == "training snapshot model, schema, or decision kinds are incompatible"@,
{
    if trim_chars(chars_of(embedding_model_id).as_slice()).len() == 0 || feature_schema_version
        != FEATURE_SCHEMA_VERSION || membership_kind != LearningDecisionKind::Membership
        || cluster_quality_kind != LearningDecisionKind::ClusterQuality {
        return Err(
            TrainingError::InvalidInput(
                owned("training snapshot model, schema, or decision kinds are incompatible"),
            ),
        );
    }
    Ok(())
}


/// An exclusion as its event id and reason.
pub open spec fn exclusion_views(v: Seq<TrainingExclusion>) -> Seq<(i64, Seq<char>)> {
    v.map_values(|x: TrainingExclusion| (x.event_id, x.reason@))
}

/// The exclusions ordered by event id, then reason; ties keep their order.
pub fn sort_exclusions(v: &[TrainingExclusion]) -> (r: Vec<TrainingExclusion>)
    ensures
        exclusion_views(r@) == stable_order(exclusion_keys(v@)).map_values(
            |i: int| exclusion_views(v@)[i],
        ),
{
    let mut keys: Vec<(i64, String)> = Vec::new();
    let mut i: usize = 0;
    while i < v.len()
        invariant
            i <= v@.len(),
            keys@ =~= exclusion_keys(v@).take(i as int),
        decreases v@.len() - i,
    {
        keys.push((v[i].event_id, v[i].reason.clone()));
        proof {
            assert(keys@ =~= exclusion_keys(v@).take(i + 1)) by {
                assert forall|t: int| 0 <= t < i + 1 implies keys@[t] == exclusion_keys(v@).take(
                    i + 1,
                )[t] by {}
            }
        }
        i = i + 1;
    }
    assert(keys@ =~= exclusion_keys(v@));
    let order = sort_order(keys.as_slice());
    let ghost idx = stable_order(exclusion_keys(v@));
    proof {
        lemma_stable_order_positions(exclusion_keys(v@));
    }
    let mut out: Vec<TrainingExclusion> = Vec::new();
    let mut j: usize = 0;
    while j < order.len()
        invariant
            j <= order@.len(),
            order@.map_values(|x: usize| x as int) == idx,
            forall|t: int| 0 <= t < idx.len() ==> 0 <= #[trigger] idx[t] < v@.len(),
            exclusion_views(out@) == idx.take(j as int).map_values(|t: int| exclusion_views(v@)[t]),
        decreases order@.len() - j,
    {
        let k = order[j];
        let ghost prev = exclusion_views(out@);
        proof {
            assert(idx[j as int] == k as int);
            assert(idx.take(j + 1) =~= idx.take(j as int).push(k as int));
        }
        let item = TrainingExclusion { event_id: v[k].event_id, reason: v[k].reason.clone() };
        assert((item.event_id, item.reason@) == exclusion_views(v@)[k as int]);
        out.push(item);
        proof {
            assert(exclusion_views(out@) =~= prev.push(exclusion_views(v@)[k as int]));
            assert(idx.take(j + 1).map_values(|t: int| exclusion_views(v@)[t]) =~= idx.take(
                j as int,
            ).map_values(|t: int| exclusion_views(v@)[t]).push(exclusion_views(v@)[k as int]));
        }
        j = j + 1;
    }
    assert(idx.take(j as int) =~= idx);
    out
}

/// The exclusions' sort keys: event id, then reason.
pub open spec fn exclusion_keys(v: Seq<TrainingExclusion>) -> Seq<(i64, String)> {
    v.map_values(|x: TrainingExclusion| (x.event_id, x.reason))
}

/// The identity keys of a derived pair: the two identities in order, once
/// when they are the same.
pub open spec fn pair_keys(a: Seq<char>, b: Seq<char>) -> Seq<Seq<char>> {
    if a == b {
        seq![a]
    } else if str_lt(b, a) {
        seq![b, a]
    } else {
        seq![a, b]
    }
}

/// The identity keys of a derived pair: the two identities sorted, a
/// repeated one kept once.
pub fn pair_identity_keys(left: &str, right: &str) -> (r: Vec<String>)
    ensures
        r@.map_values(|s: String| s@) == pair_keys(left@, right@),
{
    let r = if str_equal(left, right) {
        vec![owned(left)]
    } else if str_less(right, left) {
        vec![owned(right), owned(left)]
    } else {
        vec![owned(left), owned(right)]
    };
    assert(r@.map_values(|s: String| s@) =~= pair_keys(left@, right@));
    r
}

} // verus!

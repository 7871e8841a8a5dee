use videre_core::face_learning::events::{
    check_stored_eligibility, check_stored_features, check_stored_identity, nonnegative_u32, nonnegative_u64, validate_new_event, EventFaceRef, EventFaceRole,
    LearningAction, LearningDecisionKind, LearningEventError, LearningOutcome, LearningState,
    LearningStatus, InvalidationReason,
};
use videre_core::face_learning::evidence::{check_rule_vetoes, EvidenceError, RuleVeto};
use videre_core::face_learning::features::{
    check_face_shape, check_feature_vector, cluster_quality_feature_names, membership_feature_names, FeatureError,
};
use videre_core::face_learning::metrics::{
    check_predictions, evaluate_counts, ClusterPrediction, EvaluationError, LabeledFace,
    SuggestionCheck, SuggestionOutcome,
};
use videre_core::face_learning::model::{
    check_bundle_identity, check_feature_names, check_model_shape, curve_shape_ok, names_ascending,
    ModelError, MODEL_ARTIFACT_VERSION,
};
use videre_core::face_learning::profile::{
    balanced_pair_minimum, check_clustering_counts, check_suggestion_counts, choose_two,
    counts_checkable, ClusteringCounts, ProfileError, ProfileStage, ProfileStatus,
};
use videre_core::face_learning::questions::{not_pending, QuestionError, QuestionStatus};
use videre_core::face_learning::training::{triage_events, EventSummary, EventTriage, TrainingError};

fn stored(message: LearningEventError) -> String {
    match message {
        LearningEventError::InvalidStoredValue(m) => m,
        other => panic!("unexpected {other:?}"),
    }
}

fn conflict(message: LearningEventError) -> String {
    match message {
        LearningEventError::StateConflict(m) => m,
        other => panic!("unexpected {other:?}"),
    }
}

fn invalid(message: LearningEventError) -> String {
    match message {
        LearningEventError::InvalidEvent(m) => m,
        other => panic!("unexpected {other:?}"),
    }
}

#[test]
fn stored_names_round_trip_and_unknown_names_fail_closed() {
    for action in [
        LearningAction::LabelCluster,
        LearningAction::CreatePerson,
        LearningAction::AssignFace,
        LearningAction::AssignCluster,
        LearningAction::RemoveFaceFromCluster,
        LearningAction::RemoveFaceFromPerson,
        LearningAction::DissolveCluster,
        LearningAction::QuestionYes,
        LearningAction::QuestionNo,
    ] {
        assert_eq!(LearningAction::parse(action.as_str()).unwrap(), action);
    }
    assert_eq!(LearningAction::AssignFace.as_str(), "assign_face");
    assert_eq!(
        stored(LearningAction::parse("assign").unwrap_err()),
        "unknown learning action assign"
    );
    assert_eq!(
        LearningDecisionKind::parse("cluster_quality").unwrap(),
        LearningDecisionKind::ClusterQuality
    );
    assert_eq!(LearningOutcome::parse("negative").unwrap(), LearningOutcome::Negative);
    assert_eq!(
        EventFaceRole::parse(EventFaceRole::TargetSupport.as_str()).unwrap(),
        EventFaceRole::TargetSupport
    );
    assert_eq!(
        InvalidationReason::parse("person_removed").unwrap(),
        InvalidationReason::PersonRemoved
    );
    assert_eq!(LearningStatus::parse("waiting").unwrap(), LearningStatus::Waiting);
    assert_eq!(
        stored(LearningStatus::parse("Current").unwrap_err()),
        "unknown learning status Current"
    );
}

#[test]
fn stored_numbers_must_fit() {
    assert_eq!(nonnegative_u64(7, "generation").unwrap(), 7);
    assert_eq!(
        stored(nonnegative_u64(-3, "generation").unwrap_err()),
        "generation is negative: -3"
    );
    assert_eq!(
        stored(nonnegative_u64(i64::MIN, "x").unwrap_err()),
        "x is negative: -9223372036854775808"
    );
    assert_eq!(nonnegative_u32(4_294_967_295, "ordinal").unwrap(), u32::MAX);
    assert_eq!(
        stored(nonnegative_u32(4_294_967_296, "ordinal").unwrap_err()),
        "ordinal is out of range: 4294967296"
    );
}

#[test]
fn a_stored_state_row_is_checked() {
    let ok = LearningState::from_row(3, 2, "training", Some(3), Some(7), None).unwrap();
    assert_eq!(ok.status, LearningStatus::Training);
    assert_eq!(ok.training_generation, Some(3));
    assert_eq!(
        stored(LearningState::from_row(1, 2, "stale", None, None, None).unwrap_err()),
        "trained generation exceeds current generation"
    );
    assert_eq!(
        stored(LearningState::from_row(3, 2, "training", None, None, None).unwrap_err()),
        "training status and generation disagree"
    );
    assert_eq!(
        stored(LearningState::from_row(3, 2, "stale", Some(2), None, None).unwrap_err()),
        "training status and generation disagree"
    );
    assert_eq!(
        stored(LearningState::from_row(3, 2, "training", Some(4), None, None).unwrap_err()),
        "training generation exceeds current generation"
    );
    assert_eq!(
        stored(LearningState::from_row(3, -1, "stale", None, None, None).unwrap_err()),
        "trained generation is negative: -1"
    );
    assert_eq!(
        stored(LearningState::from_row(3, 2, "busy", None, None, None).unwrap_err()),
        "unknown learning status busy"
    );
}

fn current() -> LearningState {
    LearningState::from_row(0, 0, "current", None, None, None).unwrap()
}

#[test]
fn learning_state_handles_feedback_arriving_during_training() {
    let stale = current().with_new_feedback();
    assert_eq!((stale.generation, stale.status), (1, LearningStatus::Stale));
    let training = stale.start_training().unwrap();
    assert_eq!(training.training_generation, Some(1));
    // Feedback during the run keeps it training and moves the generation on.
    let more = training.with_new_feedback();
    assert_eq!((more.generation, more.status), (2, LearningStatus::Training));
    let done = more.generation_trained(1, Some(9)).unwrap();
    assert_eq!(done.status, LearningStatus::Stale);
    assert_eq!((done.trained_generation, done.last_profile_id), (1, Some(9)));
    let again = done.start_training().unwrap();
    assert_eq!(again.training_generation, Some(2));
    let finished = again.generation_trained(2, Some(10)).unwrap();
    assert_eq!(finished.status, LearningStatus::Current);
    assert_eq!(
        conflict(finished.start_training().unwrap_err()),
        "no stale generation is available to train"
    );
}

#[test]
fn waiting_marks_the_generation_evaluated_and_new_feedback_retries() {
    let training = current().with_new_feedback().start_training().unwrap();
    assert_eq!(
        conflict(training.training_waiting(1, "  ").unwrap_err()),
        "the feedback needed is empty"
    );
    let waiting = training.training_waiting(1, "two more people").unwrap();
    assert_eq!(waiting.status, LearningStatus::Waiting);
    assert_eq!(waiting.trained_generation, 1);
    assert_eq!(waiting.last_error.as_deref(), Some("two more people"));
    // The gallery may retry a waiting state without new feedback.
    assert!(waiting.start_training().is_ok());
    let stale = waiting.with_new_feedback();
    assert_eq!(stale.status, LearningStatus::Stale);
    assert_eq!(stale.last_error, None);
    assert!(stale.start_training().is_ok());
}

#[test]
fn a_failed_run_keeps_its_message_and_can_be_retried() {
    let training = current().with_new_feedback().start_training().unwrap();
    assert_eq!(
        conflict(training.training_failed(2, "boom").unwrap_err()),
        "generation 2 is not training"
    );
    assert_eq!(
        conflict(training.training_failed(1, "").unwrap_err()),
        "training failure message is empty"
    );
    assert_eq!(
        conflict(training.training_failed(u64::MAX, "boom").unwrap_err()),
        "training generation is out of range"
    );
    assert_eq!(
        conflict(training.generation_trained(u64::MAX, None).unwrap_err()),
        "trained generation is out of range"
    );
    let failed = training.training_failed(1, "boom").unwrap();
    assert_eq!(failed.status, LearningStatus::Failed);
    assert_eq!(failed.last_error.as_deref(), Some("boom"));
    assert_eq!(failed.training_generation, None);
    let retry = failed.start_training().unwrap();
    assert_eq!(retry.last_error, None);
}

#[test]
fn invalidation_advances_the_generation_only_when_something_changed() {
    let s = current();
    assert_eq!(s.after_invalidation(0, 0).generation, 0);
    assert_eq!(s.after_invalidation(1, 0).generation, 1);
    assert_eq!(s.after_invalidation(0, 3).status, LearningStatus::Stale);
}

fn names(list: Vec<&'static str>) -> Vec<String> {
    list.into_iter().map(str::to_owned).collect()
}

fn membership_faces() -> Vec<EventFaceRef> {
    vec![
        EventFaceRef {
            face_id: 20,
            role: EventFaceRole::TargetSupport,
            ordinal: 0,
        },
        EventFaceRef {
            face_id: 10,
            role: EventFaceRole::Subject,
            ordinal: 0,
        },
    ]
}

fn check(
    kind: LearningDecisionKind,
    feature_names: &[String],
    identity: Option<&str>,
    faces: &[EventFaceRef],
    support: u32,
) -> Result<(), LearningEventError> {
    validate_new_event(
        "buffalo_l/w600k_r50.onnx",
        kind,
        feature_names,
        &Ok(()),
        true,
        identity,
        faces,
        support,
    )
}

#[test]
fn decision_features_roles_and_support_count_must_agree() {
    let membership = names(membership_feature_names());
    let cluster = names(cluster_quality_feature_names());
    assert!(check(
        LearningDecisionKind::Membership,
        &membership,
        Some("alice"),
        &membership_faces(),
        1
    )
    .is_ok());
    assert_eq!(
        invalid(
            check(
                LearningDecisionKind::Membership,
                &cluster,
                Some("alice"),
                &membership_faces(),
                1
            )
            .unwrap_err()
        ),
        "feature schema does not match decision kind"
    );
    assert_eq!(
        invalid(
            check(
                LearningDecisionKind::Membership,
                &membership,
                Some("alice"),
                &membership_faces(),
                2
            )
            .unwrap_err()
        ),
        "provenance does not match decision kind or support count"
    );
    assert_eq!(
        invalid(
            check(
                LearningDecisionKind::Membership,
                &membership,
                Some("Alice"),
                &membership_faces(),
                1
            )
            .unwrap_err()
        ),
        "target identity is not normalized"
    );
    let cluster_faces: Vec<EventFaceRef> = [(11, 0), (12, 1), (21, 3)]
        .into_iter()
        .map(|(face_id, ordinal)| EventFaceRef {
            face_id,
            role: EventFaceRole::ClusterMember,
            ordinal,
        })
        .collect();
    assert_eq!(
        invalid(
            check(LearningDecisionKind::ClusterQuality, &cluster, None, &cluster_faces, 3)
                .unwrap_err()
        ),
        "ClusterMember ordinals are not contiguous"
    );
}

#[test]
fn event_provenance_is_checked_face_by_face() {
    let membership = names(membership_feature_names());
    let mut faces = membership_faces();
    faces.push(EventFaceRef {
        face_id: 10,
        role: EventFaceRole::TargetSupport,
        ordinal: 1,
    });
    assert_eq!(
        invalid(check(LearningDecisionKind::Membership, &membership, None, &faces, 2).unwrap_err()),
        "face 10 appears more than once"
    );
    let mut faces = membership_faces();
    faces.push(EventFaceRef {
        face_id: 30,
        role: EventFaceRole::TargetSupport,
        ordinal: 0,
    });
    assert_eq!(
        invalid(check(LearningDecisionKind::Membership, &membership, None, &faces, 2).unwrap_err()),
        "duplicate TargetSupport ordinal 0"
    );
    let faces = vec![EventFaceRef {
        face_id: -4,
        role: EventFaceRole::Subject,
        ordinal: 0,
    }];
    assert_eq!(
        invalid(check(LearningDecisionKind::Membership, &membership, None, &faces, 0).unwrap_err()),
        "face id -4 is not positive"
    );
    assert_eq!(
        invalid(check(LearningDecisionKind::Membership, &membership, None, &[], 0).unwrap_err()),
        "event provenance is empty"
    );
    assert_eq!(
        invalid(
            validate_new_event(
                " ",
                LearningDecisionKind::Membership,
                &membership,
                &Ok(()),
                true,
                None,
                &membership_faces(),
                1
            )
            .unwrap_err()
        ),
        "embedding model id is empty"
    );
    assert_eq!(
        invalid(
            validate_new_event(
                "m",
                LearningDecisionKind::Membership,
                &membership,
                &Err(FeatureError::InvalidFeatureSet),
                true,
                None,
                &membership_faces(),
                1
            )
            .unwrap_err()
        ),
        "face feature names do not match the schema"
    );
    assert_eq!(
        invalid(
            validate_new_event(
                "m",
                LearningDecisionKind::Membership,
                &membership,
                &Ok(()),
                false,
                None,
                &membership_faces(),
                1
            )
            .unwrap_err()
        ),
        "scorer confidence is not a probability"
    );
}

#[test]
fn feature_vectors_are_checked_version_first() {
    let membership = names(membership_feature_names());
    assert_eq!(membership.len(), 40);
    assert_eq!(names(cluster_quality_feature_names()).len(), 23);
    assert!(check_feature_vector(1, &membership, None).is_ok());
    assert_eq!(
        check_feature_vector(2, &membership, Some("x".into())),
        Err(FeatureError::UnsupportedSchemaVersion(2))
    );
    assert_eq!(
        check_feature_vector(1, &membership, Some("blur_mean_subject".into())),
        Err(FeatureError::NonFiniteFeature("blur_mean_subject".into()))
    );
    assert_eq!(
        check_feature_vector(1, &membership[1..], None),
        Err(FeatureError::InvalidFeatureSet)
    );
    assert_eq!(
        FeatureError::InvalidQuality {
            face_id: 3,
            field: "blur"
        }
        .message(),
        "face 3 has invalid blur"
    );
    assert_eq!(
        FeatureError::UnsupportedSchemaVersion(9).message(),
        "unsupported face feature schema version 9"
    );
}

#[test]
fn profile_names_and_stage_order() {
    assert_eq!(ProfileStage::parse("grouping").unwrap(), ProfileStage::Grouping);
    assert_eq!(ProfileStage::Suggestion.as_str(), "suggestion");
    assert!(ProfileStage::Shadow.rank() < ProfileStage::Suggestion.rank());
    assert!(ProfileStage::Suggestion.rank() < ProfileStage::Grouping.rank());
    assert_eq!(ProfileStatus::parse("retired").unwrap(), ProfileStatus::Retired);
    match ProfileStatus::parse("gone").unwrap_err() {
        ProfileError::InvalidStoredValue(m) => assert_eq!(m, "unknown profile status gone"),
        other => panic!("unexpected {other:?}"),
    }
}

#[test]
fn pair_counts_follow_the_group_sizes() {
    assert_eq!(choose_two(0), 0);
    assert_eq!(choose_two(1), 0);
    assert_eq!(choose_two(4), 6);
    assert_eq!(choose_two(usize::MAX), u64::MAX / 2);
    // Seven faces in three groups split 3, 2, 2: 3 + 1 + 1 pairs.
    assert_eq!(balanced_pair_minimum(7, 3), 5);
    assert_eq!(balanced_pair_minimum(7, 0), 0);
    assert_eq!(balanced_pair_minimum(4, 4), 0);
}

fn counts() -> ClusteringCounts {
    ClusteringCounts {
        labeled_faces: 4,
        labeled_identities: 2,
        predicted_clusters: 1,
        true_positive_pairs: 1,
        false_positive_pairs: 2,
        false_negative_pairs: 1,
        mixed_clusters: 1,
        fragmented_identities: 1,
        unassigned_labeled_faces: 1,
    }
}

fn report_message(e: ProfileError) -> String {
    match e {
        ProfileError::InvalidReport(m) => m,
        other => panic!("unexpected {other:?}"),
    }
}

#[test]
fn clustering_counts_must_be_possible() {
    assert!(counts_checkable(&counts()));
    assert_eq!(check_clustering_counts("d", &counts()).unwrap(), (2, 3));
    let mut c = counts();
    c.predicted_clusters = 4;
    assert_eq!(
        report_message(check_clustering_counts("d", &c).unwrap_err()),
        "d has impossible clustering counts"
    );
    let mut c = counts();
    c.true_positive_pairs = u64::MAX;
    assert_eq!(
        report_message(check_clustering_counts("d", &c).unwrap_err()),
        "d pair counts overflow"
    );
    let mut c = counts();
    c.false_positive_pairs = 9;
    assert_eq!(
        report_message(check_clustering_counts("d", &c).unwrap_err()),
        "d has impossible pair counts"
    );
}

#[test]
fn suggestion_counts_must_cover_the_labeled_faces() {
    assert_eq!(check_suggestion_counts("d", 4, 1, 1, 2).unwrap(), 2);
    assert_eq!(
        report_message(check_suggestion_counts("d", 5, 1, 1, 2).unwrap_err()),
        "d suggestion counts do not cover labeled faces"
    );
    assert_eq!(
        report_message(check_suggestion_counts("d", 5, usize::MAX, 1, 2).unwrap_err()),
        "d suggestion counts overflow"
    );
}

#[test]
fn evidence_names_each_rule_once() {
    let vetoes = vec![RuleVeto::new(1, "cannot_link"), RuleVeto::new(2, "x")];
    assert_eq!(check_rule_vetoes(&vetoes), Ok(()));
    let vetoes = vec![
        RuleVeto::new(1, "cannot_link"),
        RuleVeto::new(2, "x"),
        RuleVeto::new(1, "again"),
    ];
    assert_eq!(check_rule_vetoes(&vetoes), Err(EvidenceError::DuplicateRuleId(1)));
    assert_eq!(
        EvidenceError::DuplicateRuleId(-2).message(),
        "face evidence repeats rule -2"
    );
    assert_eq!(
        EvidenceError::ProbabilityOutOfRange("threshold".into()).message(),
        "face evidence probability threshold is outside 0..=1"
    );
}

fn truth() -> Vec<LabeledFace> {
    vec![
        LabeledFace::new(1, "ada"),
        LabeledFace::new(2, "ada"),
        LabeledFace::new(3, "grace"),
        LabeledFace::new(4, "grace"),
    ]
}

fn clusters() -> Vec<ClusterPrediction> {
    vec![
        ClusterPrediction::new(1, Some(10)),
        ClusterPrediction::new(2, Some(10)),
        ClusterPrediction::new(3, Some(10)),
        ClusterPrediction::new(4, None),
    ]
}

fn ok_suggestion(face_id: i64) -> SuggestionCheck {
    SuggestionCheck {
        face_id,
        finite: true,
        in_range: true,
    }
}

#[test]
fn predictions_are_checked_against_the_truth() {
    assert_eq!(check_predictions(&truth(), &clusters(), &[ok_suggestion(1)]), Ok(()));
    assert_eq!(
        check_predictions(&[], &[], &[]),
        Err(EvaluationError::NoLabeledFaces)
    );
    let mut labels = truth();
    labels.push(LabeledFace::new(2, "grace"));
    assert_eq!(
        check_predictions(&labels, &clusters(), &[]),
        Err(EvaluationError::DuplicateTruthFaceId(2))
    );
    let mut c = clusters();
    c.push(ClusterPrediction::new(3, None));
    assert_eq!(
        check_predictions(&truth(), &c, &[]),
        Err(EvaluationError::DuplicateClusterPrediction(3))
    );
    let mut c = clusters();
    c.push(ClusterPrediction::new(99, None));
    assert_eq!(
        check_predictions(&truth(), &c, &[]),
        Err(EvaluationError::UnknownPredictionFaceId(99))
    );
    let c: Vec<ClusterPrediction> = clusters().into_iter().filter(|p| p.face_id % 2 == 1).collect();
    assert_eq!(
        check_predictions(&truth(), &c, &[]),
        Err(EvaluationError::MissingClusterPrediction(2))
    );
    let nan = SuggestionCheck {
        face_id: 3,
        finite: false,
        in_range: false,
    };
    assert_eq!(
        check_predictions(&truth(), &clusters(), &[ok_suggestion(1), nan]),
        Err(EvaluationError::NonFiniteSuggestionConfidence(3))
    );
    assert_eq!(
        check_predictions(&truth(), &clusters(), &[ok_suggestion(1), ok_suggestion(1)]),
        Err(EvaluationError::DuplicateSuggestionPrediction(1))
    );
}

fn summary(id: i64, identity: Option<&str>) -> EventSummary {
    EventSummary {
        id,
        eligible: true,
        embedding_model_id: "m".into(),
        feature_schema_version: 1,
        features_valid: true,
        feature_names: names(membership_feature_names()),
        decision_kind: LearningDecisionKind::Membership,
        target_identity: identity.map(str::to_owned),
    }
}

#[test]
fn triage_keeps_capped_feedback_and_says_why_the_rest_is_left_out() {
    let mut ineligible = summary(3, Some("ada"));
    ineligible.eligible = false;
    let mut other_model = summary(4, Some("ada"));
    other_model.embedding_model_id = "n".into();
    let mut wrong_names = summary(5, Some("ada"));
    wrong_names.feature_names = names(cluster_quality_feature_names());
    let events = vec![
        summary(1, Some("ada")),
        summary(1, Some("ada")),
        summary(2, Some("ada")),
        ineligible,
        other_model,
        wrong_names,
        summary(6, Some("ada")),
        summary(7, None),
    ];
    let out = triage_events(&events, "m", 2);
    assert_eq!(
        out,
        vec![
            EventTriage::Accepted("ada".into()),
            EventTriage::Excluded("duplicate_event"),
            EventTriage::Accepted("ada".into()),
            EventTriage::Excluded("ineligible"),
            EventTriage::Excluded("embedding_model_mismatch"),
            EventTriage::Excluded("decision_feature_mismatch"),
            EventTriage::Excluded("per_identity_cap"),
            EventTriage::Accepted("event:7".into()),
        ]
    );
}

#[test]
fn error_messages_read_as_sentences() {
    assert_eq!(
        TrainingError::TooFewIdentities {
            identities: 2,
            folds: 3
        }
        .message(),
        "only 2 labeled identities for 3 cross-validation folds; label more people or lower the fold count"
    );
    assert_eq!(
        TrainingError::InsufficientEvidence {
            decision_kind: LearningDecisionKind::ClusterQuality,
            positive_identities: 1,
            negative_identities: 0
        }
        .message(),
        "insufficient ClusterQuality evidence: 1 positive and 0 negative identities"
    );
    assert_eq!(
        ModelError::InvalidModel("no weights".into()).message(),
        "invalid logistic model: no weights"
    );
    match not_pending(12) {
        QuestionError::InvalidStoredValue(m) => assert_eq!(m, "question 12 is not pending"),
        other => panic!("unexpected {other:?}"),
    }
    assert_eq!(QuestionStatus::parse("superseded").unwrap(), QuestionStatus::Superseded);
    assert_eq!(QuestionStatus::Pending.as_str(), "pending");
}

fn suggestion(face_id: i64, identity: Option<&str>) -> SuggestionOutcome {
    SuggestionOutcome {
        face_id,
        identity: identity.map(str::to_owned),
        finite: true,
        in_range: true,
    }
}

fn fixture_suggestions() -> Vec<SuggestionOutcome> {
    vec![
        suggestion(1, Some("ada")),
        suggestion(2, None),
        suggestion(3, Some("ada")),
        suggestion(4, None),
    ]
}

#[test]
fn evaluation_counts_pairs_clusters_and_suggestions() {
    let (c, s) = evaluate_counts(&truth(), &clusters(), &fixture_suggestions()).unwrap();
    assert_eq!(c.labeled_faces, 4);
    assert_eq!(c.labeled_identities, 2);
    assert_eq!(c.predicted_clusters, 1);
    assert_eq!(c.true_positive_pairs, 1);
    assert_eq!(c.false_positive_pairs, 2);
    assert_eq!(c.false_negative_pairs, 1);
    assert_eq!(c.mixed_clusters, 1);
    assert_eq!(c.fragmented_identities, 1);
    assert_eq!(c.unassigned_labeled_faces, 1);
    let s = s.unwrap();
    assert_eq!((s.correct, s.incorrect, s.not_suggested), (1, 1, 2));
}

#[test]
fn evaluation_counts_do_not_depend_on_input_order() {
    let expected = evaluate_counts(&truth(), &clusters(), &fixture_suggestions()).unwrap();
    let mut labels = truth();
    labels.reverse();
    let mut c = clusters();
    c.reverse();
    let mut s = fixture_suggestions();
    s.rotate_left(1);
    assert_eq!(evaluate_counts(&labels, &c, &s).unwrap(), expected);
}

#[test]
fn evaluation_without_suggestions_has_no_suggestion_counts() {
    let labels = vec![LabeledFace::new(1, "ada"), LabeledFace::new(2, "grace")];
    let c = vec![ClusterPrediction::new(1, None), ClusterPrediction::new(2, None)];
    let (counts, s) = evaluate_counts(&labels, &c, &[]).unwrap();
    assert_eq!(s, None);
    assert_eq!((counts.true_positive_pairs, counts.false_positive_pairs), (0, 0));
    assert_eq!(counts.predicted_clusters, 0);
    assert_eq!(counts.unassigned_labeled_faces, 2);
    assert_eq!(
        evaluate_counts(&labels, &c, &[suggestion(3, None)]),
        Err(EvaluationError::UnknownPredictionFaceId(3))
    );
}

#[test]
fn stored_eligibility_and_invalidation_reason_must_agree() {
    assert_eq!(check_stored_eligibility("m", 1, None).unwrap(), (true, None));
    assert_eq!(
        check_stored_eligibility("m", 0, Some("person_removed")).unwrap(),
        (false, Some(InvalidationReason::PersonRemoved))
    );
    assert_eq!(
        stored(check_stored_eligibility("m", 1, Some("person_removed")).unwrap_err()),
        "eligibility and invalidation reason disagree"
    );
    assert_eq!(
        stored(check_stored_eligibility("m", 0, None).unwrap_err()),
        "eligibility and invalidation reason disagree"
    );
    assert_eq!(
        stored(check_stored_eligibility("m", 2, None).unwrap_err()),
        "eligible is not boolean: 2"
    );
    assert_eq!(
        stored(check_stored_eligibility("m", -1, None).unwrap_err()),
        "eligible is not boolean: -1"
    );
    assert_eq!(
        stored(check_stored_eligibility(" \t", 1, None).unwrap_err()),
        "embedding model id is empty"
    );
    assert_eq!(
        stored(check_stored_eligibility("m", 0, Some("forgotten")).unwrap_err()),
        "unknown invalidation reason forgotten"
    );
}

#[test]
fn a_stored_identity_must_already_be_normalized() {
    assert!(check_stored_identity(None).is_ok());
    assert!(check_stored_identity(Some("isil_ozyegin")).is_ok());
    assert_eq!(
        stored(check_stored_identity(Some("Işıl Özyeğin")).unwrap_err()),
        "target identity is not normalized"
    );
    assert_eq!(
        stored(check_stored_identity(Some("!!!")).unwrap_err()),
        "target identity is not normalized"
    );
}

#[test]
fn a_stored_feature_snapshot_matches_its_column_and_is_not_empty() {
    assert!(check_stored_features(1, 1, 3).is_ok());
    assert_eq!(
        stored(check_stored_features(2, 1, 3).unwrap_err()),
        "feature JSON schema 2 does not match column 1"
    );
    assert_eq!(
        stored(check_stored_features(1, 1, 0).unwrap_err()),
        "feature vector is empty"
    );
}

fn name_list(ns: &[&str]) -> Vec<String> {
    ns.iter().map(|n| n.to_string()).collect()
}

fn invalid_model(e: ModelError) -> String {
    match e {
        ModelError::InvalidModel(m) => m,
        other => panic!("unexpected {other:?}"),
    }
}

#[test]
fn a_model_has_one_parameter_of_each_kind_per_ascending_name() {
    assert!(check_model_shape(&name_list(&["a", "b"]), 2, 2, 2).is_ok());
    assert_eq!(
        invalid_model(check_model_shape(&name_list(&[]), 0, 0, 0).unwrap_err()),
        "feature parameter lengths disagree"
    );
    assert_eq!(
        invalid_model(check_model_shape(&name_list(&["a", "b"]), 2, 1, 2).unwrap_err()),
        "feature parameter lengths disagree"
    );
    assert_eq!(
        invalid_model(check_model_shape(&name_list(&["b", "a"]), 2, 2, 2).unwrap_err()),
        "feature names are not unique and sorted"
    );
    assert_eq!(
        invalid_model(check_model_shape(&name_list(&["a", "a"]), 2, 2, 2).unwrap_err()),
        "feature names are not unique and sorted"
    );
    assert!(check_model_shape(&name_list(&["Z", "a", "ab"]), 3, 3, 3).is_ok());
}

#[test]
fn a_feature_vector_must_carry_exactly_the_model_names() {
    assert!(check_feature_names(&name_list(&["a", "b"]), &name_list(&["a", "b"])).is_ok());
    let missing = check_feature_names(&name_list(&["a", "b"]), &name_list(&["a"])).unwrap_err();
    assert_eq!(
        missing,
        ModelError::InvalidFeatureVector("feature names do not match the model".into())
    );
    assert!(check_feature_names(&name_list(&["a", "b"]), &name_list(&["a", "c"])).is_err());
}

#[test]
fn a_bundle_names_its_artifact_model_and_schema() {
    assert!(check_bundle_identity(MODEL_ARTIFACT_VERSION, "arcface", 1).is_ok());
    assert_eq!(
        invalid_model(check_bundle_identity(2, "arcface", 1).unwrap_err()),
        "unsupported artifact version"
    );
    assert_eq!(
        invalid_model(check_bundle_identity(MODEL_ARTIFACT_VERSION, "  ", 1).unwrap_err()),
        "model identity or feature schema is missing"
    );
    assert_eq!(
        invalid_model(check_bundle_identity(MODEL_ARTIFACT_VERSION, "arcface", 0).unwrap_err()),
        "model identity or feature schema is missing"
    );
}

#[test]
fn face_ids_are_unique_and_embeddings_share_one_non_empty_length() {
    let ids = [1, 2, 1, 3];
    let lens = [4, 4, 4, 0];
    assert!(check_face_shape(&ids, &lens, 0).is_ok());
    assert!(check_face_shape(&ids, &lens, 1).is_ok());
    assert_eq!(check_face_shape(&ids, &lens, 2), Err(FeatureError::DuplicateFaceId(1)));
    assert_eq!(check_face_shape(&ids, &lens, 3), Err(FeatureError::ZeroNormEmbedding(3)));
    assert_eq!(
        check_face_shape(&[1, 2], &[4, 5], 1),
        Err(FeatureError::EmbeddingDimensionMismatch)
    );
}

#[test]
fn curve_names_must_ascend_without_repeats() {
    assert!(names_ascending(&name_list(&[])));
    assert!(names_ascending(&name_list(&["a", "b", "c"])));
    assert!(!names_ascending(&name_list(&["a", "c", "b"])));
    assert!(!names_ascending(&name_list(&["a", "a"])));
}

#[test]
fn a_curve_has_a_name_and_one_effect_per_knot() {
    assert!(curve_shape_ok("x", 2, 2));
    assert!(!curve_shape_ok(" ", 2, 2));
    assert!(!curve_shape_ok("x", 0, 0));
    assert!(!curve_shape_ok("x", 2, 3));
}

/// A suggestion as the evaluation receives it, its confidence read the way
/// the caller reads it.
fn scored(face_id: i64, identity: Option<&str>, confidence: f64) -> SuggestionOutcome {
    SuggestionOutcome {
        face_id,
        identity: identity.map(str::to_owned),
        finite: confidence.is_finite(),
        in_range: (0.0..=1.0).contains(&confidence),
    }
}

fn fixture() -> (Vec<LabeledFace>, Vec<ClusterPrediction>, Vec<SuggestionOutcome>) {
    (
        truth(),
        clusters(),
        vec![
            scored(1, Some("ada"), 0.95),
            scored(2, None, 0.40),
            scored(3, Some("ada"), 0.80),
            scored(4, None, 0.30),
        ],
    )
}

#[test]
fn evaluation_is_independent_of_input_order() {
    let (labels, clusters, suggestions) = fixture();
    let expected = evaluate_counts(&labels, &clusters, &suggestions).unwrap();
    let mut reversed_labels = labels.clone();
    reversed_labels.reverse();
    let mut reversed_clusters = clusters.clone();
    reversed_clusters.reverse();
    let mut rotated = suggestions.clone();
    rotated.rotate_left(1);
    assert_eq!(
        evaluate_counts(&reversed_labels, &reversed_clusters, &rotated).unwrap(),
        expected
    );
}

#[test]
fn duplicate_truth_ids_are_rejected() {
    let (mut labels, clusters, suggestions) = fixture();
    labels.push(LabeledFace::new(1, "ada"));
    assert_eq!(
        evaluate_counts(&labels, &clusters, &suggestions),
        Err(EvaluationError::DuplicateTruthFaceId(1))
    );
}

#[test]
fn duplicate_cluster_predictions_are_rejected() {
    let (labels, mut clusters, suggestions) = fixture();
    clusters.push(ClusterPrediction::new(1, Some(99)));
    assert_eq!(
        evaluate_counts(&labels, &clusters, &suggestions),
        Err(EvaluationError::DuplicateClusterPrediction(1))
    );
}

#[test]
fn duplicate_suggestion_predictions_are_rejected() {
    let (labels, clusters, mut suggestions) = fixture();
    suggestions.push(scored(1, Some("ada"), 0.99));
    assert_eq!(
        evaluate_counts(&labels, &clusters, &suggestions),
        Err(EvaluationError::DuplicateSuggestionPrediction(1))
    );
}

#[test]
fn missing_cluster_prediction_is_rejected() {
    let (labels, mut clusters, suggestions) = fixture();
    clusters.retain(|prediction| prediction.face_id != 4);
    assert_eq!(
        evaluate_counts(&labels, &clusters, &suggestions),
        Err(EvaluationError::MissingClusterPrediction(4))
    );
}

#[test]
fn unknown_prediction_face_is_rejected() {
    let (labels, mut clusters, suggestions) = fixture();
    clusters.push(ClusterPrediction::new(99, None));
    assert_eq!(
        evaluate_counts(&labels, &clusters, &suggestions),
        Err(EvaluationError::UnknownPredictionFaceId(99))
    );
}

#[test]
fn non_finite_suggestion_confidence_is_rejected() {
    let (labels, clusters, mut suggestions) = fixture();
    suggestions[0] = scored(1, Some("ada"), f64::NAN);
    assert_eq!(
        evaluate_counts(&labels, &clusters, &suggestions),
        Err(EvaluationError::NonFiniteSuggestionConfidence(1))
    );
}

#[test]
fn no_labeled_faces_is_rejected() {
    assert_eq!(
        evaluate_counts(&[], &[], &[]),
        Err(EvaluationError::NoLabeledFaces)
    );
}

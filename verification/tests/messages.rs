use videre_core::face_learning::events::LearningEventError;
use videre_core::face_learning::metrics::EvaluationError;
use videre_core::face_learning::profile::ProfileError;
use videre_core::face_learning::questions::QuestionError;
use videre_core::face_learning::sampling::SamplingError;

#[test]
fn sampling_errors_read_as_sentences() {
    assert_eq!(
        SamplingError::DuplicateFaceId(-4).message(),
        "duplicate labeled face id -4"
    );
    assert_eq!(
        SamplingError::ZeroPairCap.message(),
        "pair sampling caps must be greater than zero"
    );
    assert_eq!(
        SamplingError::TooFewFolds.message(),
        "identity-held-out validation needs at least two folds"
    );
    assert_eq!(
        SamplingError::FewerIdentitiesThanFolds { identities: 2, folds: 5 }.message(),
        "identity-held-out validation has 2 identities for 5 folds"
    );
}

#[test]
fn evaluation_errors_name_the_face() {
    assert_eq!(
        EvaluationError::NoLabeledFaces.message(),
        "no confirmed labeled faces are available"
    );
    assert_eq!(
        EvaluationError::MissingClusterPrediction(12).message(),
        "missing cluster prediction for labeled face 12"
    );
    assert_eq!(
        EvaluationError::SuggestionConfidenceOutOfRange(3).message(),
        "suggestion confidence for face 3 is outside 0..=1"
    );
    assert_eq!(
        EvaluationError::NonFiniteSuggestionConfidence(3).message(),
        "suggestion confidence for face 3 is not finite"
    );
}

#[test]
fn learning_event_errors_carry_their_reason() {
    assert_eq!(
        LearningEventError::InvalidEvent("batch is empty".into()).message(),
        "invalid learning event: batch is empty"
    );
    assert_eq!(
        LearningEventError::TransactionRequired.message(),
        "learning event batches require an existing transaction"
    );
    assert_eq!(
        LearningEventError::Sql(rusqlite::Error::QueryReturnedNoRows).message(),
        "learning database error: Query returned no rows"
    );
}

#[test]
fn profile_and_question_errors_carry_their_reason() {
    assert_eq!(
        ProfileError::CandidateNotFound(7).message(),
        "profile candidate 7 was not found"
    );
    assert_eq!(
        ProfileError::InvalidGate("min_datasets").message(),
        "invalid promotion gate min_datasets"
    );
    let json = serde_json::from_str::<u32>("x").unwrap_err();
    let text = json.to_string();
    assert_eq!(
        ProfileError::Json(json).message(),
        format!("profile JSON error: {text}")
    );
    assert_eq!(
        QuestionError::InvalidConfig("limit is zero".into()).message(),
        "invalid question config: limit is zero"
    );
    assert_eq!(
        QuestionError::Db(rusqlite::Error::QueryReturnedNoRows).message(),
        "question database error: Query returned no rows"
    );
}

use videre_core::face_learning::profile::{
    check_active_compatible, check_candidate_status, check_profile_metadata, ProfileError,
    ProfileStatus,
};
use videre_core::face_learning::promotion::{
    check_count_gates, count_gate_failures, first_bad_key, CountFailure, CountGates,
    DatasetCounts, ReportCounts,
};

fn dataset(key: &str, fragmented: usize) -> DatasetCounts {
    DatasetCounts {
        dataset_key: key.to_string(),
        hard_rule_violations: 0,
        invalid_explanations: 0,
        fragmented_identities: fragmented,
    }
}

fn report(fragmented: usize) -> ReportCounts {
    ReportCounts {
        protocol_version: 1,
        evidence_schema_version: 1,
        feature_schema_version: 1,
        datasets: vec![dataset("library-a", fragmented), dataset("library-b", fragmented)],
    }
}

fn gates() -> CountGates {
    CountGates {
        protocol_version: 1,
        evidence_schema_version: 1,
        feature_schema_version: 1,
        min_datasets: 2,
        max_hard_rule_violations: 0,
        max_invalid_explanations: 0,
        min_fragmented_identity_reduction: 1,
    }
}

fn failure_keys(failures: &[CountFailure]) -> Vec<(&str, &str)> {
    failures
        .iter()
        .map(|failure| (failure.dataset_key.as_str(), failure.gate.as_str()))
        .collect()
}

#[test]
fn schema_and_dataset_count_mismatches_reject() {
    let active = report(3);
    let mut wrong_schema = report(3);
    wrong_schema.protocol_version = 2;
    let verdict = count_gate_failures(Some(&active), &wrong_schema, &gates()).unwrap();
    assert!(failure_keys(&verdict.failures).contains(&("", "protocol_version")));

    let mut too_small = report(3);
    too_small.datasets.pop();
    let verdict = count_gate_failures(Some(&active), &too_small, &gates()).unwrap();
    assert!(failure_keys(&verdict.failures).contains(&("", "min_datasets")));
}

#[test]
fn active_baseline_schema_must_match_the_promotion_protocol() {
    for field in ["protocol", "evidence", "feature"] {
        let mut active = report(3);
        match field {
            "protocol" => active.protocol_version = 2,
            "evidence" => active.evidence_schema_version = 2,
            "feature" => active.feature_schema_version = 2,
            _ => unreachable!(),
        }
        assert!(matches!(
            count_gate_failures(Some(&active), &report(3), &gates()),
            Err(ProfileError::IncompatibleProfile(_))
        ));
    }
}

#[test]
fn candidate_must_cover_the_same_frozen_datasets() {
    let active = report(3);
    let mut candidate = report(3);
    candidate.datasets[1].dataset_key = "library-c".into();
    let verdict = count_gate_failures(Some(&active), &candidate, &gates()).unwrap();
    assert!(failure_keys(&verdict.failures).contains(&("library-b", "missing_dataset")));
    assert!(failure_keys(&verdict.failures).contains(&("library-c", "unexpected_dataset")));
}

#[test]
fn the_refusal_of_an_incompatible_baseline_names_both_versions() {
    let mut active = report(3);
    active.evidence_schema_version = 7;
    match count_gate_failures(Some(&active), &report(3), &gates()) {
        Err(ProfileError::IncompatibleProfile(m)) => assert_eq!(
            m,
            "active evidence_schema_version 7 does not match required version 1"
        ),
        other => panic!("unexpected {other:?}"),
    }
}

#[test]
fn hard_rules_and_explanations_fail_for_their_dataset() {
    let active = report(3);
    let mut candidate = report(3);
    candidate.datasets[0].hard_rule_violations = 1;
    candidate.datasets[1].invalid_explanations = 1;
    let verdict = count_gate_failures(Some(&active), &candidate, &gates()).unwrap();
    assert_eq!(
        failure_keys(&verdict.failures),
        vec![
            ("library-a", "hard_rule_violations"),
            ("library-b", "invalid_explanations"),
        ]
    );
    assert_eq!(verdict.failures[0].observed, Some(1));
    assert_eq!(verdict.failures[0].required, Some(0));
}

#[test]
fn a_clean_candidate_without_baseline_fails_nothing() {
    let verdict = count_gate_failures(None, &report(3), &gates()).unwrap();
    assert!(verdict.failures.is_empty());
    assert!(!verdict.fragmented_gain);
}

#[test]
fn version_and_count_failures_carry_their_numbers() {
    let mut candidate = report(3);
    candidate.feature_schema_version = 4;
    candidate.datasets.pop();
    let verdict = count_gate_failures(None, &candidate, &gates()).unwrap();
    assert_eq!(
        failure_keys(&verdict.failures),
        vec![("", "feature_schema_version"), ("", "min_datasets")]
    );
    assert_eq!(verdict.failures[0].observed, Some(4));
    assert_eq!(verdict.failures[0].required, Some(1));
    assert_eq!(verdict.failures[1].observed, Some(1));
    assert_eq!(verdict.failures[1].required, Some(2));
}

#[test]
fn fewer_fragmented_identities_count_as_a_gain() {
    let active = report(3);
    let verdict = count_gate_failures(Some(&active), &report(2), &gates()).unwrap();
    assert!(verdict.fragmented_gain);
    let verdict = count_gate_failures(Some(&active), &report(3), &gates()).unwrap();
    assert!(!verdict.fragmented_gain);
    let verdict = count_gate_failures(Some(&active), &report(9), &gates()).unwrap();
    assert!(!verdict.fragmented_gain);
}

#[test]
fn gates_must_ask_for_some_dataset() {
    let mut g = gates();
    assert!(check_count_gates(&g).is_ok());
    g.min_datasets = 0;
    assert!(matches!(
        check_count_gates(&g),
        Err(ProfileError::InvalidGate("min_datasets"))
    ));
    assert_eq!(CountGates::shipped().min_datasets, 2);
    assert_eq!(CountGates::shipped().min_fragmented_identity_reduction, 0);
}

#[test]
fn the_first_empty_or_repeated_key_is_found() {
    let keys = |ks: &[&str]| ks.iter().map(|k| k.to_string()).collect::<Vec<_>>();
    assert_eq!(first_bad_key(&keys(&["a", "b", "c"])), None);
    assert_eq!(first_bad_key(&keys(&["a", "b", "a", ""])), Some(2));
    assert_eq!(first_bad_key(&keys(&["a", "", "a"])), Some(1));
    assert_eq!(first_bad_key(&keys(&[])), None);
}

fn invalid_profile(r: Result<(), ProfileError>) -> String {
    match r {
        Err(ProfileError::InvalidProfile(m)) => m,
        other => panic!("expected an invalid profile, got {other:?}"),
    }
}

#[test]
fn profile_metadata_must_name_its_model_and_match_the_report_schema() {
    assert!(check_profile_metadata(1, "owner/model", 4, "logistic", 4).is_ok());
    assert_eq!(
        invalid_profile(check_profile_metadata(2, "owner/model", 4, "logistic", 4)),
        "unsupported artifact version 2"
    );
    assert_eq!(
        invalid_profile(check_profile_metadata(1, " \t", 4, "logistic", 4)),
        "embedding model id is empty"
    );
    assert_eq!(
        invalid_profile(check_profile_metadata(1, "owner/model", 4, "  ", 4)),
        "model kind is empty"
    );
    assert_eq!(
        invalid_profile(check_profile_metadata(1, "owner/model", 3, "additive", 4)),
        "profile feature schema 3 does not match report feature schema 4"
    );
}

#[test]
fn only_a_candidate_can_be_promoted() {
    assert!(check_candidate_status(7, ProfileStatus::Candidate).is_ok());
    for status in [ProfileStatus::Active, ProfileStatus::Rejected, ProfileStatus::Retired] {
        assert!(matches!(
            check_candidate_status(7, status),
            Err(ProfileError::NotCandidate(7))
        ));
    }
}

#[test]
fn a_candidate_must_share_the_active_embedding_model() {
    assert!(check_active_compatible("owner/a", None).is_ok());
    assert!(check_active_compatible("owner/a", Some("owner/a")).is_ok());
    match check_active_compatible("owner/b", Some("owner/a")) {
        Err(ProfileError::IncompatibleProfile(m)) => {
            assert_eq!(m, "embedding model owner/b does not match active model owner/a")
        }
        other => panic!("expected incompatibility, got {other:?}"),
    }
}

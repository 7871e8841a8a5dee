use videre_core::face_learning::questions::{question_evidence_revision, selection_counts_ok};

const FEATURES: &str = r#"{"schema_version":1,"values":{"x":1.0}}"#;
const OTHER_FEATURES: &str = r#"{"schema_version":1,"values":{"x":2.0}}"#;

fn threshold(value: f64) -> String {
    format!("{value:?}")
}

#[test]
fn revision_is_the_digest_of_its_canonical_text() {
    let revision =
        question_evidence_revision(7, "logistic", &[3, 1, 3], "alice", FEATURES, &threshold(0.5), &[5, 4]);
    let text = format!("v1|7|logistic|[1, 3]|alice|{FEATURES}|0.5|[5, 4]");
    assert_eq!(revision, blake3::hash(text.as_bytes()).to_string());
    assert_eq!(revision.len(), 64);
    let empty = question_evidence_revision(-2, "k", &[], "t", "", "NaN", &[]);
    assert_eq!(empty, blake3::hash(b"v1|-2|k|[]|t||NaN|[]").to_string());
}

#[test]
fn revision_tracks_every_input_it_names() {
    let t = threshold(0.5);
    let base = question_evidence_revision(1, "logistic", &[1, 2], "alice", FEATURES, &t, &[3]);
    assert_ne!(
        question_evidence_revision(1, "logistic", &[2], "alice", FEATURES, &t, &[3]),
        base,
        "a subject face whose id matches the profile id must affect the revision"
    );
    assert_eq!(
        base,
        question_evidence_revision(1, "logistic", &[2, 1], "alice", FEATURES, &t, &[3]),
        "subject order must not matter"
    );
    for (label, revision) in [
        ("profile", question_evidence_revision(2, "logistic", &[1, 2], "alice", FEATURES, &t, &[3])),
        ("kind", question_evidence_revision(1, "additive", &[1, 2], "alice", FEATURES, &t, &[3])),
        ("subject", question_evidence_revision(1, "logistic", &[1, 9], "alice", FEATURES, &t, &[3])),
        ("target", question_evidence_revision(1, "logistic", &[1, 2], "bob", FEATURES, &t, &[3])),
        (
            "features",
            question_evidence_revision(1, "logistic", &[1, 2], "alice", OTHER_FEATURES, &t, &[3]),
        ),
        (
            "threshold",
            question_evidence_revision(1, "logistic", &[1, 2], "alice", FEATURES, &threshold(0.6), &[3]),
        ),
        ("support", question_evidence_revision(1, "logistic", &[1, 2], "alice", FEATURES, &t, &[3, 4])),
    ] {
        assert_ne!(revision, base, "{label} must change the revision");
    }
}

#[test]
fn question_selection_needs_positive_caps() {
    assert!(selection_counts_ok(8, 64, 64));
    assert!(!selection_counts_ok(0, 64, 64));
    assert!(!selection_counts_ok(8, 0, 64));
    assert!(!selection_counts_ok(8, 64, 0));
}

use std::collections::{BTreeMap, BTreeSet};
use videre_core::face_learning::metrics::LabeledFace;
use videre_core::face_learning::sampling::{
    identity_held_out_folds, sample_identity_balanced_pairs, PairLabel, PairSamplingConfig,
    SamplingError,
};

fn labels() -> Vec<LabeledFace> {
    let mut labels = Vec::new();
    let mut next_id = 1i64;
    for (identity, count) in [("alpha", 20), ("beta", 4), ("gamma", 3), ("delta", 2)] {
        for _ in 0..count {
            labels.push(LabeledFace::new(next_id, identity));
            next_id += 1;
        }
    }
    labels
}

fn config() -> PairSamplingConfig {
    PairSamplingConfig {
        seed: 0x5649_4445_5245,
        max_positive_pairs_per_identity: 3,
        max_negative_pairs_per_identity_pair: 2,
    }
}

fn identities_by_face(labels: &[LabeledFace]) -> BTreeMap<i64, &str> {
    labels
        .iter()
        .map(|label| (label.face_id, label.identity.as_str()))
        .collect()
}

#[test]
fn sampling_caps_each_identity_and_identity_pair() {
    let labels = labels();
    let identity_by_face = identities_by_face(&labels);
    let examples = sample_identity_balanced_pairs(&labels, &config()).unwrap();

    let alpha_positive = examples
        .iter()
        .filter(|example| {
            example.label == PairLabel::SameIdentity
                && identity_by_face[&example.left_face_id] == "alpha"
        })
        .count();
    assert_eq!(alpha_positive, 3);

    let mut negative_counts = BTreeMap::new();
    for example in examples
        .iter()
        .filter(|example| example.label == PairLabel::DifferentIdentities)
    {
        let mut identities = [
            identity_by_face[&example.left_face_id],
            identity_by_face[&example.right_face_id],
        ];
        identities.sort();
        *negative_counts.entry(identities).or_insert(0usize) += 1;
    }
    assert_eq!(negative_counts.len(), 6);
    assert!(negative_counts.values().all(|count| *count == 2));
}

#[test]
fn sampling_is_order_independent_and_contains_no_duplicate_pair() {
    let labels = labels();
    let expected = sample_identity_balanced_pairs(&labels, &config()).unwrap();

    let mut reversed = labels.clone();
    reversed.reverse();
    assert_eq!(
        sample_identity_balanced_pairs(&reversed, &config()).unwrap(),
        expected
    );

    let mut rotated = labels.clone();
    rotated.rotate_left(7);
    assert_eq!(
        sample_identity_balanced_pairs(&rotated, &config()).unwrap(),
        expected
    );

    let pairs: BTreeSet<_> = expected
        .iter()
        .map(|example| (example.left_face_id, example.right_face_id))
        .collect();
    assert_eq!(pairs.len(), expected.len());
    assert!(expected
        .iter()
        .all(|example| example.left_face_id < example.right_face_id));
}

#[test]
fn changing_seed_changes_the_sample() {
    let labels = labels();
    let first = sample_identity_balanced_pairs(&labels, &config()).unwrap();
    let mut other = config();
    other.seed += 1;
    let second = sample_identity_balanced_pairs(&labels, &other).unwrap();
    assert_ne!(first, second);
}

#[test]
fn held_out_folds_keep_identities_whole_and_balance_greedily() {
    let labels = labels();
    let folds = identity_held_out_folds(&labels, 3, config().seed).unwrap();

    assert_eq!(folds.len(), 3);
    assert_eq!(
        folds.iter().map(|fold| fold.face_count).collect::<Vec<_>>(),
        vec![20, 4, 5]
    );
    assert_eq!(folds[0].identities, vec!["alpha"]);
    assert_eq!(folds[1].identities, vec!["beta"]);
    assert_eq!(folds[2].identities.len(), 2);

    let mut identity_folds = BTreeMap::new();
    for fold in &folds {
        assert_eq!(fold.face_count, fold.face_ids.len());
        for identity in &fold.identities {
            assert!(identity_folds.insert(identity, fold.fold_index).is_none());
        }
    }
    assert_eq!(identity_folds.len(), 4);
}

#[test]
fn held_out_folds_are_order_independent() {
    let labels = labels();
    let expected = identity_held_out_folds(&labels, 3, config().seed).unwrap();
    let mut reversed = labels.clone();
    reversed.reverse();
    assert_eq!(
        identity_held_out_folds(&reversed, 3, config().seed).unwrap(),
        expected
    );
}

#[test]
fn duplicate_face_ids_are_rejected() {
    let mut labels = labels();
    labels.push(LabeledFace::new(1, "another"));
    assert_eq!(
        sample_identity_balanced_pairs(&labels, &config()),
        Err(SamplingError::DuplicateFaceId(1))
    );
    assert_eq!(
        identity_held_out_folds(&labels, 3, config().seed),
        Err(SamplingError::DuplicateFaceId(1))
    );
}

#[test]
fn zero_pair_caps_are_rejected() {
    let labels = labels();
    let mut zero_positive = config();
    zero_positive.max_positive_pairs_per_identity = 0;
    assert_eq!(
        sample_identity_balanced_pairs(&labels, &zero_positive),
        Err(SamplingError::ZeroPairCap)
    );

    let mut zero_negative = config();
    zero_negative.max_negative_pairs_per_identity_pair = 0;
    assert_eq!(
        sample_identity_balanced_pairs(&labels, &zero_negative),
        Err(SamplingError::ZeroPairCap)
    );
}

#[test]
fn fold_count_must_leave_at_least_one_identity_per_fold() {
    let labels = labels();
    assert_eq!(
        identity_held_out_folds(&labels, 1, config().seed),
        Err(SamplingError::TooFewFolds)
    );
    assert_eq!(
        identity_held_out_folds(&labels, 5, config().seed),
        Err(SamplingError::FewerIdentitiesThanFolds {
            identities: 4,
            folds: 5,
        })
    );
}

#[test]
fn an_identity_with_one_face_gives_no_positive_pair() {
    let labels = vec![LabeledFace::new(1, "solo"), LabeledFace::new(2, "other")];
    let pairs = sample_identity_balanced_pairs(&labels, &config()).unwrap();
    assert!(pairs.iter().all(|p| p.label == PairLabel::DifferentIdentities));
    assert_eq!(pairs.len(), 1);
    assert_eq!((pairs[0].left_face_id, pairs[0].right_face_id), (1, 2));
}

#[test]
fn sample_counts_follow_group_sizes_and_caps() {
    let labels = labels();
    let identity_by_face = identities_by_face(&labels);
    let mut cfg = config();
    cfg.max_positive_pairs_per_identity = 4;
    cfg.max_negative_pairs_per_identity_pair = 7;
    let examples = sample_identity_balanced_pairs(&labels, &cfg).unwrap();
    let mut positives: BTreeMap<&str, usize> = BTreeMap::new();
    let mut negatives: BTreeMap<(&str, &str), usize> = BTreeMap::new();
    for e in &examples {
        let a = identity_by_face[&e.left_face_id];
        let b = identity_by_face[&e.right_face_id];
        match e.label {
            PairLabel::SameIdentity => *positives.entry(a).or_default() += 1,
            PairLabel::DifferentIdentities => {
                let key = if a < b { (a, b) } else { (b, a) };
                *negatives.entry(key).or_default() += 1;
            }
        }
    }
    // min(4, n(n-1)/2) for 20, 4, 3 and 2 faces.
    assert_eq!(positives["alpha"], 4);
    assert_eq!(positives["beta"], 4);
    assert_eq!(positives["gamma"], 3);
    assert_eq!(positives["delta"], 1);
    // min(7, a*b).
    assert_eq!(negatives[&("alpha", "beta")], 7);
    assert_eq!(negatives[&("delta", "gamma")], 6);
    assert_eq!(negatives[&("beta", "delta")], 7);
}

#[test]
fn held_out_fold_counts_add_up_to_the_labels() {
    let labels = labels();
    for folds in 2..=4 {
        let f = identity_held_out_folds(&labels, folds, config().seed).unwrap();
        assert_eq!(f.iter().map(|fold| fold.face_count).sum::<usize>(), labels.len());
    }
}

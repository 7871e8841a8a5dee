use videre_core::face_learning::held_out::{held_out_identities, held_out_sides};
use videre_core::face_learning::training::TrainingError;

fn keys(list: &[&[&str]]) -> Vec<Vec<String>> {
    list.iter()
        .map(|ks| ks.iter().map(|k| k.to_string()).collect())
        .collect()
}

fn strings(list: &[&str]) -> Vec<String> {
    list.iter().map(|k| k.to_string()).collect()
}

/// FNV-1a over the seed's little-endian bytes, 0xff, then the identity.
fn fold_hash(seed: u64, identity: &str) -> u64 {
    let mut hash = 0xcbf2_9ce4_8422_2325u64;
    for byte in seed
        .to_le_bytes()
        .into_iter()
        .chain(std::iter::once(0xff))
        .chain(identity.bytes())
    {
        hash ^= u64::from(byte);
        hash = hash.wrapping_mul(0x0000_0100_0000_01b3);
    }
    hash
}

#[test]
fn each_identity_is_held_out_by_exactly_the_fold_its_rank_deals_it() {
    let seed = 0x5649_4445_5245;
    let examples = keys(&[&["b"], &["a", "c"], &["d"], &["e"], &["a"], &["f", "b"]]);
    let folds = held_out_identities(&examples, 3, seed).unwrap();
    assert_eq!(folds.len(), 3);
    let mut ordered: Vec<&str> = vec!["a", "b", "c", "d", "e", "f"];
    ordered.sort_by_key(|id| (fold_hash(seed, id), id.to_string()));
    let mut expected: Vec<Vec<String>> = vec![Vec::new(); 3];
    for (index, id) in ordered.iter().enumerate() {
        expected[index % 3].push(id.to_string());
    }
    for fold in &mut expected {
        fold.sort();
    }
    assert_eq!(folds, expected);
}

#[test]
fn held_out_folds_do_not_depend_on_example_order() {
    let seed = 7;
    let examples = keys(&[&["x"], &["y", "z"], &["w"], &["v"]]);
    let mut reversed = examples.clone();
    reversed.reverse();
    assert_eq!(
        held_out_identities(&examples, 2, seed).unwrap(),
        held_out_identities(&reversed, 2, seed).unwrap()
    );
}

#[test]
fn held_out_folds_refuse_bad_counts_and_keyless_examples() {
    assert!(matches!(
        held_out_identities(&keys(&[&["a"], &["b"]]), 1, 0),
        Err(TrainingError::InvalidConfig(m)) if m == "identity-held-out training needs at least two folds"
    ));
    assert!(matches!(
        held_out_identities(&keys(&[&["a"], &[]]), 2, 0),
        Err(TrainingError::InvalidInput(m)) if m == "training example has no identity key"
    ));
    assert_eq!(
        held_out_identities(&keys(&[&["a"], &["b", "a"]]), 4, 0),
        Err(TrainingError::TooFewIdentities {
            identities: 2,
            folds: 4
        })
    );
}

#[test]
fn an_example_trains_when_none_of_its_identities_is_held_and_validates_when_all_are() {
    let held = strings(&["a", "c"]);
    assert_eq!(held_out_sides(&strings(&["b"]), &held), (true, false));
    assert_eq!(held_out_sides(&strings(&["a", "c"]), &held), (false, true));
    assert_eq!(held_out_sides(&strings(&["a", "b"]), &held), (false, false));
}

//! The errors of a scoring model that is malformed or fed the wrong
//! features.

use vstd::prelude::*;
use crate::strings::{str_lt, str_less, lemma_str_lt_transitive, lemma_str_lt_irreflexive};
use crate::text::{owned, str_equal, trimmed, trim_chars, chars_of};

verus! {

/// Why a model or a feature vector given to it was refused.
#[derive(Clone, Debug, PartialEq, Eq)]
pub enum ModelError {
    InvalidModel(String),
    InvalidFeatureVector(String),
}

/// The message of a model error.
pub open spec fn model_error_text(e: ModelError) -> Seq<char> {
    match e {
        ModelError::InvalidModel(reason) => "invalid logistic model: "@ + reason@,
        ModelError::InvalidFeatureVector(reason) => "invalid feature vector: "@ + reason@,
    }
}

impl ModelError {
    /// The message a reader sees.
    pub fn message(&self) -> (r: String)
        ensures
            r@ == model_error_text(*self),
    {
        match self {
            ModelError::InvalidModel(reason) => {
                let mut m = crate::text::owned("invalid logistic model: ");
                m.append(reason.as_str());
                m
            },
            ModelError::InvalidFeatureVector(reason) => {
                let mut m = crate::text::owned("invalid feature vector: ");
                m.append(reason.as_str());
                m
            },
        }
    }
}

/// The artifact version of stored model bundles.
pub const MODEL_ARTIFACT_VERSION: u32 = 1;

/// Whether the name at `i` sorts strictly before the next one.
pub open spec fn before_next(names: Seq<Seq<char>>, i: int) -> bool {
    str_lt(names[i], names[i + 1])
}

/// Names in strictly ascending order.
pub open spec fn strictly_ascending(names: Seq<Seq<char>>) -> bool {
    forall|i: int| 0 <= i < names.len() - 1 ==> #[trigger] before_next(names, i)
}

/// Names with no repeat.
pub open spec fn distinct_names(names: Seq<Seq<char>>) -> bool {
    forall|i: int, j: int| 0 <= i < j < names.len() ==> names[i] != names[j]
}

/// Strictly ascending names sort each before every later one.
pub proof fn lemma_ascending_is_ordered(names: Seq<Seq<char>>, i: int, j: int)
    requires
        strictly_ascending(names),
        0 <= i < j < names.len(),
    ensures
        str_lt(names[i], names[j]),
    decreases j - i,
{
    assert(before_next(names, i));
    if j > i + 1 {
        lemma_ascending_is_ordered(names, i + 1, j);
        lemma_str_lt_transitive(names[i], names[i + 1], names[j]);
    }
}

/// Strictly ascending names repeat none.
pub proof fn lemma_ascending_names_are_distinct(names: Seq<Seq<char>>)
    requires
        strictly_ascending(names),
    ensures
        distinct_names(names),
{
    assert forall|i: int, j: int| 0 <= i < j < names.len() implies names[i] != names[j] by {
        lemma_ascending_is_ordered(names, i, j);
        lemma_str_lt_irreflexive(names[i]);
    }
}

/// Why a logistic model's shape is refused: no feature, parameter lengths
/// that differ from the names', or names not unique and ascending.
pub open spec fn model_shape_problem(names: Seq<Seq<char>>, means: nat, scales: nat, weights: nat) -> Option<
    Seq<char>,
> {
    let n = names.len();
    if n == 0 || means != n || scales != n || weights != n {
        Some("feature parameter lengths disagree"@)
    } else if !(strictly_ascending(names) && distinct_names(names)) {
        Some("feature names are not unique and sorted"@)
    } else {
        None
    }
}

/// The views of a sequence of names.
pub open spec fn name_views(names: Seq<String>) -> Seq<Seq<char>> {
    names.map_values(|s: String| s@)
}

/// Check the shape of a logistic model: one mean, scale and weight per
/// feature name, at least one name, names unique and ascending.
pub fn check_model_shape(names: &Vec<String>, means: usize, scales: usize, weights: usize) -> (r: Result<
    (),
    ModelError,
>)
    ensures
        match r {
            Ok(_) => model_shape_problem(name_views(names@), means as nat, scales as nat, weights as nat)
                is None,
            Err(e) => e matches ModelError::InvalidModel(m) && model_shape_problem(
                name_views(names@),
                means as nat,
                scales as nat,
                weights as nat,
            ) == Some(m@),
        },
{
    let n = names.len();
    if n == 0 || means != n || scales != n || weights != n {
        return Err(ModelError::InvalidModel(owned("feature parameter lengths disagree")));
    }
    if !names_ascending(names) {
        return Err(ModelError::InvalidModel(owned("feature names are not unique and sorted")));
    }
    Ok(())
}

/// Whether names are unique and in ascending order.
pub fn names_ascending(names: &Vec<String>) -> (r: bool)
    ensures
        r == (strictly_ascending(name_views(names@)) && distinct_names(name_views(names@))),
{
    let ghost v = name_views(names@);
    let n = names.len();
    if n == 0 {
        return true;
    }
    let mut i: usize = 0;
    while i + 1 < n
        invariant
            n == names@.len(),
            n > 0,
            v == name_views(names@),
            v.len() == n,
            i < n,
            forall|k: int| 0 <= k < i ==> #[trigger] before_next(v, k),
        decreases n - i,
    {
        assert(v[i as int] == names@[i as int]@ && v[i + 1] == names@[i + 1]@);
        if !str_less(names[i].as_str(), names[i + 1].as_str()) {
            assert(!before_next(v, i as int));
            return false;
        }
        i = i + 1;
    }
    proof {
        lemma_ascending_names_are_distinct(v);
    }
    true
}

/// Whether an additive curve's shape is usable: a name that is not blank,
/// at least one knot, and one effect per knot.
pub open spec fn curve_shape_valid(name: Seq<char>, knots: nat, effects: nat) -> bool {
    trimmed(name).len() > 0 && knots > 0 && knots == effects
}

/// Check an additive curve's name and its counts of knots and effects.
pub fn curve_shape_ok(name: &str, knots: usize, effects: usize) -> (r: bool)
    ensures
        r == curve_shape_valid(name@, knots as nat, effects as nat),
{
    trim_chars(chars_of(name).as_slice()).len() > 0 && knots > 0 && knots == effects
}

/// Whether every model name is among the feature names.
pub open spec fn names_covered(model: Seq<Seq<char>>, features: Seq<Seq<char>>) -> bool {
    forall|i: int| 0 <= i < model.len() ==> #[trigger] features.contains(model[i])
}

/// Check that a feature vector carries exactly the model's names: as many
/// names, each of the model's among them.
pub fn check_feature_names(model_names: &Vec<String>, feature_names: &Vec<String>) -> (r: Result<
    (),
    ModelError,
>)
    ensures
        r is Ok <==> (feature_names@.len() == model_names@.len() && names_covered(
            name_views(model_names@),
            name_views(feature_names@),
        )),
        r matches Err(e) ==> e matches ModelError::InvalidFeatureVector(m) && m@
            == "feature names do not match the model"@,
{
    let ghost mv = name_views(model_names@);
    let ghost fv = name_views(feature_names@);
    if feature_names.len() != model_names.len() {
        return Err(ModelError::InvalidFeatureVector(owned("feature names do not match the model")));
    }
    let mut i: usize = 0;
    while i < model_names.len()
        invariant
            i <= model_names@.len(),
            mv == name_views(model_names@),
            fv == name_views(feature_names@),
            mv.len() == model_names@.len(),
            fv.len() == feature_names@.len(),
            forall|k: int| 0 <= k < i ==> #[trigger] fv.contains(mv[k]),
        decreases model_names@.len() - i,
    {
        let mut found = false;
        let mut j: usize = 0;
        while j < feature_names.len()
            invariant
                i < model_names@.len(),
                j <= feature_names@.len(),
                mv == name_views(model_names@),
                fv == name_views(feature_names@),
                mv.len() == model_names@.len(),
                fv.len() == feature_names@.len(),
                found ==> fv.contains(mv[i as int]),
                !found ==> forall|x: int| 0 <= x < j ==> fv[x] != mv[i as int],
            decreases feature_names@.len() - j,
        {
            assert(fv[j as int] == feature_names@[j as int]@ && mv[i as int] == model_names@[i as int]@);
            if !found && str_equal(feature_names[j].as_str(), model_names[i].as_str()) {
                found = true;
                assert(fv[j as int] == mv[i as int]);
            }
            j = j + 1;
        }
        if !found {
            assert(!fv.contains(mv[i as int]));
            return Err(ModelError::InvalidFeatureVector(owned("feature names do not match the model")));
        }
        i = i + 1;
    }
    Ok(())
}

/// Why a model bundle's identity is refused: an unknown artifact version,
/// a blank embedding model id, or no feature schema.
pub open spec fn bundle_identity_problem(artifact_version: u32, embedding_model_id: Seq<char>, schema: u32) -> Option<
    Seq<char>,
> {
    if artifact_version != MODEL_ARTIFACT_VERSION {
        Some("unsupported artifact version"@)
    } else if trimmed(embedding_model_id).len() == 0 || schema == 0 {
        Some("model identity or feature schema is missing"@)
    } else {
        None
    }
}

/// Check a model bundle's artifact version, embedding model and schema.
pub fn check_bundle_identity(artifact_version: u32, embedding_model_id: &str, feature_schema_version: u32) -> (r:
    Result<(), ModelError>)
    ensures
        match r {
            Ok(_) => bundle_identity_problem(artifact_version, embedding_model_id@, feature_schema_version)
                is None,
            Err(e) => e matches ModelError::InvalidModel(m) && bundle_identity_problem(
                artifact_version,
                embedding_model_id@,
                feature_schema_version,
            ) == Some(m@),
        },
{
    if artifact_version != MODEL_ARTIFACT_VERSION {
        return Err(ModelError::InvalidModel(owned("unsupported artifact version")));
    }
    if trim_chars(chars_of(embedding_model_id).as_slice()).len() == 0 || feature_schema_version == 0 {
        return Err(ModelError::InvalidModel(owned("model identity or feature schema is missing")));
    }
    Ok(())
}

} // verus!

//! The feature schemas of face-learning decisions and the checks on a
//! feature vector that do not look at its values.

use vstd::prelude::*;
use crate::text::{owned, with_number, with_unsigned, str_equal, decimal, signed_decimal};

verus! {

/// Current schema for persisted face-learning feature vectors.
pub const FEATURE_SCHEMA_VERSION: u32 = 1;

/// The views of a sequence of string slices.
pub open spec fn str_views(v: Seq<&str>) -> Seq<Seq<char>> {
    Seq::new(v.len(), |k: int| v[k]@)
}

/// The views of a sequence of strings.
pub open spec fn string_views(v: Seq<String>) -> Seq<Seq<char>> {
    Seq::new(v.len(), |k: int| v[k]@)
}

/// Complete, lexicographically ordered membership feature schema.
pub open spec fn membership_names() -> Seq<Seq<char>> {
    seq![
        "blur_mean_subject"@,
        "blur_mean_target"@,
        "blur_missing_proportion_subject"@,
        "blur_missing_proportion_target"@,
        "centroid_similarity"@,
        "decision_stage"@,
        "detector_confidence_mean_subject"@,
        "detector_confidence_mean_target"@,
        "detector_confidence_missing_proportion_subject"@,
        "detector_confidence_missing_proportion_target"@,
        "face_size_mean_subject"@,
        "face_size_mean_target"@,
        "face_size_missing_proportion_subject"@,
        "face_size_missing_proportion_target"@,
        "landmark_residual_mean_subject"@,
        "landmark_residual_mean_target"@,
        "landmark_residual_missing_proportion_subject"@,
        "landmark_residual_missing_proportion_target"@,
        "reciprocal_rank_mean"@,
        "same_photo_proportion"@,
        "similarity_lower_quartile"@,
        "similarity_mean"@,
        "similarity_median"@,
        "similarity_spread"@,
        "similarity_strongest"@,
        "similarity_weakest"@,
        "subject_cohesion_mean"@,
        "subject_outlier_proportion"@,
        "subject_similarity_spread"@,
        "subject_size"@,
        "support_count_ge_0_50"@,
        "support_count_ge_0_65"@,
        "support_count_ge_0_75"@,
        "support_proportion_ge_0_50"@,
        "support_proportion_ge_0_65"@,
        "support_proportion_ge_0_75"@,
        "target_cohesion_mean"@,
        "target_outlier_proportion"@,
        "target_similarity_spread"@,
        "target_size"@,
    ]
}

/// Complete, lexicographically ordered cluster-quality feature schema.
pub open spec fn cluster_quality_names() -> Seq<Seq<char>> {
    seq![
        "blur_mean"@,
        "blur_missing_proportion"@,
        "cluster_size"@,
        "cohesion_mean"@,
        "decision_stage"@,
        "detector_confidence_mean"@,
        "detector_confidence_missing_proportion"@,
        "face_size_mean"@,
        "face_size_missing_proportion"@,
        "landmark_residual_mean"@,
        "landmark_residual_missing_proportion"@,
        "nearest_neighbor_mean"@,
        "outlier_proportion"@,
        "quality_missing_proportion"@,
        "same_photo_proportion"@,
        "similarity_lower_quartile"@,
        "similarity_median"@,
        "similarity_spread"@,
        "similarity_strongest"@,
        "similarity_weakest"@,
        "support_proportion_ge_0_50"@,
        "support_proportion_ge_0_65"@,
        "support_proportion_ge_0_75"@,
    ]
}

/// The membership feature names, in schema order.
pub fn membership_feature_names() -> (r: Vec<&'static str>)
    ensures
        str_views(r@) == membership_names(),
{
    let r = vec![
        "blur_mean_subject",
        "blur_mean_target",
        "blur_missing_proportion_subject",
        "blur_missing_proportion_target",
        "centroid_similarity",
        "decision_stage",
        "detector_confidence_mean_subject",
        "detector_confidence_mean_target",
        "detector_confidence_missing_proportion_subject",
        "detector_confidence_missing_proportion_target",
        "face_size_mean_subject",
        "face_size_mean_target",
        "face_size_missing_proportion_subject",
        "face_size_missing_proportion_target",
        "landmark_residual_mean_subject",
        "landmark_residual_mean_target",
        "landmark_residual_missing_proportion_subject",
        "landmark_residual_missing_proportion_target",
        "reciprocal_rank_mean",
        "same_photo_proportion",
        "similarity_lower_quartile",
        "similarity_mean",
        "similarity_median",
        "similarity_spread",
        "similarity_strongest",
        "similarity_weakest",
        "subject_cohesion_mean",
        "subject_outlier_proportion",
        "subject_similarity_spread",
        "subject_size",
        "support_count_ge_0_50",
        "support_count_ge_0_65",
        "support_count_ge_0_75",
        "support_proportion_ge_0_50",
        "support_proportion_ge_0_65",
        "support_proportion_ge_0_75",
        "target_cohesion_mean",
        "target_outlier_proportion",
        "target_similarity_spread",
        "target_size",
    ];
    assert(str_views(r@) =~= membership_names());
    r
}

/// The cluster-quality feature names, in schema order.
pub fn cluster_quality_feature_names() -> (r: Vec<&'static str>)
    ensures
        str_views(r@) == cluster_quality_names(),
{
    let r = vec![
        "blur_mean",
        "blur_missing_proportion",
        "cluster_size",
        "cohesion_mean",
        "decision_stage",
        "detector_confidence_mean",
        "detector_confidence_missing_proportion",
        "face_size_mean",
        "face_size_missing_proportion",
        "landmark_residual_mean",
        "landmark_residual_missing_proportion",
        "nearest_neighbor_mean",
        "outlier_proportion",
        "quality_missing_proportion",
        "same_photo_proportion",
        "similarity_lower_quartile",
        "similarity_median",
        "similarity_spread",
        "similarity_strongest",
        "similarity_weakest",
        "support_proportion_ge_0_50",
        "support_proportion_ge_0_65",
        "support_proportion_ge_0_75",
    ];
    assert(str_views(r@) =~= cluster_quality_names());
    r
}

/// Stage at which a face-learning decision was observed.
#[derive(Clone, Copy, Debug, PartialEq, Eq, Structural)]
pub enum DecisionStage {
    GallerySingleton,
    GalleryCluster,
    Question,
    Merge,
    Attachment,
}

/// Validation and extraction failures that make an observation ineligible.
#[derive(Clone, Debug, PartialEq)]
pub enum FeatureError {
    EmptySubject,
    EmptyTarget,
    TooFewClusterFaces,
    DuplicateFaceId(i64),
    EmbeddingDimensionMismatch,
    NonFiniteEmbedding(i64),
    ZeroNormEmbedding(i64),
    InvalidQuality { face_id: i64, field: &'static str },
    UnsupportedSchemaVersion(u32),
    InvalidFeatureSet,
    NonFiniteFeature(String),
    Json(String),
}

/// The message of a feature error.
pub open spec fn feature_error_text(e: FeatureError) -> Seq<char> {
    match e {
        FeatureError::EmptySubject => "membership subject is empty"@,
        FeatureError::EmptyTarget => "membership target is empty"@,
        FeatureError::TooFewClusterFaces => "cluster quality needs at least two faces"@,
        FeatureError::DuplicateFaceId(id) => "face "@ + signed_decimal(id as int) + " appears more than once"@,
        FeatureError::EmbeddingDimensionMismatch => "face embedding dimensions differ"@,
        FeatureError::NonFiniteEmbedding(id) => "face "@ + signed_decimal(id as int) + " has a non-finite embedding"@,
        FeatureError::ZeroNormEmbedding(id) => "face "@ + signed_decimal(id as int) + " has a zero-norm embedding"@,
        FeatureError::InvalidQuality { face_id, field } => "face "@ + signed_decimal(face_id as int) + " has invalid "@ + field@,
        FeatureError::UnsupportedSchemaVersion(v) => "unsupported face feature schema version "@ + decimal(v as nat),
        FeatureError::InvalidFeatureSet => "face feature names do not match the schema"@,
        FeatureError::NonFiniteFeature(name) => "face feature "@ + name@ + " is not finite"@,
        FeatureError::Json(m) => "face feature JSON error: "@ + m@,
    }
}

impl FeatureError {
    /// The message a reader sees.
    pub fn message(&self) -> (r: String)
        ensures
            r@ == feature_error_text(*self),
    {
        match self {
            FeatureError::EmptySubject => owned("membership subject is empty"),
            FeatureError::EmptyTarget => owned("membership target is empty"),
            FeatureError::TooFewClusterFaces => owned("cluster quality needs at least two faces"),
            FeatureError::DuplicateFaceId(id) => {
                let mut m = with_number("face ", *id);
                m.append(" appears more than once");
                m
            },
            FeatureError::EmbeddingDimensionMismatch => owned("face embedding dimensions differ"),
            FeatureError::NonFiniteEmbedding(id) => {
                let mut m = with_number("face ", *id);
                m.append(" has a non-finite embedding");
                m
            },
            FeatureError::ZeroNormEmbedding(id) => {
                let mut m = with_number("face ", *id);
                m.append(" has a zero-norm embedding");
                m
            },
            FeatureError::InvalidQuality { face_id, field } => {
                let mut m = with_number("face ", *face_id);
                m.append(" has invalid ");
                m.append(field);
                m
            },
            FeatureError::UnsupportedSchemaVersion(v) => with_unsigned(
                "unsupported face feature schema version ",
                *v as u64,
            ),
            FeatureError::InvalidFeatureSet => owned("face feature names do not match the schema"),
            FeatureError::NonFiniteFeature(name) => {
                let mut m = owned("face feature ");
                m.append(name.as_str());
                m.append(" is not finite");
                m
            },
            FeatureError::Json(msg) => {
                let mut m = owned("face feature JSON error: ");
                m.append(msg.as_str());
                m
            },
        }
    }
}

fn names_equal(names: &[String], expected: &Vec<&'static str>) -> (r: bool)
    ensures
        r == (string_views(names@) == str_views(expected@)),
{
    if names.len() != expected.len() {
        assert(string_views(names@).len() != str_views(expected@).len());
        return false;
    }
    let mut i: usize = 0;
    while i < names.len()
        invariant
            names@.len() == expected@.len(),
            i <= names@.len(),
            forall|j: int| 0 <= j < i ==> names@[j]@ == expected@[j]@,
        decreases names@.len() - i,
    {
        if !str_equal(names[i].as_str(), expected[i]) {
            assert(string_views(names@)[i as int] != str_views(expected@)[i as int]);
            return false;
        }
        i = i + 1;
    }
    assert(string_views(names@) =~= str_views(expected@));
    true
}

/// Whether `names` is one of the two schemas.
pub fn is_membership_names(names: &[String]) -> (r: bool)
    ensures
        r == (string_views(names@) == membership_names()),
{
    names_equal(names, &membership_feature_names())
}

/// Whether `names` is the cluster-quality schema.
pub fn is_cluster_quality_names(names: &[String]) -> (r: bool)
    ensures
        r == (string_views(names@) == cluster_quality_names()),
{
    names_equal(names, &cluster_quality_feature_names())
}

/// What checking a feature vector gives: the current schema version first,
/// then every value finite (`first_non_finite` names the first one that is
/// not, in name order), then the names exactly one of the two schemas.
pub open spec fn feature_check(
    schema_version: u32,
    names: Seq<Seq<char>>,
    first_non_finite: Option<Seq<char>>,
) -> Option<FeatureError> {
    if schema_version != FEATURE_SCHEMA_VERSION {
        Some(FeatureError::UnsupportedSchemaVersion(schema_version))
    } else if first_non_finite is Some {
        None
    } else if names != membership_names() && names != cluster_quality_names() {
        Some(FeatureError::InvalidFeatureSet)
    } else {
        None
    }
}

/// Reject feature vectors that do not exactly match the current finite
/// schema, given the vector's version, its names in order, and the first
/// name whose value is not finite.
pub fn check_feature_vector(
    schema_version: u32,
    names: &[String],
    first_non_finite: Option<String>,
) -> (r: Result<(), FeatureError>)
    ensures
        match first_non_finite {
            Some(n) => schema_version == FEATURE_SCHEMA_VERSION ==> (r matches Err(
                FeatureError::NonFiniteFeature(m),
            ) && m@ == n@),
            None => true,
        },
        schema_version != FEATURE_SCHEMA_VERSION || first_non_finite is None ==> match feature_check(
            schema_version,
            string_views(names@),
            None,
        ) {
            Some(e) => r == Err::<(), FeatureError>(e),
            None => r is Ok,
        },
{
    if schema_version != FEATURE_SCHEMA_VERSION {
        return Err(FeatureError::UnsupportedSchemaVersion(schema_version));
    }
    match first_non_finite {
        Some(n) => {
            return Err(FeatureError::NonFiniteFeature(n));
        },
        None => {},
    }
    if !is_membership_names(names) && !is_cluster_quality_names(names) {
        return Err(FeatureError::InvalidFeatureSet);
    }
    Ok(())
}

/// The first problem with the shape of face `k` in a list of faces: its id
/// repeats an earlier face's, its embedding is empty, or its embedding's
/// length differs from the face before it.
pub open spec fn face_shape_problem(ids: Seq<i64>, lens: Seq<usize>, k: int) -> Option<FeatureError> {
    if exists|j: int| 0 <= j < k && #[trigger] ids[j] == ids[k] {
        Some(FeatureError::DuplicateFaceId(ids[k]))
    } else if lens[k] == 0 {
        Some(FeatureError::ZeroNormEmbedding(ids[k]))
    } else if k > 0 && lens[k] != lens[k - 1] {
        Some(FeatureError::EmbeddingDimensionMismatch)
    } else {
        None
    }
}

/// Check the id and embedding length of face `k`, given the ids and
/// embedding lengths of all the faces in order.
pub fn check_face_shape(ids: &[i64], lens: &[usize], k: usize) -> (r: Result<(), FeatureError>)
    requires
        k < ids@.len(),
        ids@.len() == lens@.len(),
    ensures
        match face_shape_problem(ids@, lens@, k as int) {
            Some(e) => r == Err::<(), FeatureError>(e),
            None => r is Ok,
        },
{
    let mut j: usize = 0;
    while j < k
        invariant
            k < ids@.len(),
            j <= k,
            forall|x: int| 0 <= x < j ==> ids@[x] != ids@[k as int],
        decreases k - j,
    {
        if ids[j] == ids[k] {
            assert(ids@[j as int] == ids@[k as int]);
            return Err(FeatureError::DuplicateFaceId(ids[k]));
        }
        j = j + 1;
    }
    if lens[k] == 0 {
        return Err(FeatureError::ZeroNormEmbedding(ids[k]));
    }
    if k > 0 && lens[k] != lens[k - 1] {
        return Err(FeatureError::EmbeddingDimensionMismatch);
    }
    Ok(())
}

} // verus!

//! Face profiles: the stored names of their stages and statuses, and the
//! checks of a validation report's counts that need no floating point.

use vstd::prelude::*;
use crate::text::{owned, str_equal, trimmed, trim_chars, chars_of, decimal, with_unsigned};

verus! {

#[verifier::external_type_specification]
#[verifier::external_body]
pub struct ExJsonError(serde_json::Error);

/// The artifact version of stored profiles.
pub const PROFILE_ARTIFACT_VERSION: u32 = 1;

/// Why a profile, a report or a stored value was refused.
#[derive(Debug)]
pub enum ProfileError {
    InvalidGate(&'static str),
    InvalidReport(String),
    InvalidProfile(String),
    IncompatibleProfile(String),
    InvalidStoredValue(String),
    CandidateNotFound(i64),
    NotCandidate(i64),
    Sql(rusqlite::Error),
    Json(serde_json::Error),
}

/// `serde_json::Error`'s `Display`: the parser's error as text. Nothing is
/// claimed of the text.
#[verifier::external_body]
fn json_error_text(error: &serde_json::Error) -> String {
    error.to_string()
}

/// The message of a profile error; for a database or JSON error, the part
/// before that error's own text.
pub open spec fn profile_error_text(e: ProfileError) -> Seq<char> {
    match e {
        ProfileError::InvalidGate(name) => "invalid promotion gate "@ + name@,
        ProfileError::InvalidReport(reason) => "invalid validation report: "@ + reason@,
        ProfileError::InvalidProfile(reason) => "invalid face profile: "@ + reason@,
        ProfileError::IncompatibleProfile(reason) => "incompatible face profile: "@ + reason@,
        ProfileError::InvalidStoredValue(reason) => "invalid stored profile: "@ + reason@,
        ProfileError::CandidateNotFound(id) => "profile candidate "@ + crate::text::signed_decimal(
            id as int,
        ) + " was not found"@,
        ProfileError::NotCandidate(id) => "profile "@ + crate::text::signed_decimal(id as int)
            + " is not a candidate"@,
        ProfileError::Sql(_) => "profile database error: "@,
        ProfileError::Json(_) => "profile JSON error: "@,
    }
}

impl ProfileError {
    /// The message a reader sees; a database or JSON error's message goes
    /// on with that error's own text.
    pub fn message(&self) -> (r: String)
        ensures
            !(*self is Sql || *self is Json) ==> r@ == profile_error_text(*self),
            exists|t: Seq<char>| r@ == profile_error_text(*self) + t,
    {
        let r = match self {
            ProfileError::InvalidGate(name) => {
                let mut m = owned("invalid promotion gate ");
                m.append(name);
                m
            },
            ProfileError::InvalidReport(reason) => {
                let mut m = owned("invalid validation report: ");
                m.append(reason.as_str());
                m
            },
            ProfileError::InvalidProfile(reason) => {
                let mut m = owned("invalid face profile: ");
                m.append(reason.as_str());
                m
            },
            ProfileError::IncompatibleProfile(reason) => {
                let mut m = owned("incompatible face profile: ");
                m.append(reason.as_str());
                m
            },
            ProfileError::InvalidStoredValue(reason) => {
                let mut m = owned("invalid stored profile: ");
                m.append(reason.as_str());
                m
            },
            ProfileError::CandidateNotFound(id) => {
                let mut m = crate::text::with_number("profile candidate ", *id);
                m.append(" was not found");
                m
            },
            ProfileError::NotCandidate(id) => {
                let mut m = crate::text::with_number("profile ", *id);
                m.append(" is not a candidate");
                m
            },
            ProfileError::Sql(error) => {
                let mut m = owned("profile database error: ");
                let t = crate::face_learning::events::sql_error_text(error);
                m.append(t.as_str());
                m
            },
            ProfileError::Json(error) => {
                let mut m = owned("profile JSON error: ");
                let t = json_error_text(error);
                m.append(t.as_str());
                m
            },
        };
        assert(r@ == profile_error_text(*self) + r@.skip(profile_error_text(*self).len() as int));
        r
    }
}

/// How far a profile's decisions reach: only recorded, offered as
/// suggestions, or grouping faces.
#[derive(Clone, Copy, Debug, PartialEq, Eq, Structural)]
pub enum ProfileStage {
    Shadow,
    Suggestion,
    Grouping,
}

/// The stored name of a profile stage.
pub open spec fn profile_stage_text(x: ProfileStage) -> Seq<char> {
    match x {
        ProfileStage::Shadow => "shadow"@,
        ProfileStage::Suggestion => "suggestion"@,
        ProfileStage::Grouping => "grouping"@,
    }
}

/// Different profile stages have different stored names.
pub proof fn lemma_profile_stage_text_injective(a: ProfileStage, b: ProfileStage)
    ensures
        profile_stage_text(a) == profile_stage_text(b) ==> a == b,
{
    reveal_strlit("shadow");
    reveal_strlit("suggestion");
    reveal_strlit("grouping");
    if a != b && profile_stage_text(a) == profile_stage_text(b) {
        assert(profile_stage_text(a).len() == profile_stage_text(b).len());
    }
}

impl ProfileStage {
    /// The stored name.
    pub fn as_str(self) -> (r: &'static str)
        ensures
            r@ == profile_stage_text(self),
    {
        match self {
            ProfileStage::Shadow => "shadow",
            ProfileStage::Suggestion => "suggestion",
            ProfileStage::Grouping => "grouping",
        }
    }

    /// The profile stage a stored name stands for.
    pub fn parse(value: &str) -> (r: Result<Self, ProfileError>)
        ensures
            match r {
                Ok(x) => profile_stage_text(x) == value@,
                Err(e) => (forall|x: ProfileStage| profile_stage_text(x) != value@) && (e matches ProfileError::InvalidStoredValue(m)
                    && m@ == "unknown profile stage "@ + value@),
            },
    {
        if str_equal(value, "shadow") {
            Ok(ProfileStage::Shadow)
        } else if str_equal(value, "suggestion") {
            Ok(ProfileStage::Suggestion)
        } else if str_equal(value, "grouping") {
            Ok(ProfileStage::Grouping)
        } else {
            let mut m = owned("unknown profile stage ");
            m.append(value);
            Err(ProfileError::InvalidStoredValue(m))
        }
    }
}

/// Where a stored profile stands.
#[derive(Clone, Copy, Debug, PartialEq, Eq, Structural)]
pub enum ProfileStatus {
    Candidate,
    Active,
    Rejected,
    Retired,
}

/// The stored name of a profile status.
pub open spec fn profile_status_text(x: ProfileStatus) -> Seq<char> {
    match x {
        ProfileStatus::Candidate => "candidate"@,
        ProfileStatus::Active => "active"@,
        ProfileStatus::Rejected => "rejected"@,
        ProfileStatus::Retired => "retired"@,
    }
}

/// Different profile statuses have different stored names.
pub proof fn lemma_profile_status_text_injective(a: ProfileStatus, b: ProfileStatus)
    ensures
        profile_status_text(a) == profile_status_text(b) ==> a == b,
{
    reveal_strlit("candidate");
    reveal_strlit("active");
    reveal_strlit("rejected");
    reveal_strlit("retired");
    if a != b && profile_status_text(a) == profile_status_text(b) {
        assert(profile_status_text(a).len() == profile_status_text(b).len());
    }
}

impl ProfileStatus {
    /// The profile status a stored name stands for.
    pub fn parse(value: &str) -> (r: Result<Self, ProfileError>)
        ensures
            match r {
                Ok(x) => profile_status_text(x) == value@,
                Err(e) => (forall|x: ProfileStatus| profile_status_text(x) != value@) && (e matches ProfileError::InvalidStoredValue(m)
                    && m@ == "unknown profile status "@ + value@),
            },
    {
        if str_equal(value, "candidate") {
            Ok(ProfileStatus::Candidate)
        } else if str_equal(value, "active") {
            Ok(ProfileStatus::Active)
        } else if str_equal(value, "rejected") {
            Ok(ProfileStatus::Rejected)
        } else if str_equal(value, "retired") {
            Ok(ProfileStatus::Retired)
        } else {
            let mut m = owned("unknown profile status ");
            m.append(value);
            Err(ProfileError::InvalidStoredValue(m))
        }
    }
}

/// The order of stages: shadow before suggestion before grouping.
pub open spec fn stage_rank(s: ProfileStage) -> u8 {
    match s {
        ProfileStage::Shadow => 0,
        ProfileStage::Suggestion => 1,
        ProfileStage::Grouping => 2,
    }
}

impl ProfileStage {
    /// The place of the stage in the order of stages.
    pub fn rank(self) -> (r: u8)
        ensures
            r == stage_rank(self),
    {
        match self {
            ProfileStage::Shadow => 0,
            ProfileStage::Suggestion => 1,
            ProfileStage::Grouping => 2,
        }
    }
}

/// How much evidence a profile was trained on.
#[derive(Clone, Debug, PartialEq, Eq, Structural)]
pub struct TrainingEvidenceCounts {
    pub positive_pairs: usize,
    pub negative_pairs: usize,
    pub explicit_negative_pairs: usize,
}

/// `x` capped at the largest `u64`.
pub open spec fn saturate(x: int) -> u64 {
    if x > u64::MAX {
        u64::MAX
    } else {
        x as u64
    }
}

/// The number of unordered pairs among `n` items, `n * (n - 1) / 2`, with
/// the product saturating.
pub open spec fn pairs_among(n: nat) -> u64 {
    (saturate(n * (if n > 0 {
        n - 1
    } else {
        0
    })) / 2) as u64
}

/// The number of unordered pairs among `value` items, the product
/// saturating.
pub fn choose_two(value: usize) -> (r: u64)
    ensures
        r == pairs_among(value as nat),
{
    let v = value as u64;
    let w = v.saturating_sub(1);
    match v.checked_mul(w) {
        Some(p) => p / 2,
        None => u64::MAX / 2,
    }
}

/// The fewest same-group pairs `faces` items can have in `buckets` groups:
/// as even a split as possible.
pub open spec fn balanced_minimum(faces: nat, buckets: nat) -> int {
    if buckets == 0 {
        0
    } else {
        let q = faces / buckets;
        let r = faces % buckets;
        r * pairs_among(q + 1) + (buckets - r) * pairs_among(q)
    }
}

/// The fewest same-group pairs of `faces` items in `buckets` groups.
pub fn balanced_pair_minimum(faces: usize, buckets: usize) -> (r: u64)
    requires
        buckets > 0 ==> faces / buckets < usize::MAX,
        balanced_minimum(faces as nat, buckets as nat) <= u64::MAX,
    ensures
        r == balanced_minimum(faces as nat, buckets as nat),
{
    if buckets == 0 {
        return 0;
    }
    let quotient = faces / buckets;
    let remainder = faces % buckets;
    let a = choose_two(quotient + 1);
    let b = choose_two(quotient);
    assert(remainder * a >= 0 && (buckets - remainder) * b >= 0) by (nonlinear_arith)
        requires
            remainder >= 0,
            buckets >= remainder,
            a >= 0,
            b >= 0,
    {
    }
    (remainder as u64) * a + ((buckets - remainder) as u64) * b
}


/// The balanced minimum, or `None` when it does not fit a `u64` (or its
/// group size cannot be counted).
pub fn balanced_pair_minimum_checked(faces: usize, buckets: usize) -> (r: Option<u64>)
    ensures
        match r {
            Some(v) => (buckets > 0 ==> faces / buckets < usize::MAX) && balanced_minimum(
                faces as nat,
                buckets as nat,
            ) <= u64::MAX && v == balanced_minimum(faces as nat, buckets as nat),
            None => !((buckets > 0 ==> faces / buckets < usize::MAX) && balanced_minimum(
                faces as nat,
                buckets as nat,
            ) <= u64::MAX),
        },
{
    if buckets == 0 {
        return Some(0);
    }
    let quotient = faces / buckets;
    let remainder = faces % buckets;
    if quotient == usize::MAX {
        return None;
    }
    let a = choose_two(quotient + 1);
    let b = choose_two(quotient);
    let x = (remainder as u64).checked_mul(a);
    let y = ((buckets - remainder) as u64).checked_mul(b);
    match (x, y) {
        (Some(x), Some(y)) => x.checked_add(y),
        _ => {
            assert(remainder * a >= 0 && (buckets - remainder) * b >= 0) by (nonlinear_arith)
                requires
                    remainder >= 0,
                    buckets >= remainder,
                    a >= 0,
                    b >= 0,
            {
            }
            None
        },
    }
}

/// The counts of a clustering evaluation, without its rates.
#[derive(Clone, Debug, PartialEq, Eq, Structural)]
pub struct ClusteringCounts {
    pub labeled_faces: usize,
    pub labeled_identities: usize,
    pub predicted_clusters: usize,
    pub true_positive_pairs: u64,
    pub false_positive_pairs: u64,
    pub false_negative_pairs: u64,
    pub mixed_clusters: usize,
    pub fragmented_identities: usize,
    pub unassigned_labeled_faces: usize,
}

/// Counts no clustering of labeled faces can produce.
pub open spec fn impossible_counts(c: ClusteringCounts) -> bool {
    ||| c.labeled_faces == 0
    ||| c.labeled_identities == 0
    ||| c.labeled_identities > c.labeled_faces
    ||| c.unassigned_labeled_faces > c.labeled_faces
    ||| c.predicted_clusters > c.labeled_faces - c.unassigned_labeled_faces
    ||| (c.predicted_clusters == 0 && c.unassigned_labeled_faces != c.labeled_faces)
    ||| c.mixed_clusters > c.predicted_clusters
    ||| c.fragmented_identities > c.labeled_identities
}

/// The labeled faces that were put in some cluster.
pub open spec fn assigned_faces(c: ClusteringCounts) -> nat {
    (c.labeled_faces - c.unassigned_labeled_faces) as nat
}

/// Whether both pair minimums of plausible counts can be computed.
pub open spec fn minimums_fit(c: ClusteringCounts) -> bool {
    let fits = |f: nat, b: nat| (b > 0 ==> f / b < usize::MAX) && balanced_minimum(f, b) <= u64::MAX;
    fits(c.labeled_faces as nat, c.labeled_identities as nat) && fits(
        assigned_faces(c),
        c.predicted_clusters as nat,
    )
}

/// The first problem with a clustering evaluation's counts, if any: counts
/// no clustering can produce, pair totals that overflow, or pair totals
/// outside what the faces and groups allow.
pub open spec fn clustering_problem(key: Seq<char>, c: ClusteringCounts) -> Option<Seq<char>> {
    let actual = c.true_positive_pairs + c.false_negative_pairs;
    let predicted = c.true_positive_pairs + c.false_positive_pairs;
    if impossible_counts(c) {
        Some(key + " has impossible clustering counts"@)
    } else if actual > u64::MAX || predicted > u64::MAX {
        Some(key + " pair counts overflow"@)
    } else if actual < balanced_minimum(c.labeled_faces as nat, c.labeled_identities as nat)
        || actual > pairs_among(c.labeled_faces as nat) || predicted < balanced_minimum(
        assigned_faces(c),
        c.predicted_clusters as nat,
    ) || predicted > pairs_among(assigned_faces(c)) {
        Some(key + " has impossible pair counts"@)
    } else {
        None
    }
}

/// Whether the pair minimums of `c` can be computed where checking needs
/// them.
pub fn counts_checkable(c: &ClusteringCounts) -> (r: bool)
    ensures
        r == (!impossible_counts(*c) ==> minimums_fit(*c)),
{
    if c.labeled_faces == 0 || c.labeled_identities == 0 || c.labeled_identities > c.labeled_faces
        || c.unassigned_labeled_faces > c.labeled_faces || c.predicted_clusters > c.labeled_faces
        - c.unassigned_labeled_faces || (c.predicted_clusters == 0 && c.unassigned_labeled_faces
        != c.labeled_faces) || c.mixed_clusters > c.predicted_clusters || c.fragmented_identities
        > c.labeled_identities {
        return true;
    }
    let assigned = c.labeled_faces - c.unassigned_labeled_faces;
    balanced_pair_minimum_checked(c.labeled_faces, c.labeled_identities).is_some()
        && balanced_pair_minimum_checked(assigned, c.predicted_clusters).is_some()
}

fn report_error(key: &str, what: &str) -> (r: ProfileError)
    ensures
        r matches ProfileError::InvalidReport(m) && m@ == key@ + what@,
{
    let mut m = owned(key);
    m.append(what);
    ProfileError::InvalidReport(m)
}

/// Check the counts of one dataset's clustering evaluation, and give its
/// actual and predicted pair totals.
pub fn check_clustering_counts(dataset_key: &str, c: &ClusteringCounts) -> (r: Result<
    (u64, u64),
    ProfileError,
>)
    requires
        !impossible_counts(*c) ==> minimums_fit(*c),
    ensures
        match r {
            Ok((actual, predicted)) => clustering_problem(dataset_key@, *c) is None && actual
                == c.true_positive_pairs + c.false_negative_pairs && predicted
                == c.true_positive_pairs + c.false_positive_pairs,
            Err(e) => e matches ProfileError::InvalidReport(m) && clustering_problem(
                dataset_key@,
                *c,
            ) == Some(m@),
        },
{
    if c.labeled_faces == 0 || c.labeled_identities == 0 || c.labeled_identities > c.labeled_faces
        || c.unassigned_labeled_faces > c.labeled_faces || c.predicted_clusters > c.labeled_faces
        - c.unassigned_labeled_faces || (c.predicted_clusters == 0 && c.unassigned_labeled_faces
        != c.labeled_faces) || c.mixed_clusters > c.predicted_clusters || c.fragmented_identities
        > c.labeled_identities {
        return Err(report_error(dataset_key, " has impossible clustering counts"));
    }
    let actual = match c.true_positive_pairs.checked_add(c.false_negative_pairs) {
        Some(v) => v,
        None => {
            return Err(report_error(dataset_key, " pair counts overflow"));
        },
    };
    let predicted = match c.true_positive_pairs.checked_add(c.false_positive_pairs) {
        Some(v) => v,
        None => {
            return Err(report_error(dataset_key, " pair counts overflow"));
        },
    };
    let max_pairs = choose_two(c.labeled_faces);
    let min_actual = balanced_pair_minimum(c.labeled_faces, c.labeled_identities);
    let assigned = c.labeled_faces - c.unassigned_labeled_faces;
    let min_predicted = balanced_pair_minimum(assigned, c.predicted_clusters);
    if actual < min_actual || actual > max_pairs || predicted < min_predicted || predicted
        > choose_two(assigned) {
        return Err(report_error(dataset_key, " has impossible pair counts"));
    }
    Ok((actual, predicted))
}

/// The first problem with a suggestion evaluation's counts, if any.
pub open spec fn suggestion_problem(
    key: Seq<char>,
    labeled_faces: usize,
    correct: usize,
    incorrect: usize,
    not_suggested: usize,
) -> Option<Seq<char>> {
    if correct + incorrect > usize::MAX || correct + incorrect + not_suggested > usize::MAX {
        Some(key + " suggestion counts overflow"@)
    } else if correct + incorrect + not_suggested != labeled_faces {
        Some(key + " suggestion counts do not cover labeled faces"@)
    } else {
        None
    }
}

/// Check the counts of one dataset's suggestion evaluation against its
/// labeled faces, and give the number of faces suggested.
pub fn check_suggestion_counts(
    dataset_key: &str,
    labeled_faces: usize,
    correct: usize,
    incorrect: usize,
    not_suggested: usize,
) -> (r: Result<usize, ProfileError>)
    ensures
        match r {
            Ok(suggested) => suggestion_problem(
                dataset_key@,
                labeled_faces,
                correct,
                incorrect,
                not_suggested,
            ) is None && suggested == correct + incorrect,
            Err(e) => e matches ProfileError::InvalidReport(m) && suggestion_problem(
                dataset_key@,
                labeled_faces,
                correct,
                incorrect,
                not_suggested,
            ) == Some(m@),
        },
{
    let suggested = match correct.checked_add(incorrect) {
        Some(v) => v,
        None => {
            return Err(report_error(dataset_key, " suggestion counts overflow"));
        },
    };
    let total = match suggested.checked_add(not_suggested) {
        Some(v) => v,
        None => {
            return Err(report_error(dataset_key, " suggestion counts overflow"));
        },
    };
    if total != labeled_faces {
        return Err(report_error(dataset_key, " suggestion counts do not cover labeled faces"));
    }
    Ok(suggested)
}

/// The first problem with a profile row's identity, if any: another artifact
/// version, a blank embedding model id or model kind, or a feature schema
/// other than the one its validation report was made for.
pub open spec fn profile_metadata_problem(
    artifact_version: u32,
    embedding_model_id: Seq<char>,
    feature_schema_version: u32,
    model_kind: Seq<char>,
    report_schema: u32,
) -> Option<Seq<char>> {
    if artifact_version != PROFILE_ARTIFACT_VERSION {
        Some("unsupported artifact version "@ + decimal(artifact_version as nat))
    } else if trimmed(embedding_model_id).len() == 0 {
        Some("embedding model id is empty"@)
    } else if trimmed(model_kind).len() == 0 {
        Some("model kind is empty"@)
    } else if feature_schema_version != report_schema {
        Some("profile feature schema "@ + decimal(feature_schema_version as nat)
            + " does not match report feature schema "@ + decimal(report_schema as nat))
    } else {
        None
    }
}

/// Check a profile row's identity against the feature schema of its
/// validation report (`report_schema`).
pub fn check_profile_metadata(
    artifact_version: u32,
    embedding_model_id: &str,
    feature_schema_version: u32,
    model_kind: &str,
    report_schema: u32,
) -> (r: Result<(), ProfileError>)
    ensures
        match r {
            Ok(_) => profile_metadata_problem(
                artifact_version,
                embedding_model_id@,
                feature_schema_version,
                model_kind@,
                report_schema,
            ) is None,
            Err(e) => e matches ProfileError::InvalidProfile(m) && profile_metadata_problem(
                artifact_version,
                embedding_model_id@,
                feature_schema_version,
                model_kind@,
                report_schema,
            ) == Some(m@),
        },
{
    if artifact_version != PROFILE_ARTIFACT_VERSION {
        return Err(
            ProfileError::InvalidProfile(
                with_unsigned("unsupported artifact version ", artifact_version as u64),
            ),
        );
    }
    if trim_chars(chars_of(embedding_model_id).as_slice()).len() == 0 {
        return Err(ProfileError::InvalidProfile(owned("embedding model id is empty")));
    }
    if trim_chars(chars_of(model_kind).as_slice()).len() == 0 {
        return Err(ProfileError::InvalidProfile(owned("model kind is empty")));
    }
    if feature_schema_version != report_schema {
        let mut m = with_unsigned("profile feature schema ", feature_schema_version as u64);
        m.append(" does not match report feature schema ");
        let m = with_unsigned(m.as_str(), report_schema as u64);
        return Err(ProfileError::InvalidProfile(m));
    }
    Ok(())
}

/// Only a profile still in candidacy can be evaluated for promotion.
pub fn check_candidate_status(candidate_id: i64, status: ProfileStatus) -> (r: Result<(), ProfileError>)
    ensures
        match r {
            Ok(_) => status == ProfileStatus::Candidate,
            Err(e) => status != ProfileStatus::Candidate && e == ProfileError::NotCandidate(
                candidate_id,
            ),
        },
{
    match status {
        ProfileStatus::Candidate => Ok(()),
        _ => Err(ProfileError::NotCandidate(candidate_id)),
    }
}

/// Why a candidate cannot replace the active profile, if it cannot: the two
/// were made over different embedding models.
pub open spec fn incompatibility(candidate_model: Seq<char>, active_model: Option<Seq<char>>) -> Option<
    Seq<char>,
> {
    match active_model {
        Some(a) => if a != candidate_model {
            Some("embedding model "@ + candidate_model + " does not match active model "@ + a)
        } else {
            None
        },
        None => None,
    }
}

/// The text an optional string holds.
pub open spec fn text_view(o: Option<&str>) -> Option<Seq<char>> {
    match o {
        Some(a) => Some(a@),
        None => None,
    }
}

/// Check that a candidate was made over the active profile's embedding
/// model (`None` when no profile is active).
pub fn check_active_compatible(candidate_model: &str, active_model: Option<&str>) -> (r: Result<
    (),
    ProfileError,
>)
    ensures
        match r {
            Ok(_) => incompatibility(candidate_model@, text_view(active_model)) is None,
            Err(e) => e matches ProfileError::IncompatibleProfile(m) && incompatibility(
                candidate_model@,
                text_view(active_model),
            ) == Some(m@),
        },
{
    match active_model {
        Some(a) => {
            if str_equal(a, candidate_model) {
                Ok(())
            } else {
                let mut m = owned("embedding model ");
                m.append(candidate_model);
                m.append(" does not match active model ");
                m.append(a);
                Err(ProfileError::IncompatibleProfile(m))
            }
        },
        None => Ok(()),
    }
}

} // verus!

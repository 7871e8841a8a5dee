//! The labeled truth a candidate is evaluated against, the predictions it
//! is judged on, and the checks that pair them.

use vstd::prelude::*;
use crate::face_learning::profile::ClusteringCounts;

verus! {

/// One confirmed face and the identity it belongs to.
#[derive(Clone, Debug, PartialEq, Eq)]
pub struct LabeledFace {
    pub face_id: i64,
    pub identity: String,
}

impl LabeledFace {
    pub fn new(face_id: i64, identity: &str) -> (r: Self)
        ensures
            r.face_id == face_id,
            r.identity@ == identity@,
    {
        LabeledFace { face_id, identity: crate::text::owned(identity) }
    }
}

/// The labels as (face id, identity) pairs.
pub open spec fn label_views(labels: Seq<LabeledFace>) -> Seq<(i64, Seq<char>)> {
    Seq::new(labels.len(), |i: int| (labels[i].face_id, labels[i].identity@))
}


/// The version of the evaluation protocol.
pub const EVALUATION_PROTOCOL_VERSION: u32 = 1;

/// The cluster a candidate put one face in, if any.
#[derive(Clone, Copy, Debug, PartialEq, Eq, Structural)]
pub struct ClusterPrediction {
    pub face_id: i64,
    pub cluster_id: Option<i64>,
}

impl ClusterPrediction {
    pub fn new(face_id: i64, cluster_id: Option<i64>) -> (r: Self)
        ensures
            r.face_id == face_id,
            r.cluster_id == cluster_id,
    {
        ClusterPrediction { face_id, cluster_id }
    }
}

/// What checking a suggestion's confidence found: whether it is finite and
/// whether it lies in `0..=1`.
#[derive(Clone, Copy, Debug, PartialEq, Eq, Structural)]
pub struct SuggestionCheck {
    pub face_id: i64,
    pub finite: bool,
    pub in_range: bool,
}

/// Why predictions could not be evaluated against the labeled truth.
#[derive(Clone, Copy, Debug, PartialEq, Eq, Structural)]
pub enum EvaluationError {
    NoLabeledFaces,
    DuplicateTruthFaceId(i64),
    DuplicateClusterPrediction(i64),
    DuplicateSuggestionPrediction(i64),
    MissingClusterPrediction(i64),
    UnknownPredictionFaceId(i64),
    NonFiniteSuggestionConfidence(i64),
    SuggestionConfidenceOutOfRange(i64),
}

/// The message of an evaluation error.
pub open spec fn evaluation_error_text(e: EvaluationError) -> Seq<char> {
    match e {
        EvaluationError::NoLabeledFaces => "no confirmed labeled faces are available"@,
        EvaluationError::DuplicateTruthFaceId(id) => "duplicate truth face id "@
            + crate::text::signed_decimal(id as int),
        EvaluationError::DuplicateClusterPrediction(id) => "duplicate cluster prediction for face "@
            + crate::text::signed_decimal(id as int),
        EvaluationError::DuplicateSuggestionPrediction(id) =>
            "duplicate suggestion prediction for face "@ + crate::text::signed_decimal(id as int),
        EvaluationError::MissingClusterPrediction(id) => "missing cluster prediction for labeled face "@
            + crate::text::signed_decimal(id as int),
        EvaluationError::UnknownPredictionFaceId(id) => "prediction references unknown face "@
            + crate::text::signed_decimal(id as int),
        EvaluationError::NonFiniteSuggestionConfidence(id) => "suggestion confidence for face "@
            + crate::text::signed_decimal(id as int) + " is not finite"@,
        EvaluationError::SuggestionConfidenceOutOfRange(id) => "suggestion confidence for face "@
            + crate::text::signed_decimal(id as int) + " is outside 0..=1"@,
    }
}

impl EvaluationError {
    /// The message a reader sees.
    pub fn message(&self) -> (r: String)
        ensures
            r@ == evaluation_error_text(*self),
    {
        match self {
            EvaluationError::NoLabeledFaces => crate::text::owned(
                "no confirmed labeled faces are available",
            ),
            EvaluationError::DuplicateTruthFaceId(id) => crate::text::with_number(
                "duplicate truth face id ",
                *id,
            ),
            EvaluationError::DuplicateClusterPrediction(id) => crate::text::with_number(
                "duplicate cluster prediction for face ",
                *id,
            ),
            EvaluationError::DuplicateSuggestionPrediction(id) => crate::text::with_number(
                "duplicate suggestion prediction for face ",
                *id,
            ),
            EvaluationError::MissingClusterPrediction(id) => crate::text::with_number(
                "missing cluster prediction for labeled face ",
                *id,
            ),
            EvaluationError::UnknownPredictionFaceId(id) => crate::text::with_number(
                "prediction references unknown face ",
                *id,
            ),
            EvaluationError::NonFiniteSuggestionConfidence(id) => {
                let mut m = crate::text::with_number("suggestion confidence for face ", *id);
                m.append(" is not finite");
                m
            },
            EvaluationError::SuggestionConfidenceOutOfRange(id) => {
                let mut m = crate::text::with_number("suggestion confidence for face ", *id);
                m.append(" is outside 0..=1");
                m
            },
        }
    }
}

/// The face ids of the labels.
pub open spec fn label_ids(labels: Seq<LabeledFace>) -> Seq<i64> {
    Seq::new(labels.len(), |i: int| labels[i].face_id)
}

/// The first id in `ids` from `k` on that an earlier id repeats.
pub open spec fn first_repeat(ids: Seq<i64>, k: int) -> Option<i64>
    decreases ids.len() - k,
{
    if k < 0 || k >= ids.len() {
        None
    } else if exists|j: int| 0 <= j < k && ids[j] == ids[k] {
        Some(ids[k])
    } else {
        first_repeat(ids, k + 1)
    }
}

/// The problem with cluster prediction `k`: a face not labeled, or one
/// predicted before.
pub open spec fn cluster_problem(truth: Seq<i64>, clusters: Seq<ClusterPrediction>, k: int) -> Option<
    EvaluationError,
> {
    let id = clusters[k].face_id;
    if !truth.contains(id) {
        Some(EvaluationError::UnknownPredictionFaceId(id))
    } else if exists|j: int| 0 <= j < k && (#[trigger] clusters[j]).face_id == id {
        Some(EvaluationError::DuplicateClusterPrediction(id))
    } else {
        None
    }
}

/// The first problem among the cluster predictions from `k` on.
pub open spec fn first_cluster_problem(truth: Seq<i64>, clusters: Seq<ClusterPrediction>, k: int) -> Option<
    EvaluationError,
>
    decreases clusters.len() - k,
{
    if k < 0 || k >= clusters.len() {
        None
    } else {
        match cluster_problem(truth, clusters, k) {
            Some(e) => Some(e),
            None => first_cluster_problem(truth, clusters, k + 1),
        }
    }
}

/// The face ids that some cluster prediction covers.
pub open spec fn predicted_ids(clusters: Seq<ClusterPrediction>) -> Seq<i64> {
    Seq::new(clusters.len(), |i: int| clusters[i].face_id)
}

/// The smallest id of `ids` that `covered` lacks.
pub open spec fn min_uncovered(ids: Seq<i64>, covered: Seq<i64>) -> Option<i64>
    decreases ids.len(),
{
    if ids.len() == 0 {
        None
    } else {
        let rest = min_uncovered(ids.drop_last(), covered);
        let x = ids.last();
        if covered.contains(x) {
            rest
        } else {
            match rest {
                None => Some(x),
                Some(m) => Some(
                    if x < m {
                        x
                    } else {
                        m
                    },
                ),
            }
        }
    }
}

/// The problem with suggestion `k`: a face not labeled, a confidence that is
/// not a finite probability, or a face suggested before.
pub open spec fn suggestion_check_problem(truth: Seq<i64>, s: Seq<SuggestionCheck>, k: int) -> Option<
    EvaluationError,
> {
    let id = s[k].face_id;
    if !truth.contains(id) {
        Some(EvaluationError::UnknownPredictionFaceId(id))
    } else if !s[k].finite {
        Some(EvaluationError::NonFiniteSuggestionConfidence(id))
    } else if !s[k].in_range {
        Some(EvaluationError::SuggestionConfidenceOutOfRange(id))
    } else if exists|j: int| 0 <= j < k && (#[trigger] s[j]).face_id == id {
        Some(EvaluationError::DuplicateSuggestionPrediction(id))
    } else {
        None
    }
}

/// The first problem among the suggestions from `k` on.
pub open spec fn first_suggestion_problem(truth: Seq<i64>, s: Seq<SuggestionCheck>, k: int) -> Option<
    EvaluationError,
>
    decreases s.len() - k,
{
    if k < 0 || k >= s.len() {
        None
    } else {
        match suggestion_check_problem(truth, s, k) {
            Some(e) => Some(e),
            None => first_suggestion_problem(truth, s, k + 1),
        }
    }
}

/// The first reason predictions cannot be evaluated, in the order the
/// checks run: no labels, a repeated label, a bad cluster prediction, a
/// labeled face without one (the smallest such id), then a bad suggestion.
pub open spec fn prediction_problem(
    labels: Seq<LabeledFace>,
    clusters: Seq<ClusterPrediction>,
    suggestions: Seq<SuggestionCheck>,
) -> Option<EvaluationError> {
    let truth = label_ids(labels);
    if labels.len() == 0 {
        Some(EvaluationError::NoLabeledFaces)
    } else if first_repeat(truth, 0) is Some {
        Some(EvaluationError::DuplicateTruthFaceId(first_repeat(truth, 0)->0))
    } else if first_cluster_problem(truth, clusters, 0) is Some {
        first_cluster_problem(truth, clusters, 0)
    } else if min_uncovered(truth, predicted_ids(clusters)) is Some {
        Some(
            EvaluationError::MissingClusterPrediction(
                min_uncovered(truth, predicted_ids(clusters))->0,
            ),
        )
    } else {
        first_suggestion_problem(truth, suggestions, 0)
    }
}

fn id_in(ids: &Vec<i64>, n: usize, id: i64) -> (r: bool)
    requires
        n <= ids@.len(),
    ensures
        r == exists|j: int| 0 <= j < n && ids@[j] == id,
{
    let mut j: usize = 0;
    while j < n
        invariant
            n <= ids@.len(),
            j <= n,
            forall|i: int| 0 <= i < j ==> ids@[i] != id,
        decreases n - j,
    {
        if ids[j] == id {
            return true;
        }
        j = j + 1;
    }
    false
}

/// Check predictions against the labeled truth before any counting.
pub fn check_predictions(
    labels: &[LabeledFace],
    clusters: &[ClusterPrediction],
    suggestions: &[SuggestionCheck],
) -> (r: Result<(), EvaluationError>)
    ensures
        match prediction_problem(labels@, clusters@, suggestions@) {
            Some(e) => r == Err::<(), EvaluationError>(e),
            None => r is Ok,
        },
{
    if labels.len() == 0 {
        return Err(EvaluationError::NoLabeledFaces);
    }
    let mut truth: Vec<i64> = Vec::new();
    let mut k: usize = 0;
    while k < labels.len()
        invariant
            k <= labels@.len(),
            labels@.len() > 0,
            truth@ == label_ids(labels@).take(k as int),
            first_repeat(label_ids(labels@), 0) == first_repeat(label_ids(labels@), k as int),
        decreases labels@.len() - k,
    {
        let id = labels[k].face_id;
        if id_in(&truth, k, id) {
            let ghost j = choose|j: int| 0 <= j < k && truth@[j] == id;
            assert(label_ids(labels@)[j] == label_ids(labels@)[k as int]);
            return Err(EvaluationError::DuplicateTruthFaceId(id));
        }
        assert forall|j: int| 0 <= j < k implies label_ids(labels@)[j] != label_ids(
            labels@,
        )[k as int] by {
            assert(truth@[j] == label_ids(labels@)[j]);
        }
        truth.push(id);
        assert(truth@ =~= label_ids(labels@).take(k + 1));
        k = k + 1;
    }
    assert(truth@ =~= label_ids(labels@));
    let ghost tv = label_ids(labels@);
    let mut seen: Vec<i64> = Vec::new();
    let mut k: usize = 0;
    while k < clusters.len()
        invariant
            k <= clusters@.len(),
            labels@.len() > 0,
            first_repeat(tv, 0) is None,
            tv == label_ids(labels@),
            truth@ == tv,
            seen@ == predicted_ids(clusters@).take(k as int),
            first_cluster_problem(tv, clusters@, 0) == first_cluster_problem(tv, clusters@, k as int),
        decreases clusters@.len() - k,
    {
        let id = clusters[k].face_id;
        if !id_in(&truth, truth.len(), id) {
            assert(!tv.contains(id));
            return Err(EvaluationError::UnknownPredictionFaceId(id));
        }
        assert(tv.contains(id));
        if id_in(&seen, k, id) {
            let ghost j = choose|j: int| 0 <= j < k && seen@[j] == id;
            assert(clusters@[j].face_id == id);
            return Err(EvaluationError::DuplicateClusterPrediction(id));
        }
        assert forall|j: int| 0 <= j < k implies (#[trigger] clusters@[j]).face_id != id by {
            assert(seen@[j] == clusters@[j].face_id);
        }
        seen.push(id);
        assert(seen@ =~= predicted_ids(clusters@).take(k + 1));
        k = k + 1;
    }
    assert(seen@ =~= predicted_ids(clusters@));
    let ghost pv = predicted_ids(clusters@);
    let mut missing: Option<i64> = None;
    let mut k: usize = 0;
    while k < truth.len()
        invariant
            k <= truth@.len(),
            truth@ == tv,
            seen@ == pv,
            missing == min_uncovered(tv.take(k as int), pv),
        decreases truth@.len() - k,
    {
        assert(tv.take(k + 1).drop_last() =~= tv.take(k as int));
        let id = truth[k];
        if !id_in(&seen, seen.len(), id) {
            assert(!pv.contains(id));
            missing = match missing {
                None => Some(id),
                Some(m) => Some(
                    if id < m {
                        id
                    } else {
                        m
                    },
                ),
            };
        } else {
            assert(pv.contains(id));
        }
        k = k + 1;
    }
    assert(tv.take(truth@.len() as int) =~= tv);
    match missing {
        Some(m) => {
            return Err(EvaluationError::MissingClusterPrediction(m));
        },
        None => {},
    }
    let mut seen: Vec<i64> = Vec::new();
    let mut k: usize = 0;
    while k < suggestions.len()
        invariant
            k <= suggestions@.len(),
            labels@.len() > 0,
            tv == label_ids(labels@),
            pv == predicted_ids(clusters@),
            first_repeat(tv, 0) is None,
            first_cluster_problem(tv, clusters@, 0) is None,
            min_uncovered(tv, pv) is None,
            truth@ == tv,
            seen@ == Seq::new(k as nat, |i: int| suggestions@[i].face_id),
            first_suggestion_problem(tv, suggestions@, 0) == first_suggestion_problem(
                tv,
                suggestions@,
                k as int,
            ),
        decreases suggestions@.len() - k,
    {
        let s = suggestions[k];
        if !id_in(&truth, truth.len(), s.face_id) {
            assert(!tv.contains(s.face_id));
            return Err(EvaluationError::UnknownPredictionFaceId(s.face_id));
        }
        assert(tv.contains(s.face_id));
        if !s.finite {
            return Err(EvaluationError::NonFiniteSuggestionConfidence(s.face_id));
        }
        if !s.in_range {
            return Err(EvaluationError::SuggestionConfidenceOutOfRange(s.face_id));
        }
        if id_in(&seen, k, s.face_id) {
            let ghost j = choose|j: int| 0 <= j < k && seen@[j] == s.face_id;
            assert(suggestions@[j].face_id == s.face_id);
            return Err(EvaluationError::DuplicateSuggestionPrediction(s.face_id));
        }
        assert forall|j: int| 0 <= j < k implies (#[trigger] suggestions@[j]).face_id != s.face_id by {
            assert(seen@[j] == suggestions@[j].face_id);
        }
        seen.push(s.face_id);
        assert(seen@ =~= Seq::new((k + 1) as nat, |i: int| suggestions@[i].face_id));
        k = k + 1;
    }
    Ok(())
}


// ---- counting ----

/// The cluster predicted for face `id`: the last prediction naming it.
pub open spec fn outcome_of(clusters: Seq<ClusterPrediction>, id: i64) -> Option<i64>
    decreases clusters.len(),
{
    if clusters.len() == 0 {
        None
    } else if clusters.last().face_id == id {
        clusters.last().cluster_id
    } else {
        outcome_of(clusters.drop_last(), id)
    }
}

/// Each labeled face's identity and predicted cluster, in label order.
pub open spec fn outcomes(labels: Seq<LabeledFace>, clusters: Seq<ClusterPrediction>) -> Seq<
    (Seq<char>, Option<i64>),
> {
    Seq::new(labels.len(), |k: int| (labels[k].identity@, outcome_of(clusters, labels[k].face_id)))
}

/// How two faces can belong together: by identity, by predicted cluster,
/// or both.
pub enum Together {
    Identity,
    Cluster,
    Cell,
}

/// Whether faces `j` and `k` belong together in the way `t` says; a face
/// in no cluster shares one with nobody.
pub open spec fn together(fs: Seq<(Seq<char>, Option<i64>)>, t: Together, j: int, k: int) -> bool {
    let same_identity = fs[j].0 == fs[k].0;
    let same_cluster = fs[k].1 is Some && fs[j].1 == fs[k].1;
    match t {
        Together::Identity => same_identity,
        Together::Cluster => same_cluster,
        Together::Cell => same_identity && same_cluster,
    }
}

/// How many faces before `j` belong with face `k`.
pub open spec fn count_before(fs: Seq<(Seq<char>, Option<i64>)>, t: Together, j: int, k: int) -> nat
    decreases j,
{
    if j <= 0 {
        0
    } else {
        count_before(fs, t, j - 1, k) + if together(fs, t, j - 1, k) {
            1nat
        } else {
            0nat
        }
    }
}

/// How many unordered pairs among the first `k` faces belong together.
pub open spec fn pair_total(fs: Seq<(Seq<char>, Option<i64>)>, t: Together, k: int) -> nat
    decreases k,
{
    if k <= 0 {
        0
    } else {
        pair_total(fs, t, k - 1) + count_before(fs, t, k - 1, k - 1)
    }
}

/// What can be counted of one face.
pub enum FaceFact {
    /// The first face of its identity.
    FirstOfIdentity,
    /// The first face of its predicted cluster.
    FirstOfCluster,
    /// The first face of a cluster that holds another identity too.
    MixedCluster,
    /// The first face of an identity whose faces got different outcomes.
    FragmentedIdentity,
    /// A face put in no cluster.
    Unassigned,
}

/// Whether fact `f` holds of face `k`.
pub open spec fn holds(fs: Seq<(Seq<char>, Option<i64>)>, f: FaceFact, k: int) -> bool {
    let first_identity = count_before(fs, Together::Identity, k, k) == 0;
    let first_cluster = fs[k].1 is Some && count_before(fs, Together::Cluster, k, k) == 0;
    match f {
        FaceFact::FirstOfIdentity => first_identity,
        FaceFact::FirstOfCluster => first_cluster,
        FaceFact::MixedCluster => first_cluster && exists|j: int|
            0 <= j < fs.len() && (#[trigger] fs[j]).1 == fs[k].1 && fs[j].0 != fs[k].0,
        FaceFact::FragmentedIdentity => first_identity && exists|j: int|
            0 <= j < fs.len() && (#[trigger] fs[j]).0 == fs[k].0 && fs[j].1 != fs[k].1,
        FaceFact::Unassigned => fs[k].1 is None,
    }
}

/// How many of the first `k` faces fact `f` holds of.
pub open spec fn count_facts(fs: Seq<(Seq<char>, Option<i64>)>, f: FaceFact, k: int) -> nat
    decreases k,
{
    if k <= 0 {
        0
    } else {
        count_facts(fs, f, k - 1) + if holds(fs, f, k - 1) {
            1nat
        } else {
            0nat
        }
    }
}

/// The clustering counts of faces `fs`: identities and clusters (each
/// counted once), pairs predicted together that belong together, pairs
/// predicted together that do not, pairs that belong together but were not
/// predicted so, clusters holding more than one identity, identities spread
/// over more than one outcome, and faces left out of every cluster.
pub open spec fn clustering_counts_of(fs: Seq<(Seq<char>, Option<i64>)>, c: ClusteringCounts) -> bool {
    let n = fs.len() as int;
    let tp = pair_total(fs, Together::Cell, n);
    &&& c.labeled_faces == n
    &&& c.labeled_identities == count_facts(fs, FaceFact::FirstOfIdentity, n)
    &&& c.predicted_clusters == count_facts(fs, FaceFact::FirstOfCluster, n)
    &&& c.true_positive_pairs == tp
    &&& c.false_positive_pairs == pair_total(fs, Together::Cluster, n) - tp
    &&& c.false_negative_pairs == pair_total(fs, Together::Identity, n) - tp
    &&& c.mixed_clusters == count_facts(fs, FaceFact::MixedCluster, n)
    &&& c.fragmented_identities == count_facts(fs, FaceFact::FragmentedIdentity, n)
    &&& c.unassigned_labeled_faces == count_facts(fs, FaceFact::Unassigned, n)
}

proof fn lemma_count_before_bounds(fs: Seq<(Seq<char>, Option<i64>)>, j: int, k: int)
    ensures
        count_before(fs, Together::Cell, j, k) <= count_before(fs, Together::Cluster, j, k),
        count_before(fs, Together::Cell, j, k) <= count_before(fs, Together::Identity, j, k),
        j >= 0 ==> count_before(fs, Together::Cluster, j, k) <= j,
        j >= 0 ==> count_before(fs, Together::Identity, j, k) <= j,
    decreases j,
{
    if j > 0 {
        lemma_count_before_bounds(fs, j - 1, k);
    }
}

proof fn lemma_pair_total_bounds(fs: Seq<(Seq<char>, Option<i64>)>, k: int)
    requires
        k >= 0,
    ensures
        pair_total(fs, Together::Cell, k) <= pair_total(fs, Together::Cluster, k),
        pair_total(fs, Together::Cell, k) <= pair_total(fs, Together::Identity, k),
        pair_total(fs, Together::Cluster, k) <= k * k,
        pair_total(fs, Together::Identity, k) <= k * k,
    decreases k,
{
    if k > 0 {
        lemma_pair_total_bounds(fs, k - 1);
        lemma_count_before_bounds(fs, k - 1, k - 1);
        assert((k - 1) * (k - 1) + (k - 1) <= k * k) by (nonlinear_arith)
            requires
                k > 0,
        {
        }
    }
}

proof fn lemma_count_facts_bound(fs: Seq<(Seq<char>, Option<i64>)>, f: FaceFact, k: int)
    requires
        k >= 0,
    ensures
        count_facts(fs, f, k) <= k,
    decreases k,
{
    if k > 0 {
        lemma_count_facts_bound(fs, f, k - 1);
    }
}

fn find_outcome(clusters: &[ClusterPrediction], id: i64) -> (r: Option<i64>)
    ensures
        r == outcome_of(clusters@, id),
{
    let mut i: usize = clusters.len();
    assert(clusters@.take(i as int) =~= clusters@);
    while i > 0
        invariant
            i <= clusters@.len(),
            outcome_of(clusters@, id) == outcome_of(clusters@.take(i as int), id),
        decreases i,
    {
        assert(clusters@.take(i as int).drop_last() =~= clusters@.take(i - 1));
        if clusters[i - 1].face_id == id {
            return clusters[i - 1].cluster_id;
        }
        i = i - 1;
    }
    assert(clusters@.take(0) =~= Seq::<ClusterPrediction>::empty());
    None
}

/// The clustering counts of labeled faces against their predicted
/// clusters.
pub fn clustering_counts(labels: &[LabeledFace], clusters: &[ClusterPrediction]) -> (r:
    ClusteringCounts)
    requires
        labels@.len() <= u32::MAX,
    ensures
        clustering_counts_of(outcomes(labels@, clusters@), r),
{
    let ghost fs = outcomes(labels@, clusters@);
    let n = labels.len();
    let mut outs: Vec<Option<i64>> = Vec::new();
    let mut k: usize = 0;
    while k < n
        invariant
            n == labels@.len(),
            k <= n,
            outs@.len() == k,
            forall|i: int| 0 <= i < k ==> outs@[i] == outcome_of(clusters@, labels@[i].face_id),
        decreases n - k,
    {
        outs.push(find_outcome(clusters, labels[k].face_id));
        k = k + 1;
    }
    assert forall|i: int| 0 <= i < n implies (#[trigger] fs[i]).1 == outs@[i] && fs[i].0
        == labels@[i].identity@ by {}
    let mut tp: u64 = 0;
    let mut predicted: u64 = 0;
    let mut actual: u64 = 0;
    let mut identities: usize = 0;
    let mut clusters_seen: usize = 0;
    let mut mixed: usize = 0;
    let mut fragmented: usize = 0;
    let mut unassigned: usize = 0;
    let mut k: usize = 0;
    while k < n
        invariant
            n == labels@.len(),
            n <= u32::MAX,
            fs == outcomes(labels@, clusters@),
            outs@.len() == n,
            forall|i: int| 0 <= i < n ==> (#[trigger] fs[i]).1 == outs@[i] && fs[i].0
                == labels@[i].identity@,
            k <= n,
            tp == pair_total(fs, Together::Cell, k as int),
            predicted == pair_total(fs, Together::Cluster, k as int),
            actual == pair_total(fs, Together::Identity, k as int),
            identities == count_facts(fs, FaceFact::FirstOfIdentity, k as int),
            clusters_seen == count_facts(fs, FaceFact::FirstOfCluster, k as int),
            mixed == count_facts(fs, FaceFact::MixedCluster, k as int),
            fragmented == count_facts(fs, FaceFact::FragmentedIdentity, k as int),
            unassigned == count_facts(fs, FaceFact::Unassigned, k as int),
        decreases n - k,
    {
        let mine = outs[k];
        let id = labels[k].identity.as_str();
        let mut same_id: u64 = 0;
        let mut same_cluster: u64 = 0;
        let mut same_cell: u64 = 0;
        let mut j: usize = 0;
        while j < k
            invariant
                k < n,
                n == labels@.len(),
                outs@.len() == n,
                mine == outs@[k as int],
                id@ == labels@[k as int].identity@,
                forall|i: int| 0 <= i < n ==> (#[trigger] fs[i]).1 == outs@[i] && fs[i].0
                    == labels@[i].identity@,
                j <= k,
                same_id == count_before(fs, Together::Identity, j as int, k as int),
                same_cluster == count_before(fs, Together::Cluster, j as int, k as int),
                same_cell == count_before(fs, Together::Cell, j as int, k as int),
            decreases k - j,
        {
            proof {
                lemma_count_before_bounds(fs, j as int, k as int);
            }
            let a = crate::text::str_equal(labels[j].identity.as_str(), id);
            let b = mine.is_some() && outs[j] == mine;
            if a {
                same_id = same_id + 1;
            }
            if b {
                same_cluster = same_cluster + 1;
            }
            if a && b {
                same_cell = same_cell + 1;
            }
            j = j + 1;
        }
        let mut other_identity = false;
        let mut other_outcome = false;
        let mut j: usize = 0;
        while j < n
            invariant
                k < n,
                n == labels@.len(),
                outs@.len() == n,
                mine == outs@[k as int],
                id@ == labels@[k as int].identity@,
                forall|i: int| 0 <= i < n ==> (#[trigger] fs[i]).1 == outs@[i] && fs[i].0
                    == labels@[i].identity@,
                j <= n,
                other_identity == exists|i: int|
                    0 <= i < j && (#[trigger] fs[i]).1 == fs[k as int].1 && fs[i].0 != fs[k as int].0,
                other_outcome == exists|i: int|
                    0 <= i < j && (#[trigger] fs[i]).0 == fs[k as int].0 && fs[i].1 != fs[k as int].1,
            decreases n - j,
        {
            let a = crate::text::str_equal(labels[j].identity.as_str(), id);
            let b = outs[j] == mine;
            proof {
                assert(fs[j as int].1 == outs@[j as int]);
                assert(fs[j as int].0 == labels@[j as int].identity@);
            }
            if b && !a {
                other_identity = true;
            }
            if a && !b {
                other_outcome = true;
            }
            j = j + 1;
        }
        proof {
            lemma_pair_total_bounds(fs, k as int);
            lemma_pair_total_bounds(fs, k + 1);
            lemma_count_facts_bound(fs, FaceFact::FirstOfIdentity, k as int);
            lemma_count_facts_bound(fs, FaceFact::FirstOfCluster, k as int);
            lemma_count_facts_bound(fs, FaceFact::MixedCluster, k as int);
            lemma_count_facts_bound(fs, FaceFact::FragmentedIdentity, k as int);
            lemma_count_facts_bound(fs, FaceFact::Unassigned, k as int);
            assert((k + 1) * (k + 1) <= 0xffff_ffff * 0xffff_ffff) by (nonlinear_arith)
                requires
                    k + 1 <= 0xffff_ffff,
            {
            }
            assert(tp + same_cell == pair_total(fs, Together::Cell, k + 1));
            assert(predicted + same_cluster == pair_total(fs, Together::Cluster, k + 1));
            assert(actual + same_id == pair_total(fs, Together::Identity, k + 1));
        }
        tp = tp + same_cell;
        predicted = predicted + same_cluster;
        actual = actual + same_id;
        let first_identity = same_id == 0;
        let first_cluster = mine.is_some() && same_cluster == 0;
        if first_identity {
            identities = identities + 1;
        }
        if first_cluster {
            clusters_seen = clusters_seen + 1;
        }
        if first_cluster && other_identity {
            mixed = mixed + 1;
        }
        if first_identity && other_outcome {
            fragmented = fragmented + 1;
        }
        if mine.is_none() {
            unassigned = unassigned + 1;
        }
        k = k + 1;
    }
    proof {
        lemma_pair_total_bounds(fs, n as int);
    }
    ClusteringCounts {
        labeled_faces: n,
        labeled_identities: identities,
        predicted_clusters: clusters_seen,
        true_positive_pairs: tp,
        false_positive_pairs: predicted - tp,
        false_negative_pairs: actual - tp,
        mixed_clusters: mixed,
        fragmented_identities: fragmented,
        unassigned_labeled_faces: unassigned,
    }
}


/// One suggestion a candidate made: the face, the identity it named (none
/// when it declined), and whether its confidence is finite and in `0..=1`.
#[derive(Clone, Debug, PartialEq, Eq)]
pub struct SuggestionOutcome {
    pub face_id: i64,
    pub identity: Option<String>,
    pub finite: bool,
    pub in_range: bool,
}

/// The suggestion counts of one evaluation.
#[derive(Clone, Copy, Debug, PartialEq, Eq, Structural)]
pub struct SuggestionCounts {
    pub correct: usize,
    pub incorrect: usize,
    pub not_suggested: usize,
}

/// What is checked of each suggestion.
pub open spec fn checks_of(ss: Seq<SuggestionOutcome>) -> Seq<SuggestionCheck> {
    Seq::new(
        ss.len(),
        |i: int| SuggestionCheck { face_id: ss[i].face_id, finite: ss[i].finite, in_range: ss[i].in_range },
    )
}

/// The identity face `id` is labeled with: the last label naming it.
pub open spec fn truth_identity(labels: Seq<LabeledFace>, id: i64) -> Option<Seq<char>>
    decreases labels.len(),
{
    if labels.len() == 0 {
        None
    } else if labels.last().face_id == id {
        Some(labels.last().identity@)
    } else {
        truth_identity(labels.drop_last(), id)
    }
}

/// How a suggestion fares: `0` names the labeled identity, `1` names
/// another, `2` names none.
pub open spec fn verdict(labels: Seq<LabeledFace>, s: SuggestionOutcome) -> u8 {
    match s.identity {
        None => 2,
        Some(x) => if truth_identity(labels, s.face_id) == Some(x@) {
            0
        } else {
            1
        },
    }
}

/// How many of the first `k` suggestions fare as `v`.
pub open spec fn count_verdict(
    labels: Seq<LabeledFace>,
    ss: Seq<SuggestionOutcome>,
    v: u8,
    k: int,
) -> nat
    decreases k,
{
    if k <= 0 {
        0
    } else {
        count_verdict(labels, ss, v, k - 1) + if verdict(labels, ss[k - 1]) == v {
            1nat
        } else {
            0nat
        }
    }
}

proof fn lemma_count_verdict_bound(labels: Seq<LabeledFace>, ss: Seq<SuggestionOutcome>, k: int)
    requires
        k >= 0,
    ensures
        count_verdict(labels, ss, 0, k) + count_verdict(labels, ss, 1, k) + count_verdict(
            labels,
            ss,
            2,
            k,
        ) == k,
    decreases k,
{
    if k > 0 {
        lemma_count_verdict_bound(labels, ss, k - 1);
    }
}

proof fn lemma_no_suggestion_problem(truth: Seq<i64>, s: Seq<SuggestionCheck>, k: int)
    requires
        0 <= k,
        first_suggestion_problem(truth, s, k) is None,
    ensures
        forall|i: int| k <= i < s.len() ==> suggestion_check_problem(truth, s, i) is None,
    decreases s.len() - k,
{
    if k < s.len() {
        lemma_no_suggestion_problem(truth, s, k + 1);
    }
}

fn find_identity(labels: &[LabeledFace], id: i64) -> (r: Option<&String>)
    ensures
        match r {
            Some(x) => truth_identity(labels@, id) == Some(x@),
            None => truth_identity(labels@, id) is None,
        },
{
    let mut i: usize = labels.len();
    assert(labels@.take(i as int) =~= labels@);
    while i > 0
        invariant
            i <= labels@.len(),
            truth_identity(labels@, id) == truth_identity(labels@.take(i as int), id),
        decreases i,
    {
        assert(labels@.take(i as int).drop_last() =~= labels@.take(i - 1));
        if labels[i - 1].face_id == id {
            return Some(&labels[i - 1].identity);
        }
        i = i - 1;
    }
    assert(labels@.take(0) =~= Seq::<LabeledFace>::empty());
    None
}

/// Evaluate predictions against the labeled truth: the checks first, then
/// the clustering counts, and the suggestion counts when there are
/// suggestions.
pub fn evaluate_counts(
    labels: &[LabeledFace],
    clusters: &[ClusterPrediction],
    suggestions: &[SuggestionOutcome],
) -> (r: Result<(ClusteringCounts, Option<SuggestionCounts>), EvaluationError>)
    requires
        labels@.len() <= u32::MAX,
    ensures
        match prediction_problem(labels@, clusters@, checks_of(suggestions@)) {
            Some(e) => r == Err::<(ClusteringCounts, Option<SuggestionCounts>), EvaluationError>(e),
            None => r matches Ok((c, s)) && clustering_counts_of(outcomes(labels@, clusters@), c)
                && (s is None <==> suggestions@.len() == 0) && (s matches Some(sc) ==> (sc.correct
                == count_verdict(labels@, suggestions@, 0, suggestions@.len() as int)
                && sc.incorrect == count_verdict(labels@, suggestions@, 1, suggestions@.len() as int)
                && sc.not_suggested == labels@.len() - suggestions@.len() + count_verdict(
                labels@,
                suggestions@,
                2,
                suggestions@.len() as int,
            ))),
        },
{
    let mut checks: Vec<SuggestionCheck> = Vec::new();
    let mut i: usize = 0;
    while i < suggestions.len()
        invariant
            i <= suggestions@.len(),
            checks@ == checks_of(suggestions@).take(i as int),
        decreases suggestions@.len() - i,
    {
        checks.push(
            SuggestionCheck {
                face_id: suggestions[i].face_id,
                finite: suggestions[i].finite,
                in_range: suggestions[i].in_range,
            },
        );
        i = i + 1;
        assert(checks@ =~= checks_of(suggestions@).take(i as int));
    }
    assert(checks@ =~= checks_of(suggestions@));
    match check_predictions(labels, clusters, checks.as_slice()) {
        Err(e) => {
            return Err(e);
        },
        Ok(()) => {},
    }
    let c = clustering_counts(labels, clusters);
    if suggestions.len() == 0 {
        return Ok((c, None));
    }
    let ghost truth = label_ids(labels@);
    let ghost sc = checks_of(suggestions@);
    proof {
        lemma_no_suggestion_problem(truth, sc, 0);
        let sids = Seq::new(suggestions@.len(), |i: int| suggestions@[i].face_id);
        assert forall|a: int, b: int| 0 <= a < b < sids.len() implies sids[a] != sids[b] by {
            assert(suggestion_check_problem(truth, sc, b) is None);
            assert(sc[a].face_id == sids[a] && sc[b].face_id == sids[b]);
        }
        assert forall|a: int| 0 <= a < sids.len() implies truth.contains(#[trigger] sids[a]) by {
            assert(suggestion_check_problem(truth, sc, a) is None);
            assert(sc[a].face_id == sids[a]);
        }
        crate::order::lemma_pigeonhole(truth, sids);
    }
    let mut correct: usize = 0;
    let mut incorrect: usize = 0;
    let mut declined: usize = 0;
    let mut k: usize = 0;
    while k < suggestions.len()
        invariant
            k <= suggestions@.len(),
            correct == count_verdict(labels@, suggestions@, 0, k as int),
            incorrect == count_verdict(labels@, suggestions@, 1, k as int),
            declined == count_verdict(labels@, suggestions@, 2, k as int),
        decreases suggestions@.len() - k,
    {
        proof {
            lemma_count_verdict_bound(labels@, suggestions@, k as int);
        }
        match &suggestions[k].identity {
            None => {
                declined = declined + 1;
            },
            Some(x) => {
                let same = match find_identity(labels, suggestions[k].face_id) {
                    Some(t) => crate::text::str_equal(t.as_str(), x.as_str()),
                    None => false,
                };
                if same {
                    correct = correct + 1;
                } else {
                    incorrect = incorrect + 1;
                }
            },
        }
        k = k + 1;
    }
    proof {
        lemma_count_verdict_bound(labels@, suggestions@, suggestions@.len() as int);
    }
    let not_suggested = labels.len() - suggestions.len() + declined;
    Ok((c, Some(SuggestionCounts { correct, incorrect, not_suggested })))
}

} // verus!

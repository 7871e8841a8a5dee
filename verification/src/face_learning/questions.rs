//! Identity questions: the stored names of their statuses and the answers a
//! person can give.

use vstd::prelude::*;
use crate::text::{owned, str_equal, with_number, signed_decimal};
use crate::order::{sort_vec, leq_fn};

verus! {

/// Most confirmed faces a question shows as its target's support.
pub const MAX_SUPPORT_FACES: usize = 8;

/// Why a question could not be selected, stored or read.
#[derive(Debug)]
pub enum QuestionError {
    InvalidConfig(String),
    InvalidStoredValue(String),
    InvalidProfile(String),
    Db(rusqlite::Error),
    Serialization(String),
}

/// The message of a question error; for a database error, the part before
/// the database's own text.
pub open spec fn question_error_text(e: QuestionError) -> Seq<char> {
    match e {
        QuestionError::InvalidConfig(reason) => "invalid question config: "@ + reason@,
        QuestionError::InvalidStoredValue(reason) => "invalid stored question: "@ + reason@,
        QuestionError::InvalidProfile(reason) => "invalid profile for questions: "@ + reason@,
        QuestionError::Db(_) => "question database error: "@,
        QuestionError::Serialization(reason) => "question serialization error: "@ + reason@,
    }
}

impl QuestionError {
    /// The message a reader sees; a database error's message goes on with
    /// the database's own text.
    pub fn message(&self) -> (r: String)
        ensures
            !(*self is Db) ==> r@ == question_error_text(*self),
            exists|t: Seq<char>| r@ == question_error_text(*self) + t,
    {
        let (prefix, rest) = match self {
            QuestionError::InvalidConfig(reason) => ("invalid question config: ", owned(reason.as_str())),
            QuestionError::InvalidStoredValue(reason) => (
                "invalid stored question: ",
                owned(reason.as_str()),
            ),
            QuestionError::InvalidProfile(reason) => (
                "invalid profile for questions: ",
                owned(reason.as_str()),
            ),
            QuestionError::Db(error) => (
                "question database error: ",
                crate::face_learning::events::sql_error_text(error),
            ),
            QuestionError::Serialization(reason) => (
                "question serialization error: ",
                owned(reason.as_str()),
            ),
        };
        let mut r = owned(prefix);
        r.append(rest.as_str());
        assert(r@ == question_error_text(*self) + r@.skip(question_error_text(*self).len() as int));
        r
    }
}

/// Where an identity question stands.
#[derive(Clone, Copy, Debug, PartialEq, Eq, Structural)]
pub enum QuestionStatus {
    Pending,
    Answered,
    Skipped,
    Superseded,
}

/// The stored name of a question status.
pub open spec fn question_status_text(x: QuestionStatus) -> Seq<char> {
    match x {
        QuestionStatus::Pending => "pending"@,
        QuestionStatus::Answered => "answered"@,
        QuestionStatus::Skipped => "skipped"@,
        QuestionStatus::Superseded => "superseded"@,
    }
}

/// Different question statuses have different stored names.
pub proof fn lemma_question_status_text_injective(a: QuestionStatus, b: QuestionStatus)
    ensures
        question_status_text(a) == question_status_text(b) ==> a == b,
{
    reveal_strlit("pending");
    reveal_strlit("answered");
    reveal_strlit("skipped");
    reveal_strlit("superseded");
    if a != b && question_status_text(a) == question_status_text(b) {
        assert(question_status_text(a).len() == question_status_text(b).len());
        assert(question_status_text(a)[0] == question_status_text(b)[0]);
    }
}

impl QuestionStatus {
    /// The stored name.
    pub fn as_str(self) -> (r: &'static str)
        ensures
            r@ == question_status_text(self),
    {
        match self {
            QuestionStatus::Pending => "pending",
            QuestionStatus::Answered => "answered",
            QuestionStatus::Skipped => "skipped",
            QuestionStatus::Superseded => "superseded",
        }
    }

    /// The question status a stored name stands for.
    pub fn parse(value: &str) -> (r: Result<Self, QuestionError>)
        ensures
            match r {
                Ok(x) => question_status_text(x) == value@,
                Err(e) => (forall|x: QuestionStatus| question_status_text(x) != value@) && (e matches QuestionError::InvalidStoredValue(m)
                    && m@ == "unknown question status "@ + value@),
            },
    {
        if str_equal(value, "pending") {
            Ok(QuestionStatus::Pending)
        } else if str_equal(value, "answered") {
            Ok(QuestionStatus::Answered)
        } else if str_equal(value, "skipped") {
            Ok(QuestionStatus::Skipped)
        } else if str_equal(value, "superseded") {
            Ok(QuestionStatus::Superseded)
        } else {
            let mut m = owned("unknown question status ");
            m.append(value);
            Err(QuestionError::InvalidStoredValue(m))
        }
    }
}

/// The answer a person gives to a question.
#[derive(Clone, Copy, Debug, PartialEq, Eq, Structural)]
pub enum QuestionAnswer {
    Yes,
    No,
    Skip,
}

/// The refusal to decide question `question_id` when it is no longer
/// pending.
pub fn not_pending(question_id: i64) -> (r: QuestionError)
    ensures
        r matches QuestionError::InvalidStoredValue(m) && m@ == "question "@ + signed_decimal(
            question_id as int,
        ) + " is not pending"@,
{
    let mut m = with_number("question ", question_id);
    m.append(" is not pending");
    QuestionError::InvalidStoredValue(m)
}

/// Whether a character is a lowercase hexadecimal digit.
pub open spec fn is_lower_hex(c: char) -> bool {
    ('0' <= c && c <= '9') || ('a' <= c && c <= 'f')
}

/// The BLAKE3 digest of a byte string, as lowercase hexadecimal.
pub uninterp spec fn blake3_hex_of(bytes: Seq<u8>) -> Seq<char>;

/// `blake3::hash(bytes).to_string()`: the 32-byte BLAKE3 digest of the
/// bytes, printed by `Hash`'s `Display` as 64 lowercase hexadecimal digits.
/// Which digits is named, not stated.
#[verifier::external_body]
fn blake3_hex(bytes: &[u8]) -> (r: String)
    ensures
        r@ == blake3_hex_of(bytes@),
        r@.len() == 64,
        forall|i: int| 0 <= i < 64 ==> is_lower_hex(#[trigger] r@[i]),
{
    blake3::hash(bytes).to_string()
}

/// Face ids joined by `", "`, each in decimal.
pub open spec fn joined_ids(ids: Seq<i64>) -> Seq<char>
    decreases ids.len(),
{
    if ids.len() == 0 {
        Seq::empty()
    } else if ids.len() == 1 {
        signed_decimal(ids[0] as int)
    } else {
        joined_ids(ids.drop_last()) + ", "@ + signed_decimal(ids.last() as int)
    }
}

/// A list of face ids as `[a, b, c]`.
pub open spec fn id_list_text(ids: Seq<i64>) -> Seq<char> {
    "["@ + joined_ids(ids) + "]"@
}

/// A sorted sequence of ids with adjacent repeats dropped.
pub open spec fn dedup_ids(s: Seq<i64>) -> Seq<i64>
    decreases s.len(),
{
    if s.len() == 0 {
        s
    } else {
        let rest = dedup_ids(s.drop_last());
        if rest.len() > 0 && rest.last() == s.last() {
            rest
        } else {
            rest.push(s.last())
        }
    }
}

/// The distinct subject face ids in ascending order.
pub open spec fn subject_set(ids: Seq<i64>) -> Seq<i64> {
    dedup_ids(ids.sort_by(leq_fn::<i64>()))
}

/// The text a question's evidence revision digests: a version tag, the
/// profile, the model kind, the distinct subject faces in order, the
/// target, the feature vector's JSON, the threshold's text and the support
/// faces as given, separated by `|`.
pub open spec fn revision_text(
    profile_id: i64,
    model_kind: Seq<char>,
    subject_face_ids: Seq<i64>,
    target_identity: Seq<char>,
    features_json: Seq<char>,
    threshold_text: Seq<char>,
    support_face_ids: Seq<i64>,
) -> Seq<char> {
    "v1|"@ + signed_decimal(profile_id as int) + "|"@ + model_kind + "|"@ + id_list_text(
        subject_set(subject_face_ids),
    ) + "|"@ + target_identity + "|"@ + features_json + "|"@ + threshold_text + "|"@
        + id_list_text(support_face_ids)
}

fn push_id_list(out: &mut String, ids: &[i64])
    ensures
        final(out)@ == old(out)@ + id_list_text(ids@),
{
    out.append("[");
    let ghost start = out@;
    let mut i: usize = 0;
    assert(ids@.take(0) =~= Seq::<i64>::empty());
    while i < ids.len()
        invariant
            i <= ids@.len(),
            out@ == start + joined_ids(ids@.take(i as int)),
        decreases ids@.len() - i,
    {
        assert(ids@.take(i + 1).drop_last() =~= ids@.take(i as int));
        assert(ids@.take(i + 1).last() == ids@[i as int]);
        let piece = if i == 0 {
            with_number("", ids[i])
        } else {
            with_number(", ", ids[i])
        };
        out.append(piece.as_str());
        proof {
            reveal_strlit("");
            if i == 0 {
                assert(ids@.take(1) =~= seq![ids@[0]]);
                assert(joined_ids(ids@.take(0)) =~= Seq::<char>::empty());
            }
        }
        assert(out@ =~= start + joined_ids(ids@.take(i + 1)));
        i = i + 1;
    }
    assert(ids@.take(ids@.len() as int) =~= ids@);
    out.append("]");
    assert(out@ =~= old(out)@ + id_list_text(ids@));
}

fn subject_ids(ids: &[i64]) -> (r: Vec<i64>)
    ensures
        r@ == subject_set(ids@),
{
    let mut v: Vec<i64> = Vec::new();
    let mut i: usize = 0;
    while i < ids.len()
        invariant
            i <= ids@.len(),
            v@ == ids@.take(i as int),
        decreases ids@.len() - i,
    {
        v.push(ids[i]);
        i = i + 1;
        assert(v@ =~= ids@.take(i as int));
    }
    assert(ids@.take(ids@.len() as int) =~= ids@);
    let sorted = sort_vec(v);
    let mut out: Vec<i64> = Vec::new();
    let mut i: usize = 0;
    assert(sorted@.take(0) =~= Seq::<i64>::empty());
    while i < sorted.len()
        invariant
            i <= sorted@.len(),
            out@ == dedup_ids(sorted@.take(i as int)),
        decreases sorted@.len() - i,
    {
        assert(sorted@.take(i + 1).drop_last() =~= sorted@.take(i as int));
        assert(sorted@.take(i + 1).last() == sorted@[i as int]);
        if out.len() == 0 || out[out.len() - 1] != sorted[i] {
            out.push(sorted[i]);
        }
        i = i + 1;
    }
    assert(sorted@.take(sorted@.len() as int) =~= sorted@);
    out
}

/// The stable digest of everything a question's evidence depends on: the
/// BLAKE3 digest of its revision text. A changed profile, model kind,
/// subject set, target, feature vector, threshold or support list changes
/// the text; the order or repeats of the subject faces do not.
pub fn question_evidence_revision(
    profile_id: i64,
    model_kind: &str,
    subject_face_ids: &[i64],
    target_identity: &str,
    features_json: &str,
    threshold_text: &str,
    support_face_ids: &[i64],
) -> (r: String)
    ensures
        r@ == blake3_hex_of(
            vstd::utf8::encode_utf8(
                revision_text(
                    profile_id,
                    model_kind@,
                    subject_face_ids@,
                    target_identity@,
                    features_json@,
                    threshold_text@,
                    support_face_ids@,
                ),
            ),
        ),
{
    let mut text = with_number("v1|", profile_id);
    text.append("|");
    text.append(model_kind);
    text.append("|");
    let subjects = subject_ids(subject_face_ids);
    push_id_list(&mut text, subjects.as_slice());
    text.append("|");
    text.append(target_identity);
    text.append("|");
    text.append(features_json);
    text.append("|");
    text.append(threshold_text);
    text.append("|");
    push_id_list(&mut text, support_face_ids);
    assert(text@ =~= revision_text(
        profile_id,
        model_kind@,
        subject_face_ids@,
        target_identity@,
        features_json@,
        threshold_text@,
        support_face_ids@,
    ));
    blake3_hex(text.as_str().as_bytes())
}

/// Ids each below every later one.
pub open spec fn strictly_increasing_ids(s: Seq<i64>) -> bool {
    forall|i: int, j: int| 0 <= i < j < s.len() ==> s[i] < s[j]
}

proof fn lemma_dedup_ids(s: Seq<i64>)
    requires
        forall|i: int, j: int| 0 <= i < j < s.len() ==> s[i] <= s[j],
    ensures
        strictly_increasing_ids(dedup_ids(s)),
        forall|x: i64| dedup_ids(s).contains(x) <==> s.contains(x),
    decreases s.len(),
{
    if s.len() > 0 {
        let prefix = s.drop_last();
        lemma_dedup_ids(prefix);
        let rest = dedup_ids(prefix);
        let last = s.last();
        assert forall|x: i64| prefix.contains(x) implies x <= last by {
            let k = choose|k: int| 0 <= k < prefix.len() && prefix[k] == x;
            assert(s[k] == x);
        }
        assert forall|x: i64| s.contains(x) <==> (prefix.contains(x) || x == last) by {
            if s.contains(x) {
                let k = choose|k: int| 0 <= k < s.len() && s[k] == x;
                if k < s.len() - 1 {
                    assert(prefix[k] == x);
                }
            }
            if prefix.contains(x) {
                let k = choose|k: int| 0 <= k < prefix.len() && prefix[k] == x;
                assert(s[k] == x);
            }
            if x == last {
                assert(s[s.len() - 1] == x);
            }
        }
        if rest.len() > 0 && rest.last() == last {
        } else {
            if rest.len() > 0 {
                assert(rest.contains(rest.last()));
                assert(rest.last() <= last);
            }
            assert forall|i: int, j: int| 0 <= i < j < rest.push(last).len() implies rest.push(
                last,
            )[i] < rest.push(last)[j] by {
                if j == rest.len() {
                    assert(rest.contains(rest[i]));
                    assert(rest[i] <= last);
                    if i < rest.len() - 1 {
                        assert(rest[i] < rest[rest.len() - 1]);
                    }
                }
            }
            assert forall|x: i64| rest.push(last).contains(x) <==> (rest.contains(x) || x == last) by {
                if rest.push(last).contains(x) {
                    let k = choose|k: int| 0 <= k < rest.push(last).len() && rest.push(last)[k] == x;
                    if k < rest.len() {
                        assert(rest[k] == x);
                    }
                }
                if rest.contains(x) {
                    let k = choose|k: int| 0 <= k < rest.len() && rest[k] == x;
                    assert(rest.push(last)[k] == x);
                }
                if x == last {
                    assert(rest.push(last)[rest.len() as int] == x);
                }
            }
        }
    }
}

proof fn lemma_increasing_ids_unique(a: Seq<i64>, b: Seq<i64>)
    requires
        strictly_increasing_ids(a),
        strictly_increasing_ids(b),
        forall|x: i64| a.contains(x) <==> b.contains(x),
    ensures
        a == b,
    decreases a.len() + b.len(),
{
    if a.len() == 0 {
        if b.len() > 0 {
            assert(b.contains(b[0]));
        }
        assert(a =~= b);
    } else if b.len() == 0 {
        assert(a.contains(a[0]));
    } else {
        let la = a.last();
        let lb = b.last();
        assert(a.contains(la) && b.contains(lb));
        let ka = choose|k: int| 0 <= k < a.len() && a[k] == lb;
        let kb = choose|k: int| 0 <= k < b.len() && b[k] == la;
        assert(lb <= la) by {
            if ka < a.len() - 1 {
                assert(a[ka] < a[a.len() - 1]);
            }
        }
        assert(la <= lb) by {
            if kb < b.len() - 1 {
                assert(b[kb] < b[b.len() - 1]);
            }
        }
        let pa = a.drop_last();
        let pb = b.drop_last();
        assert forall|x: i64| pa.contains(x) <==> pb.contains(x) by {
            if pa.contains(x) {
                let k = choose|k: int| 0 <= k < pa.len() && pa[k] == x;
                assert(a[k] == x && a[k] < la);
                assert(b.contains(x));
                let j = choose|j: int| 0 <= j < b.len() && b[j] == x;
                assert(j != b.len() - 1);
                assert(pb[j] == x);
            }
            if pb.contains(x) {
                let k = choose|k: int| 0 <= k < pb.len() && pb[k] == x;
                assert(b[k] == x && b[k] < lb);
                assert(a.contains(x));
                let j = choose|j: int| 0 <= j < a.len() && a[j] == x;
                assert(j != a.len() - 1);
                assert(pa[j] == x);
            }
        }
        lemma_increasing_ids_unique(pa, pb);
        assert(a =~= pa.push(la));
        assert(b =~= pb.push(lb));
    }
}

/// The distinct subject faces in order hold exactly the faces given.
proof fn lemma_subject_set(s: Seq<i64>)
    ensures
        strictly_increasing_ids(subject_set(s)),
        forall|x: i64| subject_set(s).contains(x) <==> s.contains(x),
{
    broadcast use vstd::seq_lib::group_to_multiset_ensures;
    let leq = leq_fn::<i64>();
    <i64 as crate::order::Ordered>::lemma_total_order();
    assert(vstd::relations::total_ordering(leq));
    s.lemma_sort_by_ensures(leq);
    let sorted = s.sort_by(leq);
    assert forall|i: int, j: int| 0 <= i < j < sorted.len() implies sorted[i] <= sorted[j] by {
        assert(leq(sorted[i], sorted[j]));
    }
    lemma_dedup_ids(sorted);
    assert forall|x: i64| sorted.contains(x) <==> s.contains(x) by {
        assert(sorted.to_multiset().count(x) == s.to_multiset().count(x));
    }
}

/// A question's revision does not depend on the order of its subject faces
/// or on repeats among them: subject lists holding the same faces give the
/// same revision text, and so the same digest.
pub proof fn lemma_revision_ignores_subject_order(
    profile_id: i64,
    model_kind: Seq<char>,
    subjects: Seq<i64>,
    same_subjects: Seq<i64>,
    target_identity: Seq<char>,
    features_json: Seq<char>,
    threshold_text: Seq<char>,
    support_face_ids: Seq<i64>,
)
    requires
        forall|x: i64| subjects.contains(x) <==> same_subjects.contains(x),
    ensures
        revision_text(
            profile_id,
            model_kind,
            subjects,
            target_identity,
            features_json,
            threshold_text,
            support_face_ids,
        ) == revision_text(
            profile_id,
            model_kind,
            same_subjects,
            target_identity,
            features_json,
            threshold_text,
            support_face_ids,
        ),
{
    lemma_subject_set(subjects);
    lemma_subject_set(same_subjects);
    assert forall|x: i64| subject_set(subjects).contains(x) <==> subject_set(same_subjects).contains(x) by {
        assert(subject_set(subjects).contains(x) <==> subjects.contains(x));
        assert(subject_set(same_subjects).contains(x) <==> same_subjects.contains(x));
    }
    lemma_increasing_ids_unique(subject_set(subjects), subject_set(same_subjects));
}

/// Whether the whole-number caps of a question selection are positive:
/// the page limit and both candidate caps.
pub fn selection_counts_ok(limit: usize, max_cluster_candidates: usize, max_person_candidates: usize) -> (r:
    bool)
    ensures
        r == (limit != 0 && max_cluster_candidates != 0 && max_person_candidates != 0),
{
    limit != 0 && max_cluster_candidates != 0 && max_person_candidates != 0
}

} // verus!

//! Identity-balanced pair sampling and identity-held-out folds: which
//! labeled pairs train a scorer, and which identities validate it.

use vstd::prelude::*;
use crate::face_learning::metrics::{LabeledFace, label_views};
use crate::strings::{str_lt, str_less, lemma_str_lt_transitive, lemma_str_lt_irreflexive,
    lemma_str_lt_total, lemma_str_lt_asymmetric};

verus! {

broadcast use vstd::seq_lib::group_seq_properties;

#[derive(Clone, Debug, PartialEq, Eq)]
pub enum SamplingError {
    DuplicateFaceId(i64),
    ZeroPairCap,
    TooFewFolds,
    FewerIdentitiesThanFolds { identities: usize, folds: usize },
}

/// The message of a sampling error.
pub open spec fn sampling_error_text(e: SamplingError) -> Seq<char> {
    match e {
        SamplingError::DuplicateFaceId(id) => "duplicate labeled face id "@ + crate::text::signed_decimal(
            id as int,
        ),
        SamplingError::ZeroPairCap => "pair sampling caps must be greater than zero"@,
        SamplingError::TooFewFolds => "identity-held-out validation needs at least two folds"@,
        SamplingError::FewerIdentitiesThanFolds { identities, folds } =>
            "identity-held-out validation has "@ + crate::text::decimal(identities as nat)
            + " identities for "@ + crate::text::decimal(folds as nat) + " folds"@,
    }
}

impl SamplingError {
    /// The message a reader sees.
    pub fn message(&self) -> (r: String)
        ensures
            r@ == sampling_error_text(*self),
    {
        match self {
            SamplingError::DuplicateFaceId(id) => crate::text::with_number(
                "duplicate labeled face id ",
                *id,
            ),
            SamplingError::ZeroPairCap => crate::text::owned(
                "pair sampling caps must be greater than zero",
            ),
            SamplingError::TooFewFolds => crate::text::owned(
                "identity-held-out validation needs at least two folds",
            ),
            SamplingError::FewerIdentitiesThanFolds { identities, folds } => {
                let mut m = crate::text::with_unsigned(
                    "identity-held-out validation has ",
                    *identities as u64,
                );
                let tail = crate::text::with_unsigned(" identities for ", *folds as u64);
                m.append(tail.as_str());
                m.append(" folds");
                m
            },
        }
    }
}

/// Identity groups: each identity with its face ids.
pub open spec fn group_views(g: Seq<(String, Vec<i64>)>) -> Seq<(Seq<char>, Seq<i64>)> {
    Seq::new(g.len(), |k: int| (g[k].0@, g[k].1@))
}

/// Face ids strictly increase along `s`.
pub open spec fn strictly_increasing(s: Seq<i64>) -> bool {
    forall|i: int, j: int| 0 <= i < j < s.len() ==> s[i] < s[j]
}

/// Identities strictly in string order.
#[verifier::opaque]
pub open spec fn ids_sorted(g: Seq<(Seq<char>, Seq<i64>)>) -> bool {
    forall|i: int, j: int| 0 <= i < j < g.len() ==> str_lt(g[i].0, g[j].0)
}

/// Every group's faces are non-empty and strictly increasing.
#[verifier::opaque]
pub open spec fn faces_ordered(g: Seq<(Seq<char>, Seq<i64>)>) -> bool {
    forall|k: int| 0 <= k < g.len() ==> strictly_increasing(#[trigger] g[k].1) && g[k].1.len() > 0
}

/// Face `i` of group `k` is labeled with the group's identity.
pub open spec fn face_labeled_at(
    lv: Seq<(i64, Seq<char>)>,
    g: Seq<(Seq<char>, Seq<i64>)>,
    k: int,
    i: int,
) -> bool {
    exists|m: int| #![trigger lv[m]] 0 <= m < lv.len() && lv[m] == (g[k].1[i], g[k].0)
}

/// Label `m` is in the group of its identity.
pub open spec fn label_grouped_at(
    lv: Seq<(i64, Seq<char>)>,
    g: Seq<(Seq<char>, Seq<i64>)>,
    m: int,
) -> bool {
    exists|k: int, i: int|
        #![trigger g[k].1[i]]
        0 <= k < g.len() && 0 <= i < g[k].1.len() && g[k].0 == lv[m].1 && g[k].1[i] == lv[m].0
}

/// Every grouped face is labeled with its group's identity.
#[verifier::opaque]
pub open spec fn faces_labeled(lv: Seq<(i64, Seq<char>)>, g: Seq<(Seq<char>, Seq<i64>)>) -> bool {
    forall|k: int, i: int|
        0 <= k < g.len() && 0 <= i < g[k].1.len() ==> #[trigger] face_labeled_at(lv, g, k, i)
}

/// Every label is in the group of its identity.
#[verifier::opaque]
pub open spec fn labels_grouped(lv: Seq<(i64, Seq<char>)>, g: Seq<(Seq<char>, Seq<i64>)>) -> bool {
    forall|m: int| 0 <= m < lv.len() ==> #[trigger] label_grouped_at(lv, g, m)
}

/// `g` groups the labels `lv` by identity: identities strictly in string
/// order, each with the strictly increasing, non-empty list of exactly the
/// face ids labeled with it, and every label in its group.
pub open spec fn groups_valid(lv: Seq<(i64, Seq<char>)>, g: Seq<(Seq<char>, Seq<i64>)>) -> bool {
    &&& ids_sorted(g)
    &&& faces_ordered(g)
    &&& faces_labeled(lv, g)
    &&& labels_grouped(lv, g)
}

/// Some face id is labeled twice.
pub open spec fn has_duplicate(lv: Seq<(i64, Seq<char>)>) -> bool {
    exists|i: int, j: int| 0 <= i < j < lv.len() && lv[i].0 == lv[j].0
}

/// The label at `i` repeats an earlier face id.
pub open spec fn repeats_earlier(lv: Seq<(i64, Seq<char>)>, i: int) -> bool {
    exists|j: int| 0 <= j < i && lv[j].0 == lv[i].0
}

/// `i` is the first label whose face id was seen before.
pub open spec fn first_duplicate(lv: Seq<(i64, Seq<char>)>, i: int) -> bool {
    &&& 0 <= i < lv.len()
    &&& repeats_earlier(lv, i)
    &&& forall|k: int| 0 <= k < i ==> !repeats_earlier(lv, k)
}

/// The error grouping reports: the face id of the first repeated label.
pub open spec fn duplicate_error(lv: Seq<(i64, Seq<char>)>) -> SamplingError {
    SamplingError::DuplicateFaceId(lv[choose|i: int| first_duplicate(lv, i)].0)
}

proof fn lemma_first_duplicate_unique(lv: Seq<(i64, Seq<char>)>, i: int, k: int)
    requires
        first_duplicate(lv, i),
        first_duplicate(lv, k),
    ensures
        i == k,
{
}

/// Where the group of identity `x` is, or would go, in `g`.
fn group_position(g: &Vec<(String, Vec<i64>)>, x: &String) -> (k: usize)
    ensures
        k <= g@.len(),
        forall|j: int| 0 <= j < k ==> str_lt(g@[j].0@, x@),
        k < g@.len() ==> !str_lt(g@[k as int].0@, x@),
{
    let mut k: usize = 0;
    while k < g.len() && str_less(g[k].0.as_str(), x.as_str())
        invariant
            k <= g@.len(),
            forall|j: int| 0 <= j < k ==> str_lt(g@[j].0@, x@),
        decreases g@.len() - k,
    {
        k = k + 1;
    }
    k
}

/// Where face id `f` goes in the increasing list `faces`.
fn face_position(faces: &Vec<i64>, f: i64) -> (p: usize)
    ensures
        p <= faces@.len(),
        forall|j: int| 0 <= j < p ==> faces@[j] < f,
        p < faces@.len() ==> faces@[p as int] >= f,
{
    let mut p: usize = 0;
    while p < faces.len() && faces[p] < f
        invariant
            p <= faces@.len(),
            forall|j: int| 0 <= j < p ==> faces@[j] < f,
        decreases faces@.len() - p,
    {
        p = p + 1;
    }
    p
}

/// Adding face `f` of identity `x` to the existing group at `k`, at position
/// `p`, keeps the grouping valid.
#[verifier::rlimit(60)]
proof fn lemma_insert_face(
    pre: Seq<(i64, Seq<char>)>,
    gv: Seq<(Seq<char>, Seq<i64>)>,
    k: int,
    p: int,
    f: i64,
    x: Seq<char>,
)
    requires
        groups_valid(pre, gv),
        0 <= k < gv.len(),
        gv[k].0 == x,
        0 <= p <= gv[k].1.len(),
        forall|j: int| 0 <= j < p ==> gv[k].1[j] < f,
        p < gv[k].1.len() ==> gv[k].1[p] >= f,
        forall|m: int| 0 <= m < pre.len() ==> pre[m].0 != f,
    ensures
        groups_valid(pre.push((f, x)), gv.update(k, (x, gv[k].1.insert(p, f)))),
{
    let post = pre.push((f, x));
    let old_faces = gv[k].1;
    let ng = gv.update(k, (x, old_faces.insert(p, f)));
    reveal(faces_ordered);
    if p < old_faces.len() && old_faces[p] == f {
        reveal(faces_labeled);
        assert(face_labeled_at(pre, gv, k, p));

        let m = choose|m: int| 0 <= m < pre.len() && pre[m] == (gv[k].1[p], gv[k].0);
        assert(pre[m].0 == f);
    }
    assert(ids_sorted(ng)) by {
        reveal(ids_sorted);
    }
    assert(faces_ordered(ng)) by {
        assert(strictly_increasing(ng[k].1)) by {
            assert forall|a: int, b: int| 0 <= a < b < ng[k].1.len() implies ng[k].1[a]
                < ng[k].1[b] by {
                assert(strictly_increasing(old_faces));
                if b < p {
                } else if b == p {
                } else if a < p {
                    assert(old_faces[a] < f);
                    assert(old_faces[p] > f);
                    if b - 1 > p {
                        assert(old_faces[p] < old_faces[b - 1]);
                    }
                } else if a == p {
                    if b - 1 > p {
                        assert(old_faces[p] < old_faces[b - 1]);
                    }
                } else {
                }
            }
        }
        assert forall|kk: int| 0 <= kk < ng.len() implies strictly_increasing(#[trigger] ng[kk].1)
            && ng[kk].1.len() > 0 by {
            if kk != k {
                assert(ng[kk] == gv[kk]);
            }
        }
    }
    assert(faces_labeled(post, ng)) by {
        reveal(faces_labeled);
        assert forall|kk: int, ii: int|
            0 <= kk < ng.len() && 0 <= ii < ng[kk].1.len() implies #[trigger] face_labeled_at(post, ng, kk, ii) by {
            if kk == k && ii == p {
                assert(post[pre.len() as int] == (ng[kk].1[ii], ng[kk].0));
            } else if kk == k {
                let oi = if ii < p {
                    ii
                } else {
                    ii - 1
                };
                assert(ng[kk].1[ii] == gv[kk].1[oi]);
                assert(face_labeled_at(pre, gv, kk, oi));

                let m = choose|m: int|
                    0 <= m < pre.len() && pre[m] == (gv[kk].1[oi], gv[kk].0);
                assert(post[m] == pre[m]);
            } else {
                assert(ng[kk] == gv[kk]);
                assert(face_labeled_at(pre, gv, kk, ii));

                let m = choose|m: int|
                    0 <= m < pre.len() && pre[m] == (gv[kk].1[ii], gv[kk].0);
                assert(post[m] == pre[m]);
            }
        }
    }
    assert(labels_grouped(post, ng)) by {
        reveal(labels_grouped);
        assert forall|m: int| 0 <= m < post.len() implies #[trigger] label_grouped_at(post, ng, m) by {
            if m == pre.len() {
                assert(ng[k].1[p] == f);
            } else {
                assert(post[m] == pre[m]);
                assert(label_grouped_at(pre, gv, m));
                let (kk, ii) = choose|kk: int, ii: int|
                    0 <= kk < gv.len() && 0 <= ii < gv[kk].1.len() && gv[kk].0 == pre[m].1 && gv[kk].1[ii] == pre[m].0;
                if kk == k {
                    let ni = if ii < p {
                        ii
                    } else {
                        ii + 1
                    };
                    assert(ng[kk].1[ni] == gv[kk].1[ii]);
                } else {
                    assert(ng[kk] == gv[kk]);
                }
            }
        }
    }
}

/// Adding a new group for identity `x` with face `f` at position `k` keeps
/// the grouping valid.
proof fn lemma_group_faces_labeled(
    pre: Seq<(i64, Seq<char>)>,
    post: Seq<(i64, Seq<char>)>,
    gv: Seq<(Seq<char>, Seq<i64>)>,
    ng: Seq<(Seq<char>, Seq<i64>)>,
    k: int,
    f: i64,
    x: Seq<char>,
)
    requires
        faces_labeled(pre, gv),
        0 <= k <= gv.len(),
        post == pre.push((f, x)),
        ng == gv.insert(k, (x, seq![f])),
    ensures
        faces_labeled(post, ng),
{
    reveal(faces_labeled);
    assert forall|kk: int, ii: int|
        0 <= kk < ng.len() && 0 <= ii < ng[kk].1.len() implies #[trigger] face_labeled_at(post, ng, kk, ii) by {
        if kk == k {
            assert(ng[kk].1 == seq![f]);
            let w = pre.len() as int;
            assert(0 <= w < post.len());
            assert(post[w] == (ng[kk].1[ii], ng[kk].0));
        } else {
            let ok = if kk < k {
                kk
            } else {
                kk - 1
            };
            assert(ng[kk] == gv[ok]);
            assert(0 <= ok < gv.len());
            assert(0 <= ii < gv[ok].1.len());
            assert(face_labeled_at(pre, gv, ok, ii));

            let m = choose|m: int| 0 <= m < pre.len() && pre[m] == (gv[ok].1[ii], gv[ok].0);
            assert(post[m] == pre[m]);
        }
    }
}

#[verifier::rlimit(60)]
proof fn lemma_insert_group(
    pre: Seq<(i64, Seq<char>)>,
    gv: Seq<(Seq<char>, Seq<i64>)>,
    k: int,
    f: i64,
    x: Seq<char>,
)
    requires
        groups_valid(pre, gv),
        0 <= k <= gv.len(),
        forall|j: int| 0 <= j < k ==> str_lt(gv[j].0, x),
        k < gv.len() ==> !str_lt(gv[k].0, x) && gv[k].0 != x,
    ensures
        groups_valid(pre.push((f, x)), gv.insert(k, (x, seq![f]))),
{
    let post = pre.push((f, x));
    let ng = gv.insert(k, (x, seq![f]));
    if k < gv.len() {
        lemma_str_lt_total(gv[k].0, x);
        assert(str_lt(x, gv[k].0));
    }
    assert(ids_sorted(ng)) by {
        reveal(ids_sorted);
        assert forall|a: int, b: int| 0 <= a < b < ng.len() implies str_lt(ng[a].0, ng[b].0) by {
            if b < k {
            } else if b == k {
            } else if a < k {
                assert(str_lt(gv[a].0, x));
                assert(str_lt(x, gv[k].0));
                lemma_str_lt_transitive(gv[a].0, x, gv[k].0);
                if b - 1 > k {
                    lemma_str_lt_transitive(gv[a].0, gv[k].0, gv[b - 1].0);
                }
            } else if a == k {
                if b - 1 > k {
                    lemma_str_lt_transitive(x, gv[k].0, gv[b - 1].0);
                }
            } else {
            }
        }
    }
    assert(faces_ordered(ng)) by {
        reveal(faces_ordered);
        assert forall|kk: int| 0 <= kk < ng.len() implies strictly_increasing(#[trigger] ng[kk].1)
            && ng[kk].1.len() > 0 by {
            if kk < k {
                assert(ng[kk] == gv[kk]);
            } else if kk > k {
                assert(ng[kk] == gv[kk - 1]);
            }
        }
    }
    lemma_group_faces_labeled(pre, post, gv, ng, k, f, x);
    assert(labels_grouped(post, ng)) by {
        reveal(labels_grouped);
        assert forall|m: int| 0 <= m < post.len() implies #[trigger] label_grouped_at(post, ng, m) by {
            if m == pre.len() {
                assert(ng[k].1[0] == f);
            } else {
                assert(post[m] == pre[m]);
                assert(label_grouped_at(pre, gv, m));
                let (kk, ii) = choose|kk: int, ii: int|
                    0 <= kk < gv.len() && 0 <= ii < gv[kk].1.len() && gv[kk].0 == pre[m].1 && gv[kk].1[ii] == pre[m].0;
                let nk = if kk < k {
                    kk
                } else {
                    kk + 1
                };
                assert(ng[nk] == gv[kk]);
            }
        }
    }
}

/// Groups labels by identity, rejecting a repeated face id.
fn grouped_faces(labels: &[LabeledFace]) -> (r: Result<Vec<(String, Vec<i64>)>, SamplingError>)
    ensures
        match r {
            Ok(g) => !has_duplicate(label_views(labels@)) && groups_valid(
                label_views(labels@),
                group_views(g@),
            ),
            Err(e) => has_duplicate(label_views(labels@)) && e == duplicate_error(
                label_views(labels@),
            ),
        },
{
    let ghost lv = label_views(labels@);
    let mut groups: Vec<(String, Vec<i64>)> = Vec::new();
    let mut seen: Vec<i64> = Vec::new();
    let mut i: usize = 0;
    assert(groups_valid(lv.take(0), group_views(groups@))) by {
        reveal(ids_sorted);
        reveal(faces_ordered);
        reveal(faces_labeled);
        reveal(labels_grouped);
    }
    while i < labels.len()
        invariant
            lv == label_views(labels@),
            i <= labels@.len(),
            seen@.len() == i,
            forall|j: int| 0 <= j < i ==> seen@[j] == lv[j].0,
            forall|k: int| 0 <= k < i ==> !repeats_earlier(lv, k),
            groups_valid(lv.take(i as int), group_views(groups@)),
        decreases labels@.len() - i,
    {
        let f = labels[i].face_id;
        let mut j: usize = 0;
        while j < seen.len()
            invariant
                lv == label_views(labels@),
                seen@.len() == i,
                i < labels@.len(),
                j <= i,
                f == lv[i as int].0,
                forall|t: int| 0 <= t < i ==> seen@[t] == lv[t].0,
                forall|t: int| 0 <= t < j ==> seen@[t] != f,
                forall|k: int| 0 <= k < i ==> !repeats_earlier(lv, k),
            decreases i - j,
        {
            if seen[j] == f {
                proof {
                    assert(lv[j as int].0 == lv[i as int].0);
                    assert(repeats_earlier(lv, i as int));
                    assert(first_duplicate(lv, i as int));
                    let c = choose|c: int| first_duplicate(lv, c);
                    lemma_first_duplicate_unique(lv, i as int, c);
                    assert(has_duplicate(lv));
                }
                return Err(SamplingError::DuplicateFaceId(f));
            }
            j = j + 1;
        }
        assert forall|t: int| 0 <= t < i implies lv[t].0 != lv[i as int].0 by {
            assert(seen@[t] == lv[t].0);
        }
        assert(!repeats_earlier(lv, i as int));
        let ghost gv = group_views(groups@);
        let ghost pre = lv.take(i as int);
        assert(lv.take(i + 1) =~= pre.push(lv[i as int]));
        assert(forall|m: int| 0 <= m < pre.len() ==> pre[m].0 != f);
        let x = labels[i].identity.clone();
        let k = group_position(&groups, &x);
        if k < groups.len() && crate::text::str_equal(groups[k].0.as_str(), x.as_str()) {
            let (name, mut faces) = groups.remove(k);
            let p = face_position(&faces, f);
            let ghost old_faces = faces@;
            faces.insert(p, f);
            groups.insert(k, (name, faces));
            proof {
                lemma_insert_face(pre, gv, k as int, p as int, f, x@);
                assert(group_views(groups@) =~= gv.update(
                    k as int,
                    (x@, old_faces.insert(p as int, f)),
                ));
            }
        } else {
            let mut faces: Vec<i64> = Vec::new();
            faces.push(f);
            let ghost xv = x@;
            groups.insert(k, (x, faces));
            proof {
                lemma_insert_group(pre, gv, k as int, f, xv);
                assert(group_views(groups@) =~= gv.insert(k as int, (xv, seq![f])));
            }
        }
        seen.push(f);
        i = i + 1;
    }
    assert(lv.take(labels@.len() as int) =~= lv);
    proof {
        if has_duplicate(lv) {
            let (a, b) = choose|a: int, b: int| 0 <= a < b < lv.len() && lv[a].0 == lv[b].0;
            assert(repeats_earlier(lv, b));
        }
    }
    Ok(groups)
}


#[derive(Clone, Copy, Debug, PartialEq, Eq, Structural)]
pub enum PairLabel {
    SameIdentity,
    DifferentIdentities,
}

/// One sampled pair of faces, the smaller face id first.
#[derive(Clone, Copy, Debug, PartialEq, Eq, Structural)]
pub struct PairExample {
    pub left_face_id: i64,
    pub right_face_id: i64,
    pub label: PairLabel,
}

#[derive(Clone, Copy, Debug, PartialEq, Eq, Structural)]
pub struct PairSamplingConfig {
    pub seed: u64,
    pub max_positive_pairs_per_identity: usize,
    pub max_negative_pairs_per_identity_pair: usize,
}

/// The rank of a label in the order of examples: same-identity first.
pub open spec fn label_rank(l: PairLabel) -> int {
    match l {
        PairLabel::SameIdentity => 0,
        PairLabel::DifferentIdentities => 1,
    }
}

/// Examples are ordered by left face id, then right face id, then label.
impl crate::order::Ordered for PairExample {
    open spec fn leq(self, other: Self) -> bool {
        self.left_face_id < other.left_face_id || (self.left_face_id == other.left_face_id && (
        self.right_face_id < other.right_face_id || (self.right_face_id == other.right_face_id
            && label_rank(self.label) <= label_rank(other.label))))
    }

    proof fn lemma_total_order() {
        assert forall|a: PairExample, b: PairExample| a.leq(b) && b.leq(a) implies a == b by {
            if a.label != b.label {
                assert(label_rank(a.label) != label_rank(b.label));
            }
        }
    }

    fn le(&self, other: &Self) -> (r: bool) {
        let a: u8 = match self.label {
            PairLabel::SameIdentity => 0,
            PairLabel::DifferentIdentities => 1,
        };
        let b: u8 = match other.label {
            PairLabel::SameIdentity => 0,
            PairLabel::DifferentIdentities => 1,
        };
        self.left_face_id < other.left_face_id || (self.left_face_id == other.left_face_id && (
        self.right_face_id < other.right_face_id || (self.right_face_id == other.right_face_id
            && a <= b)))
    }
}

pub const FNV_OFFSET_BASIS: u64 = 0xcbf2_9ce4_8422_2325;

pub const FNV_PRIME: u64 = 0x0000_0100_0000_01b3;

/// The 64-bit FNV-1a hash of a byte sequence.
pub open spec fn fnv1a_spec(bytes: Seq<u8>) -> u64
    decreases bytes.len(),
{
    if bytes.len() == 0 {
        FNV_OFFSET_BASIS
    } else {
        (fnv1a_spec(bytes.drop_last()) ^ (bytes.last() as u64)).wrapping_mul(FNV_PRIME)
    }
}

pub(crate) fn fnv1a(bytes: &[u8]) -> (h: u64)
    ensures
        h == fnv1a_spec(bytes@),
{
    let mut hash: u64 = FNV_OFFSET_BASIS;
    let mut i: usize = 0;
    while i < bytes.len()
        invariant
            i <= bytes@.len(),
            hash == fnv1a_spec(bytes@.take(i as int)),
        decreases bytes@.len() - i,
    {
        proof {
            assert(bytes@.take(i + 1).drop_last() =~= bytes@.take(i as int));
        }
        hash = hash ^ (bytes[i] as u64);
        hash = hash.wrapping_mul(FNV_PRIME);
        i = i + 1;
    }
    assert(bytes@.take(bytes@.len() as int) =~= bytes@);
    hash
}

/// The little-endian bytes of a 64-bit value.
pub open spec fn le_bytes(x: u64) -> Seq<u8> {
    seq![
        x as u8,
        (x >> 8u64) as u8,
        (x >> 16u64) as u8,
        (x >> 24u64) as u8,
        (x >> 32u64) as u8,
        (x >> 40u64) as u8,
        (x >> 48u64) as u8,
        (x >> 56u64) as u8,
    ]
}

pub(crate) fn push_le_bytes(out: &mut Vec<u8>, x: u64)
    ensures
        final(out)@ == old(out)@ + le_bytes(x),
{
    out.push(x as u8);
    out.push((x >> 8u64) as u8);
    out.push((x >> 16u64) as u8);
    out.push((x >> 24u64) as u8);
    out.push((x >> 32u64) as u8);
    out.push((x >> 40u64) as u8);
    out.push((x >> 48u64) as u8);
    out.push((x >> 56u64) as u8);
    assert(out@ =~= old(out)@ + le_bytes(x));
}

pub(crate) fn push_bytes(out: &mut Vec<u8>, b: &[u8])
    ensures
        final(out)@ == old(out)@ + b@,
{
    let mut i: usize = 0;
    while i < b.len()
        invariant
            i <= b@.len(),
            out@ == old(out)@ + b@.take(i as int),
        decreases b@.len() - i,
    {
        out.push(b[i]);
        i = i + 1;
        assert(out@ =~= old(out)@ + b@.take(i as int));
    }
    assert(b@.take(b@.len() as int) =~= b@);
}

/// The key an identity is hashed under: its identity form, or the label
/// itself when it has none.
pub open spec fn identity_key(identity: Seq<char>) -> Seq<char> {
    match crate::person::identity_of(identity) {
        Some(n) => n,
        None => identity,
    }
}

fn normalized_identity(identity: &str) -> (r: String)
    ensures
        r@ == identity_key(identity@),
{
    match crate::person::normalize(identity) {
        Some(n) => n,
        None => crate::text::owned(identity),
    }
}

/// The bytes a pair is hashed from: seed, identities and both face ids,
/// with separator bytes between them.
pub open spec fn pair_hash_bytes(
    seed: u64,
    left: Seq<char>,
    right: Option<Seq<char>>,
    left_face: i64,
    right_face: i64,
) -> Seq<u8> {
    le_bytes(seed) + seq![0xffu8] + vstd::utf8::encode_utf8(identity_key(left)) + match right {
        Some(r) => seq![0xfdu8] + vstd::utf8::encode_utf8(identity_key(r)),
        None => Seq::empty(),
    } + seq![0xfeu8] + le_bytes(left_face as u64) + le_bytes(right_face as u64)
}

/// The stable hash that ranks a pair for sampling.
pub open spec fn pair_hash(
    seed: u64,
    left: Seq<char>,
    right: Option<Seq<char>>,
    left_face: i64,
    right_face: i64,
) -> u64 {
    fnv1a_spec(pair_hash_bytes(seed, left, right, left_face, right_face))
}

fn stable_pair_hash(
    seed: u64,
    left_identity: &str,
    right_identity: Option<&str>,
    left_face_id: i64,
    right_face_id: i64,
) -> (h: u64)
    ensures
        h == pair_hash(
            seed,
            left_identity@,
            crate::db::opt_str_view(right_identity),
            left_face_id,
            right_face_id,
        ),
{
    let mut bytes: Vec<u8> = Vec::new();
    push_le_bytes(&mut bytes, seed);
    bytes.push(0xff);
    let left = normalized_identity(left_identity);
    push_bytes(&mut bytes, left.as_str().as_bytes());
    let ghost after_left = bytes@;
    match right_identity {
        Some(r) => {
            bytes.push(0xfd);
            let right = normalized_identity(r);
            push_bytes(&mut bytes, right.as_str().as_bytes());
        },
        None => {},
    }
    bytes.push(0xfe);
    push_le_bytes(&mut bytes, left_face_id as u64);
    push_le_bytes(&mut bytes, right_face_id as u64);
    proof {
        let rb = match crate::db::opt_str_view(right_identity) {
            Some(r) => seq![0xfdu8] + vstd::utf8::encode_utf8(identity_key(r)),
            None => Seq::<u8>::empty(),
        };
        assert(bytes@ =~= pair_hash_bytes(
            seed,
            left_identity@,
            crate::db::opt_str_view(right_identity),
            left_face_id,
            right_face_id,
        ));
    }
    fnv1a(bytes.as_slice())
}

fn stable_identity_hash(seed: u64, identity: &str) -> (h: u64)
    ensures
        h == pair_hash(seed, identity@, None, 0, 0),
{
    stable_pair_hash(seed, identity, None, 0, 0)
}

/// A pair with the smaller face id first.
pub open spec fn ordered_pair(a: i64, b: i64) -> (i64, i64) {
    if a < b {
        (a, b)
    } else {
        (b, a)
    }
}

/// Candidate pairs keyed by their hash, ready to rank.
pub open spec fn ranked_pairs(
    seed: u64,
    left: Seq<char>,
    right: Option<Seq<char>>,
    pairs: Seq<(i64, i64)>,
) -> Seq<(u64, i64, i64)> {
    Seq::new(
        pairs.len(),
        |i: int|
            {
                let (a, b) = ordered_pair(pairs[i].0, pairs[i].1);
                (pair_hash(seed, left, right, a, b), a, b)
            },
    )
}

/// The first `cap` candidates by (hash, left face, right face), as examples.
pub open spec fn bucket(
    label: PairLabel,
    seed: u64,
    left: Seq<char>,
    right: Option<Seq<char>>,
    pairs: Seq<(i64, i64)>,
    cap: usize,
) -> Seq<PairExample> {
    let sorted = ranked_pairs(seed, left, right, pairs).sort_by(
        crate::order::leq_fn::<(u64, i64, i64)>(),
    );
    let kept = if cap < sorted.len() {
        sorted.take(cap as int)
    } else {
        sorted
    };
    Seq::new(
        kept.len(),
        |i: int| PairExample { left_face_id: kept[i].1, right_face_id: kept[i].2, label },
    )
}

fn sampled_bucket(
    label: PairLabel,
    left_identity: &str,
    right_identity: Option<&str>,
    pairs: &Vec<(i64, i64)>,
    cap: usize,
    seed: u64,
) -> (r: Vec<PairExample>)
    ensures
        r@ == bucket(
            label,
            seed,
            left_identity@,
            crate::db::opt_str_view(right_identity),
            pairs@,
            cap,
        ),
{
    let ghost spec_ranked = ranked_pairs(
        seed,
        left_identity@,
        crate::db::opt_str_view(right_identity),
        pairs@,
    );
    let mut ranked: Vec<(u64, i64, i64)> = Vec::new();
    let mut i: usize = 0;
    while i < pairs.len()
        invariant
            i <= pairs@.len(),
            spec_ranked == ranked_pairs(
                seed,
                left_identity@,
                crate::db::opt_str_view(right_identity),
                pairs@,
            ),
            ranked@ == spec_ranked.take(i as int),
        decreases pairs@.len() - i,
    {
        let (x, y) = pairs[i];
        let (a, b) = if x < y {
            (x, y)
        } else {
            (y, x)
        };
        let h = stable_pair_hash(seed, left_identity, right_identity, a, b);
        ranked.push((h, a, b));
        i = i + 1;
        assert(ranked@ =~= spec_ranked.take(i as int));
    }
    assert(spec_ranked.take(pairs@.len() as int) =~= spec_ranked);
    let sorted = crate::order::sort_vec(ranked);
    let n = if cap < sorted.len() {
        cap
    } else {
        sorted.len()
    };
    let mut out: Vec<PairExample> = Vec::new();
    let mut k: usize = 0;
    while k < n
        invariant
            k <= n,
            n <= sorted@.len(),
            out@.len() == k,
            forall|t: int|
                0 <= t < k ==> out@[t] == (PairExample {
                    left_face_id: sorted@[t].1,
                    right_face_id: sorted@[t].2,
                    label,
                }),
        decreases n - k,
    {
        let (_, a, b) = sorted[k];
        out.push(PairExample { left_face_id: a, right_face_id: b, label });
        k = k + 1;
    }
    assert(out@ =~= bucket(
        label,
        seed,
        left_identity@,
        crate::db::opt_str_view(right_identity),
        pairs@,
        cap,
    ));
    out
}

/// The pairs `(fs[i], fs[j])` with `i < j`, row by row.
pub open spec fn row_pairs(fs: Seq<i64>, i: int) -> Seq<(i64, i64)> {
    Seq::new((fs.len() - i - 1) as nat, |j: int| (fs[i], fs[i + 1 + j]))
}

/// The within-group pairs of the first `n` rows.
pub open spec fn within_upto(fs: Seq<i64>, n: int) -> Seq<(i64, i64)>
    decreases n,
{
    if n <= 0 {
        Seq::empty()
    } else {
        within_upto(fs, n - 1) + row_pairs(fs, n - 1)
    }
}

/// Every pair of faces of one group, each once.
pub open spec fn pairs_within(fs: Seq<i64>) -> Seq<(i64, i64)> {
    within_upto(fs, fs.len() as int)
}

/// The cross pairs of the first `n` faces of `a` with all of `b`.
pub open spec fn cross_upto(a: Seq<i64>, b: Seq<i64>, n: int) -> Seq<(i64, i64)>
    decreases n,
{
    if n <= 0 {
        Seq::empty()
    } else {
        cross_upto(a, b, n - 1) + Seq::new(b.len(), |j: int| (a[n - 1], b[j]))
    }
}

/// Every pair of one face of `a` with one face of `b`.
pub open spec fn cross_pairs(a: Seq<i64>, b: Seq<i64>) -> Seq<(i64, i64)> {
    cross_upto(a, b, a.len() as int)
}

fn within_pairs(fs: &Vec<i64>) -> (r: Vec<(i64, i64)>)
    ensures
        r@ == pairs_within(fs@),
{
    let mut out: Vec<(i64, i64)> = Vec::new();
    let mut i: usize = 0;
    while i < fs.len()
        invariant
            i <= fs@.len(),
            out@ == within_upto(fs@, i as int),
        decreases fs@.len() - i,
    {
        let ghost base = out@;
        let mut j: usize = i + 1;
        while j < fs.len()
            invariant
                i < fs@.len(),
                i + 1 <= j <= fs@.len(),
                out@ == base + row_pairs(fs@, i as int).take(j - i - 1),
            decreases fs@.len() - j,
        {
            out.push((fs[i], fs[j]));
            j = j + 1;
            assert(out@ =~= base + row_pairs(fs@, i as int).take(j - i - 1));
        }
        assert(row_pairs(fs@, i as int).take(fs@.len() - i - 1) =~= row_pairs(fs@, i as int));
        i = i + 1;
    }
    out
}

fn cross_pair_list(a: &Vec<i64>, b: &Vec<i64>) -> (r: Vec<(i64, i64)>)
    ensures
        r@ == cross_pairs(a@, b@),
{
    let mut out: Vec<(i64, i64)> = Vec::new();
    let mut i: usize = 0;
    while i < a.len()
        invariant
            i <= a@.len(),
            out@ == cross_upto(a@, b@, i as int),
        decreases a@.len() - i,
    {
        let ghost base = out@;
        let ghost row = Seq::new(b@.len(), |j: int| (a@[i as int], b@[j]));
        let mut j: usize = 0;
        while j < b.len()
            invariant
                i < a@.len(),
                j <= b@.len(),
                row == Seq::new(b@.len(), |j: int| (a@[i as int], b@[j])),
                out@ == base + row.take(j as int),
            decreases b@.len() - j,
        {
            out.push((a[i], b[j]));
            j = j + 1;
            assert(out@ =~= base + row.take(j as int));
        }
        assert(row.take(b@.len() as int) =~= row);
        i = i + 1;
    }
    out
}

/// The same-identity buckets of the first `n` groups.
pub open spec fn positives_upto(
    g: Seq<(Seq<char>, Seq<i64>)>,
    config: PairSamplingConfig,
    n: int,
) -> Seq<PairExample>
    decreases n,
{
    if n <= 0 {
        Seq::empty()
    } else {
        positives_upto(g, config, n - 1) + bucket(
            PairLabel::SameIdentity,
            config.seed,
            g[n - 1].0,
            None,
            pairs_within(g[n - 1].1),
            config.max_positive_pairs_per_identity,
        )
    }
}

/// The bucket of the identity pair (`li`, `ri`).
pub open spec fn negative_bucket(
    g: Seq<(Seq<char>, Seq<i64>)>,
    config: PairSamplingConfig,
    li: int,
    ri: int,
) -> Seq<PairExample> {
    bucket(
        PairLabel::DifferentIdentities,
        config.seed,
        g[li].0,
        Some(g[ri].0),
        cross_pairs(g[li].1, g[ri].1),
        config.max_negative_pairs_per_identity_pair,
    )
}

/// The buckets of identity `li` with the identities after it, up to `ri`.
pub open spec fn negative_row_upto(
    g: Seq<(Seq<char>, Seq<i64>)>,
    config: PairSamplingConfig,
    li: int,
    ri: int,
) -> Seq<PairExample>
    decreases ri - li,
{
    if ri <= li + 1 {
        Seq::empty()
    } else {
        negative_row_upto(g, config, li, ri - 1) + negative_bucket(g, config, li, ri - 1)
    }
}

/// The different-identity buckets whose first identity is among the first `n`.
pub open spec fn negatives_upto(
    g: Seq<(Seq<char>, Seq<i64>)>,
    config: PairSamplingConfig,
    n: int,
) -> Seq<PairExample>
    decreases n,
{
    if n <= 0 {
        Seq::empty()
    } else {
        negatives_upto(g, config, n - 1) + negative_row_upto(g, config, n - 1, g.len() as int)
    }
}

/// Every sampled example of a grouping, in order.
pub open spec fn sampled_examples(
    g: Seq<(Seq<char>, Seq<i64>)>,
    config: PairSamplingConfig,
) -> Seq<PairExample> {
    (positives_upto(g, config, g.len() as int) + negatives_upto(g, config, g.len() as int)).sort_by(
        crate::order::leq_fn::<PairExample>(),
    )
}

fn append_examples(out: &mut Vec<PairExample>, more: Vec<PairExample>)
    ensures
        final(out)@ == old(out)@ + more@,
{
    let mut i: usize = 0;
    while i < more.len()
        invariant
            i <= more@.len(),
            out@ == old(out)@ + more@.take(i as int),
        decreases more@.len() - i,
    {
        out.push(more[i]);
        i = i + 1;
        assert(out@ =~= old(out)@ + more@.take(i as int));
    }
    assert(more@.take(more@.len() as int) =~= more@);
}

/// The examples of a valid grouping.
fn examples_of_groups(groups: &Vec<(String, Vec<i64>)>, config: &PairSamplingConfig) -> (r: Vec<
    PairExample,
>)
    ensures
        r@ == sampled_examples(group_views(groups@), *config),
{
    let ghost g = group_views(groups@);
    let mut examples: Vec<PairExample> = Vec::new();
    let mut i: usize = 0;
    while i < groups.len()
        invariant
            g == group_views(groups@),
            i <= groups@.len(),
            examples@ == positives_upto(g, *config, i as int),
        decreases groups@.len() - i,
    {
        let pairs = within_pairs(&groups[i].1);
        let b = sampled_bucket(
            PairLabel::SameIdentity,
            groups[i].0.as_str(),
            None,
            &pairs,
            config.max_positive_pairs_per_identity,
            config.seed,
        );
        append_examples(&mut examples, b);
        i = i + 1;
    }
    let ghost pos = examples@;
    let mut li: usize = 0;
    while li < groups.len()
        invariant
            g == group_views(groups@),
            li <= groups@.len(),
            examples@ == pos + negatives_upto(g, *config, li as int),
        decreases groups@.len() - li,
    {
        let ghost row_base = examples@;
        let mut ri: usize = li + 1;
        while ri < groups.len()
            invariant
                g == group_views(groups@),
                li < groups@.len(),
                li + 1 <= ri <= groups@.len(),
                examples@ == row_base + negative_row_upto(g, *config, li as int, ri as int),
            decreases groups@.len() - ri,
        {
            let pairs = cross_pair_list(&groups[li].1, &groups[ri].1);
            let b = sampled_bucket(
                PairLabel::DifferentIdentities,
                groups[li].0.as_str(),
                Some(groups[ri].0.as_str()),
                &pairs,
                config.max_negative_pairs_per_identity_pair,
                config.seed,
            );
            append_examples(&mut examples, b);
            ri = ri + 1;
            assert(examples@ =~= row_base + negative_row_upto(g, *config, li as int, ri as int));
        }
        li = li + 1;
        assert(examples@ =~= pos + negatives_upto(g, *config, li as int));
    }
    crate::order::sort_vec(examples)
}

/// Two sequences of identities, both strictly in string order and holding
/// the same identities, are equal.
proof fn lemma_sorted_ids_equal(a: Seq<Seq<char>>, b: Seq<Seq<char>>)
    requires
        forall|i: int, j: int| 0 <= i < j < a.len() ==> str_lt(a[i], a[j]),
        forall|i: int, j: int| 0 <= i < j < b.len() ==> str_lt(b[i], b[j]),
        forall|x: Seq<char>| a.contains(x) <==> b.contains(x),
    ensures
        a == b,
    decreases a.len(),
{
    if a.len() == 0 {
        if b.len() > 0 {
            assert(b.contains(b[0]));
        }
        assert(a =~= b);
    } else {
        assert(a.contains(a[0]));
        if b.len() == 0 {
            assert(false);
        }
        assert(b.contains(b[0]));
        let j = choose|j: int| 0 <= j < b.len() && b[j] == a[0];
        let i = choose|i: int| 0 <= i < a.len() && a[i] == b[0];
        if a[0] != b[0] {
            assert(j > 0 && i > 0);
            assert(str_lt(b[0], a[0]));
            assert(str_lt(a[0], b[0]));
            lemma_str_lt_asymmetric(a[0], b[0]);
        }
        let a1 = a.drop_first();
        let b1 = b.drop_first();
        assert forall|x: Seq<char>| a1.contains(x) <==> b1.contains(x) by {
            if a1.contains(x) {
                let t = choose|t: int| 0 <= t < a1.len() && a1[t] == x;
                assert(str_lt(a[0], x));
                lemma_str_lt_irreflexive(x);
                assert(b.contains(x));
                let u = choose|u: int| 0 <= u < b.len() && b[u] == x;
                assert(u != 0);
                assert(b1[u - 1] == x);
            }
            if b1.contains(x) {
                let t = choose|t: int| 0 <= t < b1.len() && b1[t] == x;
                assert(str_lt(b[0], x));
                lemma_str_lt_irreflexive(x);
                assert(a.contains(x));
                let u = choose|u: int| 0 <= u < a.len() && a[u] == x;
                assert(u != 0);
                assert(a1[u - 1] == x);
            }
        }
        lemma_sorted_ids_equal(a1, b1);
        assert(a =~= seq![a[0]] + a1);
        assert(b =~= seq![b[0]] + b1);
    }
}

/// Two strictly increasing sequences of face ids holding the same ids are
/// equal.
proof fn lemma_sorted_faces_equal(a: Seq<i64>, b: Seq<i64>)
    requires
        strictly_increasing(a),
        strictly_increasing(b),
        forall|x: i64| a.contains(x) <==> b.contains(x),
    ensures
        a == b,
    decreases a.len(),
{
    if a.len() == 0 {
        if b.len() > 0 {
            assert(b.contains(b[0]));
        }
        assert(a =~= b);
    } else {
        assert(a.contains(a[0]));
        if b.len() == 0 {
            assert(false);
        }
        assert(b.contains(b[0]));
        let j = choose|j: int| 0 <= j < b.len() && b[j] == a[0];
        let i = choose|i: int| 0 <= i < a.len() && a[i] == b[0];
        let a1 = a.drop_first();
        let b1 = b.drop_first();
        assert forall|x: i64| a1.contains(x) <==> b1.contains(x) by {
            if a1.contains(x) {
                let t = choose|t: int| 0 <= t < a1.len() && a1[t] == x;
                assert(b.contains(x));
                let u = choose|u: int| 0 <= u < b.len() && b[u] == x;
                assert(b1[u - 1] == x);
            }
            if b1.contains(x) {
                let t = choose|t: int| 0 <= t < b1.len() && b1[t] == x;
                assert(a.contains(x));
                let u = choose|u: int| 0 <= u < a.len() && a[u] == x;
                assert(a1[u - 1] == x);
            }
        }
        lemma_sorted_faces_equal(a1, b1);
        assert(a =~= seq![a[0]] + a1);
        assert(b =~= seq![b[0]] + b1);
    }
}

/// The identity of group `k` of a valid grouping is some label's identity,
/// and the group of a labeled identity is found at one position only.
proof fn lemma_group_identity_position(
    lv: Seq<(i64, Seq<char>)>,
    g: Seq<(Seq<char>, Seq<i64>)>,
    k1: int,
    k2: int,
)
    requires
        groups_valid(lv, g),
        0 <= k1 < g.len(),
        0 <= k2 < g.len(),
        g[k1].0 == g[k2].0,
    ensures
        k1 == k2,
{
    reveal(ids_sorted);
    if k1 < k2 {
        assert(str_lt(g[k1].0, g[k2].0));
        lemma_str_lt_irreflexive(g[k1].0);
    } else if k2 < k1 {
        assert(str_lt(g[k2].0, g[k1].0));
        lemma_str_lt_irreflexive(g[k1].0);
    }
}

/// A grouping of labels is unique: the labels alone decide it.
pub proof fn lemma_groups_unique(
    lv: Seq<(i64, Seq<char>)>,
    g1: Seq<(Seq<char>, Seq<i64>)>,
    g2: Seq<(Seq<char>, Seq<i64>)>,
)
    requires
        groups_valid(lv, g1),
        groups_valid(lv, g2),
    ensures
        g1 == g2,
{
    reveal(ids_sorted);
    reveal(faces_ordered);
    reveal(faces_labeled);
    reveal(labels_grouped);
    let ids1 = Seq::new(g1.len(), |k: int| g1[k].0);
    let ids2 = Seq::new(g2.len(), |k: int| g2[k].0);
    assert forall|x: Seq<char>| ids1.contains(x) implies ids2.contains(x) by {
        let k = choose|k: int| 0 <= k < ids1.len() && ids1[k] == x;
        assert(g1[k].1.len() > 0);
        assert(face_labeled_at(lv, g1, k, 0));
        let m = choose|m: int| 0 <= m < lv.len() && lv[m] == (g1[k].1[0], g1[k].0);
        assert(label_grouped_at(lv, g2, m));
        let (k2, i2) = choose|k2: int, i2: int|
            0 <= k2 < g2.len() && 0 <= i2 < g2[k2].1.len() && g2[k2].0 == lv[m].1 && g2[k2].1[i2]
                == lv[m].0;
        assert(ids2[k2] == x);
    }
    assert forall|x: Seq<char>| ids2.contains(x) implies ids1.contains(x) by {
        let k = choose|k: int| 0 <= k < ids2.len() && ids2[k] == x;
        assert(g2[k].1.len() > 0);
        assert(face_labeled_at(lv, g2, k, 0));
        let m = choose|m: int| 0 <= m < lv.len() && lv[m] == (g2[k].1[0], g2[k].0);
        assert(label_grouped_at(lv, g1, m));
        let (k1, i1) = choose|k1: int, i1: int|
            0 <= k1 < g1.len() && 0 <= i1 < g1[k1].1.len() && g1[k1].0 == lv[m].1 && g1[k1].1[i1]
                == lv[m].0;
        assert(ids1[k1] == x);
    }
    lemma_sorted_ids_equal(ids1, ids2);
    assert(g1.len() == g2.len()) by {
        assert(ids1.len() == ids2.len());
    }
    assert forall|k: int| 0 <= k < g1.len() implies g1[k] == g2[k] by {
        assert(ids1[k] == ids2[k]);
        assert(strictly_increasing(g1[k].1));
        assert(strictly_increasing(g2[k].1));
        assert forall|f: i64| g1[k].1.contains(f) implies g2[k].1.contains(f) by {
            let i = choose|i: int| 0 <= i < g1[k].1.len() && g1[k].1[i] == f;
            assert(face_labeled_at(lv, g1, k, i));
            let m = choose|m: int| 0 <= m < lv.len() && lv[m] == (g1[k].1[i], g1[k].0);
            assert(label_grouped_at(lv, g2, m));
            let (k2, i2) = choose|k2: int, i2: int|
                0 <= k2 < g2.len() && 0 <= i2 < g2[k2].1.len() && g2[k2].0 == lv[m].1
                    && g2[k2].1[i2] == lv[m].0;
            lemma_group_identity_position(lv, g2, k, k2);
            assert(g2[k].1[i2] == f);
        }
        assert forall|f: i64| g2[k].1.contains(f) implies g1[k].1.contains(f) by {
            let i = choose|i: int| 0 <= i < g2[k].1.len() && g2[k].1[i] == f;
            assert(face_labeled_at(lv, g2, k, i));
            let m = choose|m: int| 0 <= m < lv.len() && lv[m] == (g2[k].1[i], g2[k].0);
            assert(label_grouped_at(lv, g1, m));
            let (k1, i1) = choose|k1: int, i1: int|
                0 <= k1 < g1.len() && 0 <= i1 < g1[k1].1.len() && g1[k1].0 == lv[m].1
                    && g1[k1].1[i1] == lv[m].0;
            lemma_group_identity_position(lv, g1, k, k1);
            assert(g1[k].1[i1] == f);
        }
        lemma_sorted_faces_equal(g1[k].1, g2[k].1);
    }
    assert(g1 =~= g2);
}

/// The grouping of a set of labels (unique when it exists; see
/// `lemma_groups_unique`).
pub open spec fn grouping_of(lv: Seq<(i64, Seq<char>)>) -> Seq<(Seq<char>, Seq<i64>)> {
    choose|g: Seq<(Seq<char>, Seq<i64>)>| groups_valid(lv, g)
}

/// The sample drawn from labels without repeated face ids.
pub open spec fn sample_of(lv: Seq<(i64, Seq<char>)>, config: PairSamplingConfig) -> Seq<
    PairExample,
> {
    sampled_examples(grouping_of(lv), config)
}

/// Identity-balanced training pairs: for each identity, at most
/// `max_positive_pairs_per_identity` of its face pairs, and for each pair of
/// identities at most `max_negative_pairs_per_identity_pair` cross pairs,
/// each chosen by a stable seeded hash, the whole sorted by face ids.
pub fn sample_identity_balanced_pairs(labels: &[LabeledFace], config: &PairSamplingConfig) -> (r:
    Result<Vec<PairExample>, SamplingError>)
    ensures
        (config.max_positive_pairs_per_identity == 0 || config.max_negative_pairs_per_identity_pair
            == 0) ==> r == Err::<Vec<PairExample>, SamplingError>(SamplingError::ZeroPairCap),
        (config.max_positive_pairs_per_identity > 0 && config.max_negative_pairs_per_identity_pair
            > 0 && has_duplicate(label_views(labels@))) ==> r == Err::<
            Vec<PairExample>,
            SamplingError,
        >(duplicate_error(label_views(labels@))),
        (config.max_positive_pairs_per_identity > 0 && config.max_negative_pairs_per_identity_pair
            > 0 && !has_duplicate(label_views(labels@))) ==> (r matches Ok(v) && v@ == sample_of(
            label_views(labels@),
            *config,
        )),
{
    if config.max_positive_pairs_per_identity == 0 || config.max_negative_pairs_per_identity_pair
        == 0 {
        return Err(SamplingError::ZeroPairCap);
    }
    let groups = match grouped_faces(labels) {
        Ok(g) => g,
        Err(e) => {
            return Err(e);
        },
    };
    proof {
        let lv = label_views(labels@);
        assert(groups_valid(lv, group_views(groups@)));
        lemma_groups_unique(lv, group_views(groups@), grouping_of(lv));
    }
    Ok(examples_of_groups(&groups, config))
}

/// Grouping reads labels as a set: labels holding the same (face, identity)
/// entries, in any order or multiplicity, have the same groupings.
pub proof fn lemma_grouping_reads_labels_as_a_set(
    lv1: Seq<(i64, Seq<char>)>,
    lv2: Seq<(i64, Seq<char>)>,
    g: Seq<(Seq<char>, Seq<i64>)>,
)
    requires
        forall|x: (i64, Seq<char>)| lv1.contains(x) <==> lv2.contains(x),
        groups_valid(lv1, g),
    ensures
        groups_valid(lv2, g),
{
    reveal(faces_labeled);
    reveal(labels_grouped);
    assert forall|k: int, i: int| 0 <= k < g.len() && 0 <= i < g[k].1.len() implies #[trigger]
        face_labeled_at(lv2, g, k, i) by {
        assert(face_labeled_at(lv1, g, k, i));
        let m = choose|m: int| 0 <= m < lv1.len() && lv1[m] == (g[k].1[i], g[k].0);
        assert(lv1.contains(lv1[m]));
        let m2 = choose|m2: int| 0 <= m2 < lv2.len() && lv2[m2] == lv1[m];
    }
    assert forall|m: int| 0 <= m < lv2.len() implies #[trigger] label_grouped_at(lv2, g, m) by {
        assert(lv2.contains(lv2[m]));
        let m1 = choose|m1: int| 0 <= m1 < lv1.len() && lv1[m1] == lv2[m];
        assert(label_grouped_at(lv1, g, m1));
    }
}

/// The sample does not depend on the order of the labels: any reordering
/// of labels without repeated face ids draws the same examples.
pub proof fn lemma_sample_is_order_independent(
    lv1: Seq<(i64, Seq<char>)>,
    lv2: Seq<(i64, Seq<char>)>,
    config: PairSamplingConfig,
)
    requires
        lv1.to_multiset() == lv2.to_multiset(),
        !has_duplicate(lv1),
    ensures
        sample_of(lv1, config) == sample_of(lv2, config),
{
    broadcast use vstd::seq_lib::group_to_multiset_ensures;

    lemma_grouping_exists(lv1);
    let g1 = grouping_of(lv1);
    assert forall|x: (i64, Seq<char>)| lv1.contains(x) <==> lv2.contains(x) by {
        assert(lv1.contains(x) <==> lv1.to_multiset().count(x) > 0);
        assert(lv2.contains(x) <==> lv2.to_multiset().count(x) > 0);
    }
    lemma_grouping_reads_labels_as_a_set(lv1, lv2, g1);
    lemma_groups_unique(lv2, g1, grouping_of(lv2));
}

/// The first position at or after `j` whose identity does not sort before
/// `x`.
pub open spec fn group_slot(g: Seq<(Seq<char>, Seq<i64>)>, x: Seq<char>, j: int) -> int
    decreases g.len() - j,
{
    if j >= g.len() || !str_lt(g[j].0, x) {
        j
    } else {
        group_slot(g, x, j + 1)
    }
}

proof fn lemma_group_slot(g: Seq<(Seq<char>, Seq<i64>)>, x: Seq<char>, j: int)
    requires
        0 <= j <= g.len(),
    ensures
        j <= group_slot(g, x, j) <= g.len(),
        forall|t: int| j <= t < group_slot(g, x, j) ==> str_lt(g[t].0, x),
        group_slot(g, x, j) < g.len() ==> !str_lt(g[group_slot(g, x, j)].0, x),
    decreases g.len() - j,
{
    if j < g.len() && str_lt(g[j].0, x) {
        lemma_group_slot(g, x, j + 1);
    }
}

/// The first position at or after `j` whose face id is not below `f`.
pub open spec fn face_slot(fs: Seq<i64>, f: i64, j: int) -> int
    decreases fs.len() - j,
{
    if j >= fs.len() || fs[j] >= f {
        j
    } else {
        face_slot(fs, f, j + 1)
    }
}

proof fn lemma_face_slot(fs: Seq<i64>, f: i64, j: int)
    requires
        0 <= j <= fs.len(),
    ensures
        j <= face_slot(fs, f, j) <= fs.len(),
        forall|t: int| j <= t < face_slot(fs, f, j) ==> fs[t] < f,
        face_slot(fs, f, j) < fs.len() ==> fs[face_slot(fs, f, j)] >= f,
    decreases fs.len() - j,
{
    if j < fs.len() && fs[j] < f {
        lemma_face_slot(fs, f, j + 1);
    }
}

/// Labels without a repeated face id always have a grouping.
pub proof fn lemma_grouping_exists(lv: Seq<(i64, Seq<char>)>)
    requires
        !has_duplicate(lv),
    ensures
        groups_valid(lv, grouping_of(lv)),
    decreases lv.len(),
{
    if lv.len() == 0 {
        let g = Seq::<(Seq<char>, Seq<i64>)>::empty();
        assert(groups_valid(lv, g)) by {
            reveal(ids_sorted);
            reveal(faces_ordered);
            reveal(faces_labeled);
            reveal(labels_grouped);
        }
    } else {
        let pre = lv.drop_last();
        assert(!has_duplicate(pre)) by {
            if has_duplicate(pre) {
                let (a, b) = choose|a: int, b: int| 0 <= a < b < pre.len() && pre[a].0 == pre[b].0;
                assert(lv[a].0 == lv[b].0);
            }
        }
        lemma_grouping_exists(pre);
        let gv = grouping_of(pre);
        let (f, x) = lv.last();
        assert(lv =~= pre.push((f, x)));
        assert forall|m: int| 0 <= m < pre.len() implies pre[m].0 != f by {
            assert(lv[m].0 == pre[m].0);
            assert(lv[lv.len() - 1].0 == f);
        }
        lemma_group_slot(gv, x, 0);
        let k = group_slot(gv, x, 0);
        if k < gv.len() && gv[k].0 == x {
            lemma_face_slot(gv[k].1, f, 0);
            let p = face_slot(gv[k].1, f, 0);
            lemma_insert_face(pre, gv, k, p, f, x);
        } else {
            lemma_insert_group(pre, gv, k, f, x);
        }
    }
}

/// One identity-held-out fold: whole identities and all their faces.
#[derive(Clone, Debug, PartialEq, Eq)]
pub struct IdentityFold {
    pub fold_index: usize,
    pub identities: Vec<String>,
    pub face_ids: Vec<i64>,
    pub face_count: usize,
}

/// Where an identity group comes in the fold assignment: larger groups
/// first, then by the stable identity hash, then by identity order.
#[derive(Clone, Copy, Debug, PartialEq, Eq, Structural)]
pub struct FoldKey {
    pub faces: usize,
    pub hash: u64,
    pub index: usize,
}

impl crate::order::Ordered for FoldKey {
    open spec fn leq(self, other: Self) -> bool {
        self.faces > other.faces || (self.faces == other.faces && (self.hash < other.hash || (
        self.hash == other.hash && self.index <= other.index)))
    }

    proof fn lemma_total_order() {
    }

    fn le(&self, other: &Self) -> (r: bool) {
        self.faces > other.faces || (self.faces == other.faces && (self.hash < other.hash || (
        self.hash == other.hash && self.index <= other.index)))
    }
}

/// The assignment keys of a grouping.
pub open spec fn fold_keys(g: Seq<(Seq<char>, Seq<i64>)>, seed: u64) -> Seq<FoldKey> {
    Seq::new(
        g.len(),
        |k: int|
            FoldKey {
                faces: g[k].1.len() as usize,
                hash: pair_hash(seed, g[k].0, None, 0, 0),
                index: k as usize,
            },
    )
}

/// The order identities are assigned in.
pub open spec fn fold_order(g: Seq<(Seq<char>, Seq<i64>)>, seed: u64) -> Seq<FoldKey> {
    fold_keys(g, seed).sort_by(crate::order::leq_fn::<FoldKey>())
}

/// The first fold with the smallest load among the first `n`.
pub open spec fn lightest(loads: Seq<int>, n: int) -> int
    decreases n,
{
    if n <= 1 {
        0
    } else {
        let m = lightest(loads, n - 1);
        if loads[n - 1] < loads[m] {
            n - 1
        } else {
            m
        }
    }
}

/// Each fold's identities (as group positions) and faces after the first
/// `t` identities of the order were assigned greedily.
pub open spec fn fold_state(
    g: Seq<(Seq<char>, Seq<i64>)>,
    order: Seq<FoldKey>,
    folds: nat,
    t: int,
) -> Seq<(Seq<usize>, Seq<i64>)>
    decreases t,
{
    if t <= 0 {
        Seq::new(folds, |f: int| (Seq::<usize>::empty(), Seq::<i64>::empty()))
    } else {
        let st = fold_state(g, order, folds, t - 1);
        let loads = Seq::new(folds, |f: int| st[f].1.len() as int);
        let target = lightest(loads, folds as int);
        let idx = order[t - 1].index;
        st.update(target, (st[target].0.push(idx), st[target].1 + g[idx as int].1))
    }
}

/// A fold as built from its final state.
pub open spec fn fold_built(
    fold: IdentityFold,
    f: int,
    st: (Seq<usize>, Seq<i64>),
    g: Seq<(Seq<char>, Seq<i64>)>,
) -> bool {
    let members = st.0.sort_by(crate::order::leq_fn::<usize>());
    &&& fold.fold_index == f
    &&& fold.face_count == st.1.len()
    &&& fold.face_ids@ == st.1.sort_by(crate::order::leq_fn::<i64>())
    &&& fold.identities@.len() == members.len()
    &&& forall|i: int| 0 <= i < members.len() ==> fold.identities@[i]@ == g[members[i] as int].0
}

/// The folds of a grouping.
pub open spec fn folds_of(
    g: Seq<(Seq<char>, Seq<i64>)>,
    fold_count: usize,
    seed: u64,
    r: Seq<IdentityFold>,
) -> bool {
    let st = fold_state(g, fold_order(g, seed), fold_count as nat, g.len() as int);
    &&& r.len() == fold_count
    &&& forall|f: int| 0 <= f < fold_count ==> fold_built(#[trigger] r[f], f, st[f], g)
}

proof fn lemma_fold_state_shape(
    g: Seq<(Seq<char>, Seq<i64>)>,
    order: Seq<FoldKey>,
    folds: nat,
    t: int,
)
    requires
        folds >= 1,
        t <= order.len(),
        forall|j: int| 0 <= j < order.len() ==> (#[trigger] order[j]).index < g.len(),
    ensures
        fold_state(g, order, folds, t).len() == folds,
        forall|x: int, i: int|
            0 <= x < folds && 0 <= i < fold_state(g, order, folds, t)[x].0.len() ==> #[trigger] fold_state(
                g,
                order,
                folds,
                t,
            )[x].0[i] < g.len(),
    decreases t,
{
    if t > 0 {
        lemma_fold_state_shape(g, order, folds, t - 1);
        let st = fold_state(g, order, folds, t - 1);
        let loads = Seq::new(folds, |f: int| st[f].1.len() as int);
        lemma_lightest_bound(loads, folds as int);
        let nst = fold_state(g, order, folds, t);
        let target = lightest(loads, folds as int);
        assert forall|x: int, i: int| 0 <= x < folds && 0 <= i < nst[x].0.len() implies #[trigger] nst[x].0[i]
            < g.len() by {
            if x == target && i == st[x].0.len() {
                assert(nst[x].0[i] == order[t - 1].index);
            } else if x == target {
                assert(nst[x].0[i] == st[x].0[i]);
            } else {
                assert(nst[x] == st[x]);
            }
        }
    }
}

proof fn lemma_lightest_bound(loads: Seq<int>, n: int)
    requires
        n >= 1,
    ensures
        0 <= lightest(loads, n) < n,
    decreases n,
{
    if n > 1 {
        lemma_lightest_bound(loads, n - 1);
    }
}

/// Splits labels into `fold_count` folds that keep every identity whole:
/// identities are taken largest first (ties by a seeded stable hash, then
/// by name) and each goes to the fold with the fewest faces so far.
pub fn identity_held_out_folds(labels: &[LabeledFace], fold_count: usize, seed: u64) -> (r: Result<
    Vec<IdentityFold>,
    SamplingError,
>)
    ensures
        fold_count < 2 ==> r == Err::<Vec<IdentityFold>, SamplingError>(SamplingError::TooFewFolds),
        fold_count >= 2 && has_duplicate(label_views(labels@)) ==> r == Err::<
            Vec<IdentityFold>,
            SamplingError,
        >(duplicate_error(label_views(labels@))),
        fold_count >= 2 && !has_duplicate(label_views(labels@)) && grouping_of(
            label_views(labels@),
        ).len() < fold_count ==> r == Err::<Vec<IdentityFold>, SamplingError>(
            SamplingError::FewerIdentitiesThanFolds {
                identities: grouping_of(label_views(labels@)).len() as usize,
                folds: fold_count,
            },
        ),
        fold_count >= 2 && !has_duplicate(label_views(labels@)) && grouping_of(
            label_views(labels@),
        ).len() >= fold_count ==> (r matches Ok(v) && folds_of(
            grouping_of(label_views(labels@)),
            fold_count,
            seed,
            v@,
        )),
{
    if fold_count < 2 {
        return Err(SamplingError::TooFewFolds);
    }
    let groups = match grouped_faces(labels) {
        Ok(g) => g,
        Err(e) => {
            return Err(e);
        },
    };
    let ghost g = group_views(groups@);
    proof {
        lemma_groups_unique(label_views(labels@), g, grouping_of(label_views(labels@)));
    }
    if groups.len() < fold_count {
        return Err(
            SamplingError::FewerIdentitiesThanFolds { identities: groups.len(), folds: fold_count },
        );
    }
    let mut keys: Vec<FoldKey> = Vec::new();
    let mut k: usize = 0;
    while k < groups.len()
        invariant
            g == group_views(groups@),
            k <= groups@.len(),
            keys@ == fold_keys(g, seed).take(k as int),
        decreases groups@.len() - k,
    {
        let h = stable_identity_hash(seed, groups[k].0.as_str());
        keys.push(FoldKey { faces: groups[k].1.len(), hash: h, index: k });
        k = k + 1;
        assert(keys@ =~= fold_keys(g, seed).take(k as int));
    }
    assert(fold_keys(g, seed).take(groups@.len() as int) =~= fold_keys(g, seed));
    let order = crate::order::sort_vec(keys);
    let ghost ord = order@;
    assert(ord == fold_order(g, seed));
    proof {
        fold_keys(g, seed).lemma_sort_by_ensures(crate::order::leq_fn::<FoldKey>());
        assert forall|j: int| 0 <= j < ord.len() implies (#[trigger] ord[j]).index < groups@.len() by {
            assert(ord.contains(ord[j]));
            assert(fold_keys(g, seed).contains(ord[j]));
        }
    }
    let mut members: Vec<Vec<usize>> = Vec::new();
    let mut faces: Vec<Vec<i64>> = Vec::new();
    let mut f: usize = 0;
    while f < fold_count
        invariant
            f <= fold_count,
            members@.len() == f,
            faces@.len() == f,
            forall|x: int| 0 <= x < f ==> members@[x]@ == Seq::<usize>::empty(),
            forall|x: int| 0 <= x < f ==> faces@[x]@ == Seq::<i64>::empty(),
        decreases fold_count - f,
    {
        members.push(Vec::new());
        faces.push(Vec::new());
        f = f + 1;
    }
    let mut t: usize = 0;
    while t < order.len()
        invariant
            g == group_views(groups@),
            ord == order@,
            ord == fold_order(g, seed),
            t <= ord.len(),
            fold_count >= 2,
            members@.len() == fold_count,
            faces@.len() == fold_count,
            forall|x: int|
                0 <= x < fold_count ==> (#[trigger] members@[x]@, faces@[x]@) == fold_state(
                    g,
                    ord,
                    fold_count as nat,
                    t as int,
                )[x],
            forall|j: int| 0 <= j < ord.len() ==> (#[trigger] ord[j]).index < groups@.len(),
        decreases ord.len() - t,
    {
        let ghost st = fold_state(g, ord, fold_count as nat, t as int);
        let ghost loads = Seq::new(fold_count as nat, |x: int| st[x].1.len() as int);
        proof {
            lemma_fold_state_shape(g, ord, fold_count as nat, t as int);
            lemma_lightest_bound(loads, fold_count as int);
            assert forall|y: int| 0 <= y < fold_count implies loads[y] == (
            #[trigger] faces@[y])@.len() by {
                assert((members@[y]@, faces@[y]@) == st[y]);
            }
        }
        let mut target: usize = 0;
        let mut x: usize = 1;
        while x < fold_count
            invariant
                1 <= x <= fold_count,
                faces@.len() == fold_count,
                forall|y: int| 0 <= y < fold_count ==> loads[y] == (#[trigger] faces@[y])@.len(),
                target as int == lightest(loads, x as int),
                target < x,
            decreases fold_count - x,
        {
            if faces[x].len() < faces[target].len() {
                target = x;
            }
            x = x + 1;
        }
        let idx = order[t].index;
        let ghost old_faces = faces@;
        let ghost old_members = members@;
        let ghost before = faces@[target as int]@;
        let ghost before_members = members@[target as int]@;
        let mut fv = faces.remove(target);
        let mut mv = members.remove(target);
        mv.push(idx);
        let mut q: usize = 0;
        while q < groups[idx].1.len()
            invariant
                idx < groups@.len(),
                q <= groups@[idx as int].1@.len(),
                fv@ == before + groups@[idx as int].1@.take(q as int),
            decreases groups@[idx as int].1@.len() - q,
        {
            fv.push(groups[idx].1[q]);
            q = q + 1;
            assert(fv@ =~= before + groups@[idx as int].1@.take(q as int));
        }
        assert(groups@[idx as int].1@.take(groups@[idx as int].1@.len() as int) =~= groups@[idx
            as int].1@);
        let ghost new_f = fv@;
        let ghost new_m = mv@;
        faces.insert(target, fv);
        members.insert(target, mv);
        proof {
            assert(faces@ =~= old_faces.update(target as int, faces@[target as int]));
            assert(members@ =~= old_members.update(target as int, members@[target as int]));
            assert(loads =~= Seq::new(fold_count as nat, |y: int| st[y].1.len() as int));
            lemma_fold_state_shape(g, ord, fold_count as nat, t + 1);
            let nst = fold_state(g, ord, (fold_count as nat), t + 1);
            assert((old_members[target as int]@, old_faces[target as int]@) == st[target as int]);
            assert(nst == st.update(target as int, (st[target as int].0.push(idx), st[target as int].1
                + g[idx as int].1)));
            assert forall|y: int| 0 <= y < fold_count implies (#[trigger] members@[y]@,
                faces@[y]@) == nst[y] by {
                if y != target {
                    assert(members@[y] == old_members[y]);
                    assert(faces@[y] == old_faces[y]);
                }
            }
        }
        t = t + 1;
    }
    let ghost st = fold_state(g, ord, fold_count as nat, ord.len() as int);
    assert(ord.len() == g.len()) by {
        fold_keys(g, seed).lemma_sort_by_ensures(crate::order::leq_fn::<FoldKey>());
        vstd::seq_lib::to_multiset_len(ord);
        vstd::seq_lib::to_multiset_len(fold_keys(g, seed));
    }
    proof {
        lemma_fold_state_shape(g, ord, fold_count as nat, ord.len() as int);
        assert forall|x: int, i: int|
            0 <= x < fold_count && 0 <= i < members@[x]@.len() implies #[trigger] members@[x]@[i]
                < groups@.len() by {
            assert((members@[x]@, faces@[x]@) == st[x]);
            assert(st[x].0[i] < g.len());
        }
    }
    let mut out: Vec<IdentityFold> = Vec::new();
    let mut f: usize = 0;
    while f < fold_count
        invariant
            g == group_views(groups@),
            f <= fold_count,
            members@.len() == fold_count,
            faces@.len() == fold_count,
            forall|x: int|
                0 <= x < fold_count ==> (#[trigger] members@[x]@, faces@[x]@) == st[x],
            forall|j: int| 0 <= j < ord.len() ==> (#[trigger] ord[j]).index < groups@.len(),
            forall|x: int, i: int|
                0 <= x < fold_count && 0 <= i < members@[x]@.len() ==> #[trigger] members@[x]@[i]
                    < groups@.len(),
            out@.len() == f,
            forall|x: int| 0 <= x < f ==> fold_built(#[trigger] out@[x], x, st[x], g),
        decreases fold_count - f,
    {
        let sorted_members = crate::order::sort_vec(members[f].clone());
        proof {
            members@[f as int]@.lemma_sort_by_ensures(crate::order::leq_fn::<usize>());
            assert forall|t: int| 0 <= t < sorted_members@.len() implies (
            #[trigger] sorted_members@[t]) < groups@.len() by {
                assert(sorted_members@.contains(sorted_members@[t]));
                assert(members@[f as int]@.contains(sorted_members@[t]));
            }
        }
        let mut identities: Vec<String> = Vec::new();
        let mut i: usize = 0;
        while i < sorted_members.len()
            invariant
                g == group_views(groups@),
                i <= sorted_members@.len(),
                identities@.len() == i,
                forall|t: int| 0 <= t < sorted_members@.len() ==> (#[trigger] sorted_members@[t])
                    < groups@.len(),
                forall|t: int|
                    0 <= t < i ==> (#[trigger] identities@[t])@ == g[sorted_members@[t] as int].0,
            decreases sorted_members@.len() - i,
        {
            identities.push(groups[sorted_members[i]].0.clone());
            i = i + 1;
        }
        let face_ids = crate::order::sort_vec(faces[f].clone());
        let face_count = faces[f].len();
        out.push(IdentityFold { fold_index: f, identities, face_ids, face_count });
        f = f + 1;
    }
    Ok(out)
}

/// A fold as plain values: its number, its identities, its faces and its
/// face count.
pub open spec fn fold_view(f: IdentityFold) -> (usize, Seq<Seq<char>>, Seq<i64>, usize) {
    (f.fold_index, Seq::new(f.identities@.len(), |i: int| f.identities@[i]@), f.face_ids@, f.face_count)
}

/// The folds of two label lists that hold the same labels, in any order,
/// are the same: the fold assignment reads the labels as a set.
pub proof fn lemma_held_out_folds_ignore_label_order(
    lv1: Seq<(i64, Seq<char>)>,
    lv2: Seq<(i64, Seq<char>)>,
    fold_count: usize,
    seed: u64,
    r1: Seq<IdentityFold>,
    r2: Seq<IdentityFold>,
)
    requires
        lv1.to_multiset() == lv2.to_multiset(),
        !has_duplicate(lv1),
        folds_of(grouping_of(lv1), fold_count, seed, r1),
        folds_of(grouping_of(lv2), fold_count, seed, r2),
    ensures
        r1.len() == r2.len(),
        forall|f: int| 0 <= f < r1.len() ==> fold_view(#[trigger] r1[f]) == fold_view(r2[f]),
{
    broadcast use vstd::seq_lib::group_to_multiset_ensures;

    lemma_grouping_exists(lv1);
    let g1 = grouping_of(lv1);
    assert forall|x: (i64, Seq<char>)| lv1.contains(x) <==> lv2.contains(x) by {
        assert(lv1.contains(x) <==> lv1.to_multiset().count(x) > 0);
        assert(lv2.contains(x) <==> lv2.to_multiset().count(x) > 0);
    }
    lemma_grouping_reads_labels_as_a_set(lv1, lv2, g1);
    lemma_groups_unique(lv2, g1, grouping_of(lv2));
    assert forall|f: int| 0 <= f < r1.len() implies fold_view(#[trigger] r1[f]) == fold_view(r2[f]) by {
        assert(fold_built(r1[f], f, fold_state(g1, fold_order(g1, seed), fold_count as nat, g1.len() as int)[f], g1));
        assert(fold_built(r2[f], f, fold_state(g1, fold_order(g1, seed), fold_count as nat, g1.len() as int)[f], g1));
        assert(fold_view(r1[f]).1 =~= fold_view(r2[f]).1);
    }
}

/// Each held-out fold is numbered by its place, counts its faces, and
/// lists them in ascending order.
pub proof fn lemma_held_out_fold_shape(
    g: Seq<(Seq<char>, Seq<i64>)>,
    fold_count: usize,
    seed: u64,
    r: Seq<IdentityFold>,
)
    requires
        folds_of(g, fold_count, seed, r),
    ensures
        r.len() == fold_count,
        forall|f: int| 0 <= f < r.len() ==> (#[trigger] r[f]).fold_index == f && r[f].face_count
            == r[f].face_ids@.len() && (forall|i: int, j: int|
            0 <= i < j < r[f].face_ids@.len() ==> r[f].face_ids@[i] <= r[f].face_ids@[j]),
{
    let st = fold_state(g, fold_order(g, seed), fold_count as nat, g.len() as int);
    assert forall|f: int| 0 <= f < r.len() implies (#[trigger] r[f]).fold_index == f && r[f].face_count
        == r[f].face_ids@.len() && (forall|i: int, j: int|
        0 <= i < j < r[f].face_ids@.len() ==> r[f].face_ids@[i] <= r[f].face_ids@[j]) by {
        assert(fold_built(r[f], f, st[f], g));
        <i64 as crate::order::Ordered>::lemma_total_order();
        st[f].1.lemma_sort_by_ensures(crate::order::leq_fn::<i64>());
        let s = st[f].1.sort_by(crate::order::leq_fn::<i64>());
        assert(s.len() == st[f].1.len()) by {
            broadcast use vstd::seq_lib::group_to_multiset_ensures;

            assert(s.to_multiset().len() == st[f].1.to_multiset().len());
        }
        assert forall|i: int, j: int| 0 <= i < j < r[f].face_ids@.len() implies r[f].face_ids@[i]
            <= r[f].face_ids@[j] by {
            assert(crate::order::leq_fn::<i64>()(s[i], s[j]));
        }
    }
}

/// The faces of the groups at positions `ids`, in that order.
pub open spec fn faces_of_groups(g: Seq<(Seq<char>, Seq<i64>)>, ids: Seq<usize>) -> Seq<i64>
    decreases ids.len(),
{
    if ids.len() == 0 {
        Seq::empty()
    } else {
        faces_of_groups(g, ids.drop_last()) + g[ids.last() as int].1
    }
}

proof fn lemma_faces_of_groups_contains(g: Seq<(Seq<char>, Seq<i64>)>, ids: Seq<usize>, x: i64)
    ensures
        faces_of_groups(g, ids).contains(x) <==> exists|i: int|
            0 <= i < ids.len() && g[#[trigger] ids[i] as int].1.contains(x),
    decreases ids.len(),
{
    if ids.len() > 0 {
        let pre = ids.drop_last();
        lemma_faces_of_groups_contains(g, pre, x);
        let a = faces_of_groups(g, pre);
        let b = g[ids.last() as int].1;
        if (a + b).contains(x) {
            let p = choose|p: int| 0 <= p < (a + b).len() && (a + b)[p] == x;
            if p < a.len() {
                assert(a.contains(x));
                let i = choose|i: int| 0 <= i < pre.len() && g[#[trigger] pre[i] as int].1.contains(x);
                assert(ids[i] == pre[i]);
            } else {
                assert(b[p - a.len()] == x);
                assert(b.contains(x));
                assert(ids[ids.len() - 1] == ids.last());
            }
        }
        if exists|i: int| 0 <= i < ids.len() && g[#[trigger] ids[i] as int].1.contains(x) {
            let i = choose|i: int| 0 <= i < ids.len() && g[#[trigger] ids[i] as int].1.contains(x);
            if i < ids.len() - 1 {
                assert(pre[i] == ids[i]);
                assert(a.contains(x));
                let p = choose|p: int| 0 <= p < a.len() && a[p] == x;
                assert((a + b)[p] == x);
            } else {
                assert(b.contains(x));
                let p = choose|p: int| 0 <= p < b.len() && b[p] == x;
                assert((a + b)[a.len() + p] == x);
            }
        }
    }
}

/// The order identities are assigned in names each identity once.
/// Some key of `ord` is numbered `k`.
pub open spec fn index_listed(ord: Seq<FoldKey>, k: int) -> bool {
    exists|j: int| 0 <= j < ord.len() && (#[trigger] ord[j]).index == k
}

/// A rearrangement of keys numbered `0..n` by their `index` names each
/// number exactly once.
proof fn lemma_rearranged_indices(keys: Seq<FoldKey>, ord: Seq<FoldKey>)
    requires
        forall|k: int| 0 <= k < keys.len() ==> (#[trigger] keys[k]).index == k,
        ord.to_multiset() == keys.to_multiset(),
    ensures
        ord.len() == keys.len(),
        forall|j: int| 0 <= j < ord.len() ==> (#[trigger] ord[j]).index < keys.len(),
        forall|i: int, j: int|
            0 <= i < j < ord.len() ==> (#[trigger] ord[i]).index != (#[trigger] ord[j]).index,
        forall|k: int| 0 <= k < keys.len() ==> #[trigger] index_listed(ord, k),
{
    vstd::seq_lib::to_multiset_len(ord);
    vstd::seq_lib::to_multiset_len(keys);
    assert forall|j: int| 0 <= j < ord.len() implies (#[trigger] ord[j]).index < keys.len()
        && ord[j] == keys[ord[j].index as int] by {
        vstd::seq_lib::to_multiset_contains(ord, ord[j]);
        vstd::seq_lib::to_multiset_contains(keys, ord[j]);
        assert(ord.contains(ord[j]));
        let k = choose|k: int| 0 <= k < keys.len() && keys[k] == ord[j];
        assert(keys[k].index == k);
    }
    assert(keys.no_duplicates()) by {
        assert forall|i: int, j: int| 0 <= i < keys.len() && 0 <= j < keys.len() && i != j implies keys[i]
            != keys[j] by {
            assert(keys[i].index == i && keys[j].index == j);
        }
    }
    keys.lemma_multiset_has_no_duplicates();
    assert forall|x: FoldKey| ord.to_multiset().contains(x) implies ord.to_multiset().count(x) == 1 by {
        assert(keys.to_multiset().contains(x));
    }
    ord.lemma_multiset_has_no_duplicates_conv();
    assert forall|i: int, j: int| 0 <= i < j < ord.len() implies (#[trigger] ord[i]).index
        != (#[trigger] ord[j]).index by {
        if ord[i].index == ord[j].index {
            assert(ord[i] == keys[ord[i].index as int]);
            assert(ord[j] == keys[ord[j].index as int]);
        }
    }
    assert forall|k: int| 0 <= k < keys.len() implies #[trigger] index_listed(ord, k) by {
        assert(keys.contains(keys[k]));
        vstd::seq_lib::to_multiset_contains(keys, keys[k]);
        assert(keys.to_multiset().count(keys[k]) > 0);
        assert(ord.to_multiset().count(keys[k]) > 0);
        vstd::seq_lib::to_multiset_contains(ord, keys[k]);
        assert(ord.contains(keys[k]));
        let j = choose|j: int| 0 <= j < ord.len() && ord[j] == keys[k];
        assert(ord[j].index == keys[k].index);
        assert(0 <= j < ord.len() && ord[j].index == k);
    }
}

/// The order identities are assigned in names each identity once.
proof fn lemma_fold_order_indices(g: Seq<(Seq<char>, Seq<i64>)>, seed: u64)
    requires
        g.len() <= usize::MAX,
    ensures
        fold_order(g, seed).len() == g.len(),
        forall|j: int| 0 <= j < fold_order(g, seed).len() ==> (#[trigger] fold_order(g, seed)[j]).index
            < g.len(),
        forall|i: int, j: int|
            0 <= i < j < fold_order(g, seed).len() ==> (#[trigger] fold_order(g, seed)[i]).index
                != (#[trigger] fold_order(g, seed)[j]).index,
        forall|k: int| 0 <= k < g.len() ==> #[trigger] index_listed(fold_order(g, seed), k),
{
    let keys = fold_keys(g, seed);
    let ord = fold_order(g, seed);
    <FoldKey as crate::order::Ordered>::lemma_total_order();
    keys.lemma_sort_by_ensures(crate::order::leq_fn::<FoldKey>());
    assert(forall|k: int| 0 <= k < keys.len() ==> (#[trigger] keys[k]).index == k);
    lemma_rearranged_indices(keys, ord);
    assert forall|k: int| 0 <= k < g.len() implies #[trigger] index_listed(ord, k) by {
        assert(keys[k].index == k);
    }
}

/// After the first `t` identities of an order that names each group once
/// were assigned, each fold's faces are those of its identities, every
/// assigned identity is in some fold, and no identity is in two folds or
/// twice in one.
proof fn lemma_fold_state_partition(
    g: Seq<(Seq<char>, Seq<i64>)>,
    order: Seq<FoldKey>,
    folds: nat,
    t: int,
)
    requires
        folds >= 1,
        0 <= t <= order.len(),
        forall|j: int| 0 <= j < order.len() ==> (#[trigger] order[j]).index < g.len(),
        forall|i: int, j: int|
            0 <= i < j < order.len() ==> (#[trigger] order[i]).index != (#[trigger] order[j]).index,
    ensures
        fold_state(g, order, folds, t).len() == folds,
        forall|f: int|
            0 <= f < folds ==> (#[trigger] fold_state(g, order, folds, t)[f]).1 == faces_of_groups(
                g,
                fold_state(g, order, folds, t)[f].0,
            ),
        forall|f: int, k: usize|
            0 <= f < folds && (#[trigger] fold_state(g, order, folds, t)[f].0.contains(k))
                ==> exists|j: int| 0 <= j < t && order[j].index == k,
        forall|j: int|
            #![trigger order[j]]
            0 <= j < t ==> exists|f: int|
                0 <= f < folds && (#[trigger] fold_state(g, order, folds, t)[f]).0.contains(
                    order[j].index,
                ),
        forall|f1: int, f2: int, k: usize|
            0 <= f1 < folds && 0 <= f2 < folds && (#[trigger] fold_state(g, order, folds, t)[f1].0.contains(k))
                && (#[trigger] fold_state(g, order, folds, t)[f2].0.contains(k)) ==> f1 == f2,
        forall|f: int| 0 <= f < folds ==> (#[trigger] fold_state(g, order, folds, t)[f]).0.no_duplicates(),
    decreases t,
{
    if t > 0 {
        lemma_fold_state_partition(g, order, folds, t - 1);
        let st = fold_state(g, order, folds, t - 1);
        let loads = Seq::new(folds, |f: int| st[f].1.len() as int);
        let target = lightest(loads, folds as int);
        lemma_lightest_bound(loads, folds as int);
        let idx = order[t - 1].index;
        let nst = fold_state(g, order, folds, t);
        assert(nst == st.update(target, (st[target].0.push(idx), st[target].1 + g[idx as int].1)));
        assert(st[target].0.push(idx).drop_last() =~= st[target].0);
        assert forall|f: int| 0 <= f < folds && st[f].0.contains(idx) implies false by {
            let j = choose|j: int| 0 <= j < t - 1 && order[j].index == idx;
            assert(order[j].index != order[t - 1].index);
        }
        assert forall|f: int, k: usize| 0 <= f < folds && (#[trigger] nst[f].0.contains(k))
            implies exists|j: int| 0 <= j < t && order[j].index == k by {
            if f == target && k == idx {
                assert(order[t - 1].index == k);
            } else if f == target {
                let p = choose|p: int| 0 <= p < nst[f].0.len() && nst[f].0[p] == k;
                assert(p < st[f].0.len());
                assert(st[f].0[p] == k);
                assert(st[f].0.contains(k));
                let j = choose|j: int| 0 <= j < t - 1 && order[j].index == k;
            } else {
                assert(st[f].0.contains(k));
                let j = choose|j: int| 0 <= j < t - 1 && order[j].index == k;
            }
        }
        assert forall|j: int| #![trigger order[j]] 0 <= j < t implies exists|f: int|
            0 <= f < folds && (#[trigger] nst[f]).0.contains(order[j].index) by {
            if j == t - 1 {
                assert(nst[target].0[st[target].0.len() as int] == idx);
                assert(nst[target].0.contains(idx));
            } else {
                let f = choose|f: int| 0 <= f < folds && (#[trigger] st[f]).0.contains(order[j].index);
                let p = choose|p: int| 0 <= p < st[f].0.len() && st[f].0[p] == order[j].index;
                if f == target {
                    assert(nst[f].0[p] == order[j].index);
                }
                assert(nst[f].0.contains(order[j].index));
            }
        }
        assert forall|f: int| 0 <= f < folds implies (#[trigger] nst[f]).0.no_duplicates() by {
            if f == target {
                assert(st[f].0.no_duplicates());
                assert(!st[f].0.contains(idx));
                assert forall|a: int, b: int| 0 <= a < nst[f].0.len() && 0 <= b < nst[f].0.len() && a != b
                    implies nst[f].0[a] != nst[f].0[b] by {
                    if a == st[f].0.len() as int {
                        assert(nst[f].0[b] == st[f].0[b]);
                    } else if b == st[f].0.len() as int {
                        assert(nst[f].0[a] == st[f].0[a]);
                    } else {
                        assert(nst[f].0[a] == st[f].0[a] && nst[f].0[b] == st[f].0[b]);
                    }
                }
            } else {
                assert(nst[f] == st[f]);
            }
        }
        assert forall|f1: int, f2: int, k: usize|
            0 <= f1 < folds && 0 <= f2 < folds && (#[trigger] nst[f1].0.contains(k))
                && (#[trigger] nst[f2].0.contains(k)) implies f1 == f2 by {
            if k == idx {
                if f1 != target {
                    assert(st[f1].0.contains(k));
                }
                if f2 != target {
                    assert(st[f2].0.contains(k));
                }
            } else {
                if f1 == target {
                    let p = choose|p: int| 0 <= p < nst[f1].0.len() && nst[f1].0[p] == k;
                    assert(st[f1].0[p] == k);
                }
                if f2 == target {
                    let p = choose|p: int| 0 <= p < nst[f2].0.len() && nst[f2].0[p] == k;
                    assert(st[f2].0[p] == k);
                }
                assert(st[f1].0.contains(k) && st[f2].0.contains(k));
            }
        }
    }
}

/// Whether fold `f` holds the identity `name`.
pub open spec fn fold_holds(f: IdentityFold, name: Seq<char>) -> bool {
    exists|i: int| 0 <= i < f.identities@.len() && (#[trigger] f.identities@[i])@ == name
}

/// Some fold of `r` holds the identity `name`.
pub open spec fn held_by_some_fold(r: Seq<IdentityFold>, name: Seq<char>) -> bool {
    exists|f: int| 0 <= f < r.len() && fold_holds(#[trigger] r[f], name)
}

/// A valid grouping has no more groups than there are labels.
proof fn lemma_groups_fit_labels(lv: Seq<(i64, Seq<char>)>, g: Seq<(Seq<char>, Seq<i64>)>)
    requires
        groups_valid(lv, g),
    ensures
        g.len() <= lv.len(),
{
    reveal(ids_sorted);
    reveal(faces_ordered);
    reveal(faces_labeled);
    let names = Seq::new(lv.len(), |m: int| lv[m].1);
    let vals = Seq::new(g.len(), |k: int| g[k].0);
    assert forall|i: int, j: int| 0 <= i < j < vals.len() implies vals[i] != vals[j] by {
        assert(str_lt(g[i].0, g[j].0));
        if vals[i] == vals[j] {
            lemma_str_lt_irreflexive(g[i].0);
        }
    }
    assert forall|k: int| 0 <= k < vals.len() implies names.contains(#[trigger] vals[k]) by {
        assert(g[k].1.len() > 0);
        assert(face_labeled_at(lv, g, k, 0));
        let m = choose|m: int| #![trigger lv[m]] 0 <= m < lv.len() && lv[m] == (g[k].1[0], g[k].0);
        assert(names[m] == vals[k]);
    }
    crate::order::lemma_pigeonhole(names, vals);
}

/// In a valid grouping, a name belongs to at most one group.
proof fn lemma_group_names_distinct(g: Seq<(Seq<char>, Seq<i64>)>, a: int, b: int)
    requires
        ids_sorted(g),
        0 <= a < g.len(),
        0 <= b < g.len(),
        g[a].0 == g[b].0,
    ensures
        a == b,
{
    reveal(ids_sorted);
    if a < b {
        assert(str_lt(g[a].0, g[b].0));
        lemma_str_lt_irreflexive(g[a].0);
    } else if b < a {
        assert(str_lt(g[b].0, g[a].0));
        lemma_str_lt_irreflexive(g[a].0);
    }
}

/// A built fold holds exactly the names of the groups its state lists.
proof fn lemma_fold_holds_members(
    fold: IdentityFold,
    f: int,
    st: (Seq<usize>, Seq<i64>),
    g: Seq<(Seq<char>, Seq<i64>)>,
    x: Seq<char>,
)
    requires
        fold_built(fold, f, st, g),
    ensures
        fold_holds(fold, x) <==> exists|i: int| 0 <= i < st.0.len() && g[#[trigger] st.0[i] as int].0 == x,
        forall|y: i64| fold.face_ids@.contains(y) <==> st.1.contains(y),
{
    <usize as crate::order::Ordered>::lemma_total_order();
    <i64 as crate::order::Ordered>::lemma_total_order();
    st.0.lemma_sort_by_ensures(crate::order::leq_fn::<usize>());
    st.1.lemma_sort_by_ensures(crate::order::leq_fn::<i64>());
    let members = st.0.sort_by(crate::order::leq_fn::<usize>());
    if fold_holds(fold, x) {
        let i = choose|i: int| 0 <= i < fold.identities@.len() && (#[trigger] fold.identities@[i])@ == x;
        assert(g[members[i] as int].0 == x);
        vstd::seq_lib::to_multiset_contains(members, members[i]);
        vstd::seq_lib::to_multiset_contains(st.0, members[i]);
        assert(members.contains(members[i]));
        let p = choose|p: int| 0 <= p < st.0.len() && st.0[p] == members[i];
        assert(g[st.0[p] as int].0 == x);
    }
    if exists|i: int| 0 <= i < st.0.len() && g[#[trigger] st.0[i] as int].0 == x {
        let i = choose|i: int| 0 <= i < st.0.len() && g[#[trigger] st.0[i] as int].0 == x;
        vstd::seq_lib::to_multiset_contains(members, st.0[i]);
        vstd::seq_lib::to_multiset_contains(st.0, st.0[i]);
        assert(st.0.contains(st.0[i]));
        let p = choose|p: int| 0 <= p < members.len() && members[p] == st.0[i];
        assert(fold.identities@[p]@ == x);
    }
    assert forall|y: i64| fold.face_ids@.contains(y) <==> st.1.contains(y) by {
        vstd::seq_lib::to_multiset_contains(fold.face_ids@, y);
        vstd::seq_lib::to_multiset_contains(st.1, y);
    }
}

/// The held-out folds partition the identities: every identity a label
/// names is held by one fold and by no other, each fold lists its
/// identities in ascending order, and a fold's faces are exactly the faces
/// labeled with the identities it holds.
pub proof fn lemma_held_out_folds_partition(
    lv: Seq<(i64, Seq<char>)>,
    fold_count: usize,
    seed: u64,
    r: Seq<IdentityFold>,
)
    requires
        !has_duplicate(lv),
        lv.len() <= usize::MAX,
        fold_count >= 1,
        folds_of(grouping_of(lv), fold_count, seed, r),
    ensures
        forall|m: int| 0 <= m < lv.len() ==> #[trigger] held_by_some_fold(r, lv[m].1),
        forall|f1: int, f2: int, x: Seq<char>|
            0 <= f1 < r.len() && 0 <= f2 < r.len() && #[trigger] fold_holds(r[f1], x)
                && #[trigger] fold_holds(r[f2], x) ==> f1 == f2,
        forall|f: int, i: int, j: int|
            0 <= f < r.len() && 0 <= i < j < r[f].identities@.len() ==> str_lt(
                #[trigger] r[f].identities@[i]@,
                #[trigger] r[f].identities@[j]@,
            ),
        forall|f: int, y: i64|
            0 <= f < r.len() ==> (#[trigger] r[f].face_ids@.contains(y) <==> exists|m: int|
                0 <= m < lv.len() && lv[m].0 == y && fold_holds(r[f], #[trigger] lv[m].1)),
{
    lemma_grouping_exists(lv);
    let g = grouping_of(lv);
    lemma_groups_fit_labels(lv, g);
    let ord = fold_order(g, seed);
    lemma_fold_order_indices(g, seed);
    lemma_fold_state_shape(g, ord, fold_count as nat, g.len() as int);
    lemma_fold_state_partition(g, ord, fold_count as nat, g.len() as int);
    let st = fold_state(g, ord, fold_count as nat, g.len() as int);
    assert(r.len() == fold_count);
    assert forall|m: int| 0 <= m < lv.len() implies #[trigger] held_by_some_fold(r, lv[m].1) by {
        reveal(labels_grouped);
        assert(label_grouped_at(lv, g, m));
        let (k, i) = choose|k: int, i: int|
            #![trigger g[k].1[i]]
            0 <= k < g.len() && 0 <= i < g[k].1.len() && g[k].0 == lv[m].1 && g[k].1[i] == lv[m].0;
        assert(index_listed(ord, k));
        let j = choose|j: int| 0 <= j < ord.len() && (#[trigger] ord[j]).index == k;
        assert(ord[j] == ord[j]);
        let f = choose|f: int| 0 <= f < fold_count && (#[trigger] st[f]).0.contains(ord[j].index);
        let p = choose|p: int| 0 <= p < st[f].0.len() && st[f].0[p] == ord[j].index;
        assert(fold_built(r[f], f, st[f], g));
        lemma_fold_holds_members(r[f], f, st[f], g, lv[m].1);
        assert(g[st[f].0[p] as int].0 == lv[m].1);
        assert(fold_holds(r[f], lv[m].1));
    }
    assert forall|f1: int, f2: int, x: Seq<char>|
        0 <= f1 < r.len() && 0 <= f2 < r.len() && #[trigger] fold_holds(r[f1], x)
            && #[trigger] fold_holds(r[f2], x) implies f1 == f2 by {
        assert(fold_built(r[f1], f1, st[f1], g));
        assert(fold_built(r[f2], f2, st[f2], g));
        lemma_fold_holds_members(r[f1], f1, st[f1], g, x);
        lemma_fold_holds_members(r[f2], f2, st[f2], g, x);
        let i1 = choose|i: int| 0 <= i < st[f1].0.len() && g[#[trigger] st[f1].0[i] as int].0 == x;
        let i2 = choose|i: int| 0 <= i < st[f2].0.len() && g[#[trigger] st[f2].0[i] as int].0 == x;
        let k1 = st[f1].0[i1];
        let k2 = st[f2].0[i2];
        assert(k1 < g.len() && k2 < g.len());
        lemma_group_names_distinct(g, k1 as int, k2 as int);
        assert(st[f1].0.contains(k1));
        assert(st[f2].0.contains(k1));
    }
    assert forall|f: int, i: int, j: int|
        0 <= f < r.len() && 0 <= i < j < r[f].identities@.len() implies str_lt(
            #[trigger] r[f].identities@[i]@,
            #[trigger] r[f].identities@[j]@,
        ) by {
        assert(fold_built(r[f], f, st[f], g));
        let s0 = st[f].0;
        let members = s0.sort_by(crate::order::leq_fn::<usize>());
        <usize as crate::order::Ordered>::lemma_total_order();
        s0.lemma_sort_by_ensures(crate::order::leq_fn::<usize>());
        assert(s0.no_duplicates());
        s0.lemma_multiset_has_no_duplicates();
        assert forall|x: usize| members.to_multiset().contains(x) implies members.to_multiset().count(x) == 1 by {
            assert(s0.to_multiset().contains(x));
        }
        members.lemma_multiset_has_no_duplicates_conv();
        assert(crate::order::leq_fn::<usize>()(members[i], members[j]));
        assert(members[i] != members[j]);
        assert(members[i] < members[j]);
        vstd::seq_lib::to_multiset_contains(members, members[j]);
        vstd::seq_lib::to_multiset_contains(s0, members[j]);
        assert(members.contains(members[j]));
        let p = choose|p: int| 0 <= p < s0.len() && s0[p] == members[j];
        assert(members[j] < g.len());
        reveal(ids_sorted);
        assert(str_lt(g[members[i] as int].0, g[members[j] as int].0));
    }
    assert forall|f: int, y: i64| 0 <= f < r.len() implies (#[trigger] r[f].face_ids@.contains(y)
        <==> exists|m: int| 0 <= m < lv.len() && lv[m].0 == y && fold_holds(r[f], #[trigger] lv[m].1)) by {
        assert(fold_built(r[f], f, st[f], g));
        lemma_fold_holds_members(r[f], f, st[f], g, Seq::empty());
        lemma_faces_of_groups_contains(g, st[f].0, y);
        if r[f].face_ids@.contains(y) {
            assert(st[f].1.contains(y));
            let i = choose|i: int| 0 <= i < st[f].0.len() && g[#[trigger] st[f].0[i] as int].1.contains(y);
            let k = st[f].0[i] as int;
            assert(k < g.len());
            let p = choose|p: int| 0 <= p < g[k].1.len() && g[k].1[p] == y;
            reveal(faces_labeled);
            assert(face_labeled_at(lv, g, k, p));
            let m = choose|m: int| #![trigger lv[m]] 0 <= m < lv.len() && lv[m] == (g[k].1[p], g[k].0);
            lemma_fold_holds_members(r[f], f, st[f], g, lv[m].1);
            assert(g[st[f].0[i] as int].0 == lv[m].1);
            assert(lv[m].0 == y && fold_holds(r[f], lv[m].1));
        }
        if exists|m: int| 0 <= m < lv.len() && lv[m].0 == y && fold_holds(r[f], #[trigger] lv[m].1) {
            let m = choose|m: int| 0 <= m < lv.len() && lv[m].0 == y && fold_holds(r[f], #[trigger] lv[m].1);
            lemma_fold_holds_members(r[f], f, st[f], g, lv[m].1);
            let i = choose|i: int| 0 <= i < st[f].0.len() && g[#[trigger] st[f].0[i] as int].0 == lv[m].1;
            let k = st[f].0[i] as int;
            assert(k < g.len());
            reveal(labels_grouped);
            assert(label_grouped_at(lv, g, m));
            let (k2, q) = choose|k2: int, q: int|
                #![trigger g[k2].1[q]]
                0 <= k2 < g.len() && 0 <= q < g[k2].1.len() && g[k2].0 == lv[m].1 && g[k2].1[q] == lv[m].0;
            lemma_group_names_distinct(g, k, k2);
            assert(g[k].1[q] == y);
            assert(g[st[f].0[i] as int].1.contains(y));
            assert(st[f].1.contains(y));
        }
    }
}

proof fn lemma_within_upto_member(fs: Seq<i64>, n: int, p: (i64, i64))
    requires
        0 <= n <= fs.len(),
        within_upto(fs, n).contains(p),
    ensures
        exists|i: int, j: int| 0 <= i < j < fs.len() && p == (fs[i], fs[j]),
    decreases n,
{
    if n > 0 {
        let a = within_upto(fs, n - 1);
        let b = row_pairs(fs, n - 1);
        let q = choose|q: int| 0 <= q < (a + b).len() && (a + b)[q] == p;
        if q < a.len() {
            assert(a[q] == p);
            assert(a.contains(p));
            lemma_within_upto_member(fs, n - 1, p);
        } else {
            let j = q - a.len();
            assert(b[j] == p);
            assert(p == (fs[n - 1], fs[n + j]));
        }
    }
}

proof fn lemma_cross_upto_member(a: Seq<i64>, b: Seq<i64>, n: int, p: (i64, i64))
    requires
        0 <= n <= a.len(),
        cross_upto(a, b, n).contains(p),
    ensures
        exists|i: int, j: int| 0 <= i < a.len() && 0 <= j < b.len() && p == (a[i], b[j]),
    decreases n,
{
    if n > 0 {
        let x = cross_upto(a, b, n - 1);
        let y = Seq::new(b.len(), |j: int| (a[n - 1], b[j]));
        let q = choose|q: int| 0 <= q < (x + y).len() && (x + y)[q] == p;
        if q < x.len() {
            assert(x[q] == p);
            assert(x.contains(p));
            lemma_cross_upto_member(a, b, n - 1, p);
        } else {
            let j = q - x.len();
            assert(y[j] == p);
        }
    }
}

/// An example of a bucket carries the bucket's label and one of its pairs,
/// smaller face first.
proof fn lemma_bucket_member(
    label: PairLabel,
    seed: u64,
    left: Seq<char>,
    right: Option<Seq<char>>,
    pairs: Seq<(i64, i64)>,
    cap: usize,
    e: PairExample,
)
    requires
        bucket(label, seed, left, right, pairs, cap).contains(e),
    ensures
        e.label == label,
        exists|i: int|
            0 <= i < pairs.len() && (e.left_face_id, e.right_face_id) == ordered_pair(
                #[trigger] pairs[i].0,
                pairs[i].1,
            ),
{
    let ranked = ranked_pairs(seed, left, right, pairs);
    <(u64, i64, i64) as crate::order::Ordered>::lemma_total_order();
    ranked.lemma_sort_by_ensures(crate::order::leq_fn::<(u64, i64, i64)>());
    let sorted = ranked.sort_by(crate::order::leq_fn::<(u64, i64, i64)>());
    let kept = if cap < sorted.len() {
        sorted.take(cap as int)
    } else {
        sorted
    };
    let out = bucket(label, seed, left, right, pairs, cap);
    let q = choose|q: int| 0 <= q < out.len() && out[q] == e;
    let s = kept[q];
    assert(sorted[q] == s);
    vstd::seq_lib::to_multiset_contains(sorted, s);
    vstd::seq_lib::to_multiset_contains(ranked, s);
    assert(sorted.contains(s));
    let i = choose|i: int| 0 <= i < ranked.len() && ranked[i] == s;
    assert(e.left_face_id == s.1 && e.right_face_id == s.2);
    assert((s.1, s.2) == ordered_pair(pairs[i].0, pairs[i].1));
}

proof fn lemma_positives_member(
    g: Seq<(Seq<char>, Seq<i64>)>,
    config: PairSamplingConfig,
    n: int,
    e: PairExample,
)
    requires
        0 <= n <= g.len(),
        positives_upto(g, config, n).contains(e),
    ensures
        exists|k: int|
            0 <= k < n && bucket(
                PairLabel::SameIdentity,
                config.seed,
                (#[trigger] g[k]).0,
                None,
                pairs_within(g[k].1),
                config.max_positive_pairs_per_identity,
            ).contains(e),
    decreases n,
{
    if n > 0 {
        let a = positives_upto(g, config, n - 1);
        let b = bucket(
            PairLabel::SameIdentity,
            config.seed,
            g[n - 1].0,
            None,
            pairs_within(g[n - 1].1),
            config.max_positive_pairs_per_identity,
        );
        let q = choose|q: int| 0 <= q < (a + b).len() && (a + b)[q] == e;
        if q < a.len() {
            assert(a[q] == e);
            assert(a.contains(e));
            lemma_positives_member(g, config, n - 1, e);
        } else {
            assert(b[q - a.len()] == e);
            assert(b.contains(e));
        }
    }
}

proof fn lemma_negative_row_member(
    g: Seq<(Seq<char>, Seq<i64>)>,
    config: PairSamplingConfig,
    li: int,
    ri: int,
    e: PairExample,
)
    requires
        negative_row_upto(g, config, li, ri).contains(e),
    ensures
        exists|r: int| li < r < ri && (#[trigger] negative_bucket(g, config, li, r)).contains(e),
    decreases ri - li,
{
    if ri > li + 1 {
        let a = negative_row_upto(g, config, li, ri - 1);
        let b = negative_bucket(g, config, li, ri - 1);
        let q = choose|q: int| 0 <= q < (a + b).len() && (a + b)[q] == e;
        if q < a.len() {
            assert(a[q] == e);
            assert(a.contains(e));
            lemma_negative_row_member(g, config, li, ri - 1, e);
        } else {
            assert(b[q - a.len()] == e);
            assert(b.contains(e));
        }
    }
}

proof fn lemma_negatives_member(
    g: Seq<(Seq<char>, Seq<i64>)>,
    config: PairSamplingConfig,
    n: int,
    e: PairExample,
)
    requires
        negatives_upto(g, config, n).contains(e),
    ensures
        exists|li: int, r: int|
            0 <= li < n && li < r < g.len() && (#[trigger] negative_bucket(g, config, li, r)).contains(e),
    decreases n,
{
    if n > 0 {
        let a = negatives_upto(g, config, n - 1);
        let b = negative_row_upto(g, config, n - 1, g.len() as int);
        let q = choose|q: int| 0 <= q < (a + b).len() && (a + b)[q] == e;
        if q < a.len() {
            assert(a[q] == e);
            assert(a.contains(e));
            lemma_negatives_member(g, config, n - 1, e);
        } else {
            assert(b[q - a.len()] == e);
            assert(b.contains(e));
            lemma_negative_row_member(g, config, n - 1, g.len() as int, e);
        }
    }
}

/// Face `x` is labeled with identity `name`.
pub open spec fn labeled_as(lv: Seq<(i64, Seq<char>)>, x: i64, name: Seq<char>) -> bool {
    exists|m: int| 0 <= m < lv.len() && lv[m] == (x, name)
}

/// A sampled example agrees with the labels: smaller face first, both faces
/// labeled, and marked same-identity exactly when their labels agree.
pub open spec fn example_sound(lv: Seq<(i64, Seq<char>)>, e: PairExample) -> bool {
    &&& e.left_face_id < e.right_face_id
    &&& exists|a: Seq<char>, b: Seq<char>|
        #[trigger] labeled_as(lv, e.left_face_id, a) && #[trigger] labeled_as(lv, e.right_face_id, b)
            && ((e.label == PairLabel::SameIdentity) == (a == b))
}

proof fn lemma_group_face_labeled(
    lv: Seq<(i64, Seq<char>)>,
    g: Seq<(Seq<char>, Seq<i64>)>,
    k: int,
    i: int,
)
    requires
        groups_valid(lv, g),
        0 <= k < g.len(),
        0 <= i < g[k].1.len(),
    ensures
        labeled_as(lv, g[k].1[i], g[k].0),
{
    reveal(faces_labeled);
    assert(face_labeled_at(lv, g, k, i));
    let m = choose|m: int| #![trigger lv[m]] 0 <= m < lv.len() && lv[m] == (g[k].1[i], g[k].0);
}

proof fn lemma_label_unique(lv: Seq<(i64, Seq<char>)>, x: i64, a: Seq<char>, b: Seq<char>)
    requires
        !has_duplicate(lv),
        labeled_as(lv, x, a),
        labeled_as(lv, x, b),
    ensures
        a == b,
{
    let m1 = choose|m: int| 0 <= m < lv.len() && lv[m] == (x, a);
    let m2 = choose|m: int| 0 <= m < lv.len() && lv[m] == (x, b);
    if m1 < m2 {
        assert(lv[m1].0 == lv[m2].0);
    } else if m2 < m1 {
        assert(lv[m2].0 == lv[m1].0);
    }
}

/// The face pair of each example.
pub open spec fn face_pairs(s: Seq<PairExample>) -> Seq<(i64, i64)> {
    s.map_values(|e: PairExample| (e.left_face_id, e.right_face_id))
}

/// Each candidate pair, smaller face first.
pub open spec fn ordered_pairs(pairs: Seq<(i64, i64)>) -> Seq<(i64, i64)> {
    pairs.map_values(|p: (i64, i64)| ordered_pair(p.0, p.1))
}

/// Candidates that differ as unordered pairs give a bucket of distinct pairs.
proof fn lemma_bucket_pairs_distinct(
    label: PairLabel,
    seed: u64,
    left: Seq<char>,
    right: Option<Seq<char>>,
    pairs: Seq<(i64, i64)>,
    cap: usize,
)
    requires
        ordered_pairs(pairs).no_duplicates(),
    ensures
        face_pairs(bucket(label, seed, left, right, pairs, cap)).no_duplicates(),
{
    broadcast use vstd::multiset::group_multiset_axioms;
    let ranked = ranked_pairs(seed, left, right, pairs);
    let op = ordered_pairs(pairs);
    <(u64, i64, i64) as crate::order::Ordered>::lemma_total_order();
    ranked.lemma_sort_by_ensures(crate::order::leq_fn::<(u64, i64, i64)>());
    let sorted = ranked.sort_by(crate::order::leq_fn::<(u64, i64, i64)>());
    assert(ranked.no_duplicates()) by {
        assert forall|i: int, j: int|
            0 <= i < ranked.len() && 0 <= j < ranked.len() && i != j implies ranked[i]
            != ranked[j] by {
            assert(op[i] != op[j]);
        }
    }
    ranked.lemma_multiset_has_no_duplicates();
    sorted.lemma_multiset_has_no_duplicates_conv();
    let kept = if cap < sorted.len() {
        sorted.take(cap as int)
    } else {
        sorted
    };
    let out = bucket(label, seed, left, right, pairs, cap);
    let fp = face_pairs(out);
    assert forall|p: int, q: int| 0 <= p < fp.len() && 0 <= q < fp.len() && p != q implies fp[p]
        != fp[q] by {
        assert(out[p].left_face_id == kept[p].1 && out[p].right_face_id == kept[p].2);
        assert(out[q].left_face_id == kept[q].1 && out[q].right_face_id == kept[q].2);
        assert(kept[p] == sorted[p] && kept[q] == sorted[q]);
        if sorted[p].1 == sorted[q].1 && sorted[p].2 == sorted[q].2 {
            assert(sorted.contains(sorted[p]) && sorted.contains(sorted[q]));
            let i = choose|i: int| 0 <= i < ranked.len() && ranked[i] == sorted[p];
            let j = choose|j: int| 0 <= j < ranked.len() && ranked[j] == sorted[q];
            assert(sorted[p] == sorted[q]);
        }
    }
}

/// The within-group pairs of the first `n` rows are distinct, each a pair of
/// faces whose first comes earlier and from one of those rows.
proof fn lemma_within_upto_distinct(fs: Seq<i64>, n: int)
    requires
        strictly_increasing(fs),
        0 <= n <= fs.len(),
    ensures
        within_upto(fs, n).no_duplicates(),
        forall|p: (i64, i64)|
            #[trigger] within_upto(fs, n).contains(p) ==> exists|i: int, j: int|
                0 <= i < j < fs.len() && i < n && p == (fs[i], fs[j]),
    decreases n,
{
    if n > 0 {
        lemma_within_upto_distinct(fs, n - 1);
        let a = within_upto(fs, n - 1);
        let b = row_pairs(fs, n - 1);
        assert(b.no_duplicates()) by {
            assert forall|i: int, j: int| 0 <= i < b.len() && 0 <= j < b.len() && i != j implies b[i]
                != b[j] by {
                assert(fs[n + i] != fs[n + j]);
            }
        }
        assert forall|i: int, j: int| 0 <= i < a.len() && 0 <= j < b.len() implies a[i] != b[j] by {
            assert(a.contains(a[i]));
            let (x, y) = choose|x: int, y: int| 0 <= x < y < fs.len() && x < n - 1 && a[i] == (fs[x], fs[y]);
            assert(fs[x] < fs[n - 1]);
        }
        vstd::seq_lib::lemma_no_dup_in_concat(a, b);
        assert forall|p: (i64, i64)| #[trigger] within_upto(fs, n).contains(p) implies exists|
            i: int,
            j: int,
        | 0 <= i < j < fs.len() && i < n && p == (fs[i], fs[j]) by {
            let q = choose|q: int| 0 <= q < (a + b).len() && (a + b)[q] == p;
            if q < a.len() {
                assert(a[q] == p);
                assert(a.contains(p));
            } else {
                assert(b[q - a.len()] == p);
                assert(p == (fs[n - 1], fs[n + (q - a.len())]));
            }
        }
    }
}

/// The pairs of one group's faces are distinct as unordered pairs.
proof fn lemma_pairs_within_distinct(fs: Seq<i64>)
    requires
        strictly_increasing(fs),
    ensures
        ordered_pairs(pairs_within(fs)).no_duplicates(),
{
    let w = pairs_within(fs);
    lemma_within_upto_distinct(fs, fs.len() as int);
    assert forall|k: int| 0 <= k < w.len() implies ordered_pair(w[k].0, w[k].1) == w[k] by {
        assert(w.contains(w[k]));
        let (i, j) = choose|i: int, j: int| 0 <= i < j < fs.len() && i < fs.len() && w[k] == (fs[i], fs[j]);
        assert(fs[i] < fs[j]);
    }
    assert(ordered_pairs(w) =~= w);
}

/// The cross pairs of the first `n` faces of `a` with `b` are distinct, each
/// an earlier face of `a` with a face of `b`.
proof fn lemma_cross_upto_distinct(a: Seq<i64>, b: Seq<i64>, n: int)
    requires
        strictly_increasing(a),
        strictly_increasing(b),
        0 <= n <= a.len(),
    ensures
        cross_upto(a, b, n).no_duplicates(),
        forall|p: (i64, i64)|
            #[trigger] cross_upto(a, b, n).contains(p) ==> exists|i: int, j: int|
                0 <= i < n && 0 <= j < b.len() && p == (a[i], b[j]),
    decreases n,
{
    if n > 0 {
        lemma_cross_upto_distinct(a, b, n - 1);
        let x = cross_upto(a, b, n - 1);
        let y = Seq::new(b.len(), |j: int| (a[n - 1], b[j]));
        assert(y.no_duplicates()) by {
            assert forall|i: int, j: int| 0 <= i < y.len() && 0 <= j < y.len() && i != j implies y[i]
                != y[j] by {
                assert(b[i] != b[j]);
            }
        }
        assert forall|i: int, j: int| 0 <= i < x.len() && 0 <= j < y.len() implies x[i] != y[j] by {
            assert(x.contains(x[i]));
            let (u, v) = choose|u: int, v: int| 0 <= u < n - 1 && 0 <= v < b.len() && x[i] == (a[u], b[v]);
            assert(a[u] < a[n - 1]);
        }
        vstd::seq_lib::lemma_no_dup_in_concat(x, y);
        assert forall|p: (i64, i64)| #[trigger] cross_upto(a, b, n).contains(p) implies exists|
            i: int,
            j: int,
        | 0 <= i < n && 0 <= j < b.len() && p == (a[i], b[j]) by {
            let q = choose|q: int| 0 <= q < (x + y).len() && (x + y)[q] == p;
            if q < x.len() {
                assert(x[q] == p);
                assert(x.contains(p));
            } else {
                assert(y[q - x.len()] == p);
            }
        }
    }
}

/// The cross pairs of two groups with no face in common are distinct as
/// unordered pairs.
proof fn lemma_cross_pairs_distinct(a: Seq<i64>, b: Seq<i64>)
    requires
        strictly_increasing(a),
        strictly_increasing(b),
        forall|x: i64| a.contains(x) ==> !b.contains(x),
    ensures
        ordered_pairs(cross_pairs(a, b)).no_duplicates(),
{
    let c = cross_pairs(a, b);
    let o = ordered_pairs(c);
    lemma_cross_upto_distinct(a, b, a.len() as int);
    assert forall|k: int, l: int| 0 <= k < o.len() && 0 <= l < o.len() && k != l implies o[k]
        != o[l] by {
        assert(c.contains(c[k]) && c.contains(c[l]));
        let (i, j) = choose|i: int, j: int| 0 <= i < a.len() && 0 <= j < b.len() && c[k] == (a[i], b[j]);
        let (i2, j2) = choose|i: int, j: int| 0 <= i < a.len() && 0 <= j < b.len() && c[l] == (a[i], b[j]);
        assert(a.contains(a[i]) && a.contains(a[i2]) && b.contains(b[j]) && b.contains(b[j2]));
        assert(c[k] != c[l]);
    }
}

/// The two faces of `e` lie one in group `k1` and the other in group `k2`.
pub open spec fn faces_in(g: Seq<(Seq<char>, Seq<i64>)>, e: PairExample, k1: int, k2: int) -> bool {
    ||| (g[k1].1.contains(e.left_face_id) && g[k2].1.contains(e.right_face_id))
    ||| (g[k1].1.contains(e.right_face_id) && g[k2].1.contains(e.left_face_id))
}

proof fn lemma_positive_bucket_faces_in(
    lv: Seq<(i64, Seq<char>)>,
    g: Seq<(Seq<char>, Seq<i64>)>,
    config: PairSamplingConfig,
    k: int,
    e: PairExample,
)
    requires
        groups_valid(lv, g),
        0 <= k < g.len(),
        bucket(
            PairLabel::SameIdentity,
            config.seed,
            g[k].0,
            None,
            pairs_within(g[k].1),
            config.max_positive_pairs_per_identity,
        ).contains(e),
    ensures
        faces_in(g, e, k, k),
{
    let fs = g[k].1;
    let pairs = pairs_within(fs);
    lemma_bucket_member(
        PairLabel::SameIdentity,
        config.seed,
        g[k].0,
        None,
        pairs,
        config.max_positive_pairs_per_identity,
        e,
    );
    let i = choose|i: int|
        0 <= i < pairs.len() && (e.left_face_id, e.right_face_id) == ordered_pair(
            #[trigger] pairs[i].0,
            pairs[i].1,
        );
    assert(pairs.contains(pairs[i]));
    lemma_within_upto_member(fs, fs.len() as int, pairs[i]);
    let (a, b) = choose|a: int, b: int| 0 <= a < b < fs.len() && pairs[i] == (fs[a], fs[b]);
    assert(fs.contains(fs[a]) && fs.contains(fs[b]));
}

proof fn lemma_negative_bucket_faces_in(
    g: Seq<(Seq<char>, Seq<i64>)>,
    config: PairSamplingConfig,
    li: int,
    r: int,
    e: PairExample,
)
    requires
        0 <= li < g.len(),
        0 <= r < g.len(),
        negative_bucket(g, config, li, r).contains(e),
    ensures
        faces_in(g, e, li, r),
{
    let pairs = cross_pairs(g[li].1, g[r].1);
    lemma_bucket_member(
        PairLabel::DifferentIdentities,
        config.seed,
        g[li].0,
        Some(g[r].0),
        pairs,
        config.max_negative_pairs_per_identity_pair,
        e,
    );
    let i = choose|i: int|
        0 <= i < pairs.len() && (e.left_face_id, e.right_face_id) == ordered_pair(
            #[trigger] pairs[i].0,
            pairs[i].1,
        );
    assert(pairs.contains(pairs[i]));
    lemma_cross_upto_member(g[li].1, g[r].1, g[li].1.len() as int, pairs[i]);
    let (a, b) = choose|a: int, b: int|
        0 <= a < g[li].1.len() && 0 <= b < g[r].1.len() && pairs[i] == (g[li].1[a], g[r].1[b]);
    assert(g[li].1.contains(g[li].1[a]) && g[r].1.contains(g[r].1[b]));
}

/// Two examples with the same face pair lie in the same two groups.
proof fn lemma_faces_in_match(
    lv: Seq<(i64, Seq<char>)>,
    g: Seq<(Seq<char>, Seq<i64>)>,
    e: PairExample,
    a: int,
    b: int,
    c: int,
    d: int,
)
    requires
        groups_valid(lv, g),
        !has_duplicate(lv),
        0 <= a < g.len(),
        0 <= b < g.len(),
        0 <= c < g.len(),
        0 <= d < g.len(),
        faces_in(g, e, a, b),
        faces_in(g, e, c, d),
    ensures
        (a == c && b == d) || (a == d && b == c),
{
    let x = e.left_face_id;
    let y = e.right_face_id;
    if g[a].1.contains(x) && g[b].1.contains(y) {
        if g[c].1.contains(x) && g[d].1.contains(y) {
            lemma_group_faces_disjoint(lv, g, a, c, x);
            lemma_group_faces_disjoint(lv, g, b, d, y);
        } else {
            lemma_group_faces_disjoint(lv, g, a, d, x);
            lemma_group_faces_disjoint(lv, g, b, c, y);
        }
    } else {
        if g[c].1.contains(x) && g[d].1.contains(y) {
            lemma_group_faces_disjoint(lv, g, b, c, x);
            lemma_group_faces_disjoint(lv, g, a, d, y);
        } else {
            lemma_group_faces_disjoint(lv, g, b, d, x);
            lemma_group_faces_disjoint(lv, g, a, c, y);
        }
    }
}

proof fn lemma_positives_distinct(
    lv: Seq<(i64, Seq<char>)>,
    g: Seq<(Seq<char>, Seq<i64>)>,
    config: PairSamplingConfig,
    n: int,
)
    requires
        groups_valid(lv, g),
        !has_duplicate(lv),
        0 <= n <= g.len(),
    ensures
        face_pairs(positives_upto(g, config, n)).no_duplicates(),
        forall|e: PairExample|
            #[trigger] positives_upto(g, config, n).contains(e) ==> exists|k: int|
                0 <= k < n && faces_in(g, e, k, k),
    decreases n,
{
    if n > 0 {
        lemma_positives_distinct(lv, g, config, n - 1);
        let a = positives_upto(g, config, n - 1);
        let k = n - 1;
        let b = bucket(
            PairLabel::SameIdentity,
            config.seed,
            g[k].0,
            None,
            pairs_within(g[k].1),
            config.max_positive_pairs_per_identity,
        );
        reveal(faces_ordered);
        assert(strictly_increasing(g[k].1));
        lemma_pairs_within_distinct(g[k].1);
        lemma_bucket_pairs_distinct(
            PairLabel::SameIdentity,
            config.seed,
            g[k].0,
            None,
            pairs_within(g[k].1),
            config.max_positive_pairs_per_identity,
        );
        assert forall|i: int, j: int| 0 <= i < a.len() && 0 <= j < b.len() implies face_pairs(a)[i]
            != face_pairs(b)[j] by {
            assert(a.contains(a[i]));
            let k0 = choose|k0: int| 0 <= k0 < n - 1 && faces_in(g, a[i], k0, k0);
            assert(b.contains(b[j]));
            lemma_positive_bucket_faces_in(lv, g, config, k, b[j]);
            if face_pairs(a)[i] == face_pairs(b)[j] {
                assert(faces_in(g, a[i], k, k));
                lemma_faces_in_match(lv, g, a[i], k0, k0, k, k);
            }
        }
        assert(face_pairs(a + b) =~= face_pairs(a) + face_pairs(b));
        vstd::seq_lib::lemma_no_dup_in_concat(face_pairs(a), face_pairs(b));
        assert forall|e: PairExample| #[trigger] positives_upto(g, config, n).contains(e) implies exists|
            k1: int,
        | 0 <= k1 < n && faces_in(g, e, k1, k1) by {
            let q = choose|q: int| 0 <= q < (a + b).len() && (a + b)[q] == e;
            if q < a.len() {
                assert(a[q] == e);
                assert(a.contains(e));
            } else {
                assert(b[q - a.len()] == e);
                assert(b.contains(e));
                lemma_positive_bucket_faces_in(lv, g, config, k, e);
            }
        }
    }
}

proof fn lemma_negative_row_distinct(
    lv: Seq<(i64, Seq<char>)>,
    g: Seq<(Seq<char>, Seq<i64>)>,
    config: PairSamplingConfig,
    li: int,
    ri: int,
)
    requires
        groups_valid(lv, g),
        !has_duplicate(lv),
        0 <= li < g.len(),
        ri <= g.len(),
    ensures
        face_pairs(negative_row_upto(g, config, li, ri)).no_duplicates(),
        forall|e: PairExample|
            #[trigger] negative_row_upto(g, config, li, ri).contains(e) ==> exists|r: int|
                li < r < ri && faces_in(g, e, li, r),
    decreases ri - li,
{
    if ri > li + 1 {
        lemma_negative_row_distinct(lv, g, config, li, ri - 1);
        let a = negative_row_upto(g, config, li, ri - 1);
        let r = ri - 1;
        let b = negative_bucket(g, config, li, r);
        reveal(faces_ordered);
        assert(strictly_increasing(g[li].1) && strictly_increasing(g[r].1));
        assert forall|x: i64| g[li].1.contains(x) implies !g[r].1.contains(x) by {
            if g[r].1.contains(x) {
                lemma_group_faces_disjoint(lv, g, li, r, x);
            }
        }
        lemma_cross_pairs_distinct(g[li].1, g[r].1);
        lemma_bucket_pairs_distinct(
            PairLabel::DifferentIdentities,
            config.seed,
            g[li].0,
            Some(g[r].0),
            cross_pairs(g[li].1, g[r].1),
            config.max_negative_pairs_per_identity_pair,
        );
        assert forall|i: int, j: int| 0 <= i < a.len() && 0 <= j < b.len() implies face_pairs(a)[i]
            != face_pairs(b)[j] by {
            assert(a.contains(a[i]));
            let r0 = choose|r0: int| li < r0 < ri - 1 && faces_in(g, a[i], li, r0);
            assert(b.contains(b[j]));
            lemma_negative_bucket_faces_in(g, config, li, r, b[j]);
            if face_pairs(a)[i] == face_pairs(b)[j] {
                assert(faces_in(g, a[i], li, r));
                lemma_faces_in_match(lv, g, a[i], li, r0, li, r);
            }
        }
        assert(face_pairs(a + b) =~= face_pairs(a) + face_pairs(b));
        vstd::seq_lib::lemma_no_dup_in_concat(face_pairs(a), face_pairs(b));
        assert forall|e: PairExample| #[trigger] negative_row_upto(g, config, li, ri).contains(
            e,
        ) implies exists|r1: int| li < r1 < ri && faces_in(g, e, li, r1) by {
            let q = choose|q: int| 0 <= q < (a + b).len() && (a + b)[q] == e;
            if q < a.len() {
                assert(a[q] == e);
                assert(a.contains(e));
            } else {
                assert(b[q - a.len()] == e);
                assert(b.contains(e));
                lemma_negative_bucket_faces_in(g, config, li, r, e);
            }
        }
    }
}

proof fn lemma_negatives_distinct(
    lv: Seq<(i64, Seq<char>)>,
    g: Seq<(Seq<char>, Seq<i64>)>,
    config: PairSamplingConfig,
    n: int,
)
    requires
        groups_valid(lv, g),
        !has_duplicate(lv),
        0 <= n <= g.len(),
    ensures
        face_pairs(negatives_upto(g, config, n)).no_duplicates(),
        forall|e: PairExample|
            #[trigger] negatives_upto(g, config, n).contains(e) ==> exists|li: int, r: int|
                0 <= li < n && li < r < g.len() && faces_in(g, e, li, r),
    decreases n,
{
    if n > 0 {
        lemma_negatives_distinct(lv, g, config, n - 1);
        let a = negatives_upto(g, config, n - 1);
        let li = n - 1;
        let b = negative_row_upto(g, config, li, g.len() as int);
        lemma_negative_row_distinct(lv, g, config, li, g.len() as int);
        assert forall|i: int, j: int| 0 <= i < a.len() && 0 <= j < b.len() implies face_pairs(a)[i]
            != face_pairs(b)[j] by {
            assert(a.contains(a[i]));
            let (l0, r0) = choose|l0: int, r0: int|
                0 <= l0 < n - 1 && l0 < r0 < g.len() && faces_in(g, a[i], l0, r0);
            assert(b.contains(b[j]));
            let r1 = choose|r1: int| li < r1 < g.len() && faces_in(g, b[j], li, r1);
            if face_pairs(a)[i] == face_pairs(b)[j] {
                assert(faces_in(g, a[i], li, r1));
                lemma_faces_in_match(lv, g, a[i], l0, r0, li, r1);
            }
        }
        assert(face_pairs(a + b) =~= face_pairs(a) + face_pairs(b));
        vstd::seq_lib::lemma_no_dup_in_concat(face_pairs(a), face_pairs(b));
        assert forall|e: PairExample| #[trigger] negatives_upto(g, config, n).contains(e) implies exists|
            l1: int,
            r1: int,
        | 0 <= l1 < n && l1 < r1 < g.len() && faces_in(g, e, l1, r1) by {
            let q = choose|q: int| 0 <= q < (a + b).len() && (a + b)[q] == e;
            if q < a.len() {
                assert(a[q] == e);
                assert(a.contains(e));
            } else {
                assert(b[q - a.len()] == e);
                assert(b.contains(e));
            }
        }
    }
}

/// No two examples of the sample share a face pair.
proof fn lemma_sample_pairs_distinct(lv: Seq<(i64, Seq<char>)>, config: PairSamplingConfig)
    requires
        !has_duplicate(lv),
    ensures
        face_pairs(sample_of(lv, config)).no_duplicates(),
{
    broadcast use vstd::multiset::group_multiset_axioms;
    lemma_grouping_exists(lv);
    let g = grouping_of(lv);
    let pos = positives_upto(g, config, g.len() as int);
    let neg = negatives_upto(g, config, g.len() as int);
    let all = pos + neg;
    lemma_positives_distinct(lv, g, config, g.len() as int);
    lemma_negatives_distinct(lv, g, config, g.len() as int);
    assert forall|i: int, j: int| 0 <= i < pos.len() && 0 <= j < neg.len() implies face_pairs(pos)[i]
        != face_pairs(neg)[j] by {
        assert(pos.contains(pos[i]));
        let k = choose|k: int| 0 <= k < g.len() && faces_in(g, pos[i], k, k);
        assert(neg.contains(neg[j]));
        let (li, r) = choose|li: int, r: int| 0 <= li < g.len() && li < r < g.len() && faces_in(g, neg[j], li, r);
        if face_pairs(pos)[i] == face_pairs(neg)[j] {
            assert(faces_in(g, pos[i], li, r));
            lemma_faces_in_match(lv, g, pos[i], k, k, li, r);
        }
    }
    assert(face_pairs(all) =~= face_pairs(pos) + face_pairs(neg));
    vstd::seq_lib::lemma_no_dup_in_concat(face_pairs(pos), face_pairs(neg));
    <PairExample as crate::order::Ordered>::lemma_total_order();
    all.lemma_sort_by_ensures(crate::order::leq_fn::<PairExample>());
    let s = sample_of(lv, config);
    assert(s == all.sort_by(crate::order::leq_fn::<PairExample>()));
    assert(all.no_duplicates()) by {
        assert forall|i: int, j: int| 0 <= i < all.len() && 0 <= j < all.len() && i != j implies all[i]
            != all[j] by {
            assert(face_pairs(all)[i] != face_pairs(all)[j]);
        }
    }
    all.lemma_multiset_has_no_duplicates();
    s.lemma_multiset_has_no_duplicates_conv();
    let fs = face_pairs(s);
    assert forall|p: int, q: int| 0 <= p < fs.len() && 0 <= q < fs.len() && p != q implies fs[p]
        != fs[q] by {
        assert(s.contains(s[p]) && s.contains(s[q]));
        let i = choose|i: int| 0 <= i < all.len() && all[i] == s[p];
        let j = choose|j: int| 0 <= j < all.len() && all[j] == s[q];
        if i == j {
            assert(s[p] == s[q]);
        } else {
            assert(face_pairs(all)[i] != face_pairs(all)[j]);
        }
    }
}

/// The sample agrees with the labels: it is in ascending order, and every
/// example pairs two labeled faces, smaller face first, marked
/// same-identity exactly when the two faces are labeled with the same
/// identity. Its face pairs strictly increase, so no pair occurs twice.
pub proof fn lemma_sample_is_sound(lv: Seq<(i64, Seq<char>)>, config: PairSamplingConfig)
    requires
        !has_duplicate(lv),
    ensures
        forall|i: int, j: int|
            0 <= i < j < sample_of(lv, config).len() ==> crate::order::leq_fn::<PairExample>()(
                #[trigger] sample_of(lv, config)[i],
                #[trigger] sample_of(lv, config)[j],
            ),
        forall|e: PairExample| #[trigger] sample_of(lv, config).contains(e) ==> example_sound(lv, e),
        forall|i: int, j: int|
            0 <= i < j < sample_of(lv, config).len() ==> (#[trigger] sample_of(lv, config)[i]).left_face_id
                < (#[trigger] sample_of(lv, config)[j]).left_face_id || (sample_of(lv, config)[i].left_face_id
                == sample_of(lv, config)[j].left_face_id && sample_of(lv, config)[i].right_face_id
                < sample_of(lv, config)[j].right_face_id),
{
    lemma_sample_pairs_distinct(lv, config);
    lemma_grouping_exists(lv);
    let g = grouping_of(lv);
    let all = positives_upto(g, config, g.len() as int) + negatives_upto(g, config, g.len() as int);
    <PairExample as crate::order::Ordered>::lemma_total_order();
    all.lemma_sort_by_ensures(crate::order::leq_fn::<PairExample>());
    let s = sample_of(lv, config);
    assert(s == all.sort_by(crate::order::leq_fn::<PairExample>()));
    assert forall|i: int, j: int| 0 <= i < j < s.len() implies crate::order::leq_fn::<PairExample>()(
        #[trigger] s[i],
        #[trigger] s[j],
    ) by {
        assert(crate::order::leq_fn::<PairExample>()(s[i], s[j]));
    }
    assert forall|i: int, j: int| 0 <= i < j < s.len() implies (#[trigger] s[i]).left_face_id < (
    #[trigger] s[j]).left_face_id || (s[i].left_face_id == s[j].left_face_id && s[i].right_face_id
        < s[j].right_face_id) by {
        assert(crate::order::leq_fn::<PairExample>()(s[i], s[j]));
        assert(face_pairs(s)[i] != face_pairs(s)[j]);
    }
    assert forall|e: PairExample| #[trigger] s.contains(e) implies example_sound(lv, e) by {
        vstd::seq_lib::to_multiset_contains(s, e);
        vstd::seq_lib::to_multiset_contains(all, e);
        let q = choose|q: int| 0 <= q < all.len() && all[q] == e;
        let pos = positives_upto(g, config, g.len() as int);
        let neg = negatives_upto(g, config, g.len() as int);
        if q < pos.len() {
            assert(pos[q] == e);
            assert(pos.contains(e));
            lemma_positives_member(g, config, g.len() as int, e);
            let k = choose|k: int|
                0 <= k < g.len() && bucket(
                    PairLabel::SameIdentity,
                    config.seed,
                    (#[trigger] g[k]).0,
                    None,
                    pairs_within(g[k].1),
                    config.max_positive_pairs_per_identity,
                ).contains(e);
            let fs = g[k].1;
            lemma_bucket_member(
                PairLabel::SameIdentity,
                config.seed,
                g[k].0,
                None,
                pairs_within(fs),
                config.max_positive_pairs_per_identity,
                e,
            );
            let pairs = pairs_within(fs);
            let i = choose|i: int|
                0 <= i < pairs.len() && (e.left_face_id, e.right_face_id) == ordered_pair(
                    #[trigger] pairs[i].0,
                    pairs[i].1,
                );
            assert(pairs.contains(pairs[i]));
            lemma_within_upto_member(fs, fs.len() as int, pairs[i]);
            let (a, b) = choose|a: int, b: int| 0 <= a < b < fs.len() && pairs[i] == (fs[a], fs[b]);
            reveal(faces_ordered);
            assert(strictly_increasing(g[k].1));
            assert(fs[a] < fs[b]);
            lemma_group_face_labeled(lv, g, k, a);
            lemma_group_face_labeled(lv, g, k, b);
            assert(e.left_face_id == fs[a] && e.right_face_id == fs[b]);
            assert(labeled_as(lv, e.left_face_id, g[k].0) && labeled_as(lv, e.right_face_id, g[k].0));
        } else {
            assert(neg[q - pos.len()] == e);
            assert(neg.contains(e));
            lemma_negatives_member(g, config, g.len() as int, e);
            let (li, r) = choose|li: int, r: int|
                0 <= li < g.len() && li < r < g.len() && (#[trigger] negative_bucket(g, config, li, r)).contains(e);
            let pairs = cross_pairs(g[li].1, g[r].1);
            lemma_bucket_member(
                PairLabel::DifferentIdentities,
                config.seed,
                g[li].0,
                Some(g[r].0),
                pairs,
                config.max_negative_pairs_per_identity_pair,
                e,
            );
            let i = choose|i: int|
                0 <= i < pairs.len() && (e.left_face_id, e.right_face_id) == ordered_pair(
                    #[trigger] pairs[i].0,
                    pairs[i].1,
                );
            assert(pairs.contains(pairs[i]));
            lemma_cross_upto_member(g[li].1, g[r].1, g[li].1.len() as int, pairs[i]);
            let (a, b) = choose|a: int, b: int|
                0 <= a < g[li].1.len() && 0 <= b < g[r].1.len() && pairs[i] == (g[li].1[a], g[r].1[b]);
            let x = g[li].1[a];
            let y = g[r].1[b];
            lemma_group_face_labeled(lv, g, li, a);
            lemma_group_face_labeled(lv, g, r, b);
            if g[li].0 == g[r].0 {
                lemma_group_names_distinct(g, li, r);
            }
            if x == y {
                lemma_label_unique(lv, x, g[li].0, g[r].0);
            }
            if x < y {
                assert(e.left_face_id == x && e.right_face_id == y);
                assert(labeled_as(lv, e.left_face_id, g[li].0) && labeled_as(lv, e.right_face_id, g[r].0));
            } else {
                assert(e.left_face_id == y && e.right_face_id == x);
                assert(labeled_as(lv, e.left_face_id, g[r].0) && labeled_as(lv, e.right_face_id, g[li].0));
            }
        }
    }
}

/// The face counts of the first `n` folds, added up.
pub open spec fn fold_face_total(r: Seq<IdentityFold>, n: int) -> int
    decreases n,
{
    if n <= 0 {
        0
    } else {
        fold_face_total(r, n - 1) + r[n - 1].face_count
    }
}

/// The faces of the first `n` folds, one fold after another.
pub open spec fn faces_of_folds(r: Seq<IdentityFold>, n: int) -> Seq<i64>
    decreases n,
{
    if n <= 0 {
        Seq::empty()
    } else {
        faces_of_folds(r, n - 1) + r[n - 1].face_ids@
    }
}

proof fn lemma_faces_of_folds(r: Seq<IdentityFold>, n: int, x: i64)
    requires
        0 <= n <= r.len(),
        forall|f: int| 0 <= f < r.len() ==> (#[trigger] r[f]).face_count == r[f].face_ids@.len(),
    ensures
        fold_face_total(r, n) == faces_of_folds(r, n).len(),
        faces_of_folds(r, n).contains(x) <==> exists|f: int|
            0 <= f < n && (#[trigger] r[f]).face_ids@.contains(x),
    decreases n,
{
    if n > 0 {
        lemma_faces_of_folds(r, n - 1, x);
        let a = faces_of_folds(r, n - 1);
        let b = r[n - 1].face_ids@;
        if (a + b).contains(x) {
            let p = choose|p: int| 0 <= p < (a + b).len() && (a + b)[p] == x;
            if p < a.len() {
                assert(a[p] == x);
                assert(a.contains(x));
            } else {
                assert(b[p - a.len()] == x);
                assert(b.contains(x));
            }
        }
        if exists|f: int| 0 <= f < n && (#[trigger] r[f]).face_ids@.contains(x) {
            let f = choose|f: int| 0 <= f < n && (#[trigger] r[f]).face_ids@.contains(x);
            if f < n - 1 {
                let p = choose|p: int| 0 <= p < a.len() && a[p] == x;
                assert((a + b)[p] == x);
            } else {
                let p = choose|p: int| 0 <= p < b.len() && b[p] == x;
                assert((a + b)[a.len() + p] == x);
            }
        }
    }
}

proof fn lemma_faces_of_folds_unique(r: Seq<IdentityFold>, n: int)
    requires
        0 <= n <= r.len(),
        forall|f: int| 0 <= f < r.len() ==> (#[trigger] r[f]).face_ids@.no_duplicates(),
        forall|f1: int, f2: int, x: i64|
            0 <= f1 < r.len() && 0 <= f2 < r.len() && #[trigger] r[f1].face_ids@.contains(x)
                && #[trigger] r[f2].face_ids@.contains(x) ==> f1 == f2,
        forall|f: int| 0 <= f < r.len() ==> (#[trigger] r[f]).face_count == r[f].face_ids@.len(),
    ensures
        faces_of_folds(r, n).no_duplicates(),
    decreases n,
{
    if n > 0 {
        lemma_faces_of_folds_unique(r, n - 1);
        let a = faces_of_folds(r, n - 1);
        let b = r[n - 1].face_ids@;
        assert forall|i: int, j: int| 0 <= i < a.len() && 0 <= j < b.len() implies a[i] != b[j] by {
            if a[i] == b[j] {
                assert(a.contains(a[i]));
                lemma_faces_of_folds(r, n - 1, a[i]);
                let f = choose|f: int| 0 <= f < n - 1 && (#[trigger] r[f]).face_ids@.contains(a[i]);
                assert(b.contains(b[j]));
                assert(r[n - 1].face_ids@.contains(a[i]));
            }
        }
        vstd::seq_lib::lemma_no_dup_in_concat(a, b);
    }
}

/// Two groups of a valid grouping share no face.
proof fn lemma_group_faces_disjoint(
    lv: Seq<(i64, Seq<char>)>,
    g: Seq<(Seq<char>, Seq<i64>)>,
    k1: int,
    k2: int,
    x: i64,
)
    requires
        groups_valid(lv, g),
        !has_duplicate(lv),
        0 <= k1 < g.len(),
        0 <= k2 < g.len(),
        g[k1].1.contains(x),
        g[k2].1.contains(x),
    ensures
        k1 == k2,
{
    let i1 = choose|i: int| 0 <= i < g[k1].1.len() && g[k1].1[i] == x;
    let i2 = choose|i: int| 0 <= i < g[k2].1.len() && g[k2].1[i] == x;
    lemma_group_face_labeled(lv, g, k1, i1);
    lemma_group_face_labeled(lv, g, k2, i2);
    lemma_label_unique(lv, x, g[k1].0, g[k2].0);
    lemma_group_names_distinct(g, k1, k2);
}

proof fn lemma_faces_of_groups_unique(
    lv: Seq<(i64, Seq<char>)>,
    g: Seq<(Seq<char>, Seq<i64>)>,
    ids: Seq<usize>,
)
    requires
        groups_valid(lv, g),
        !has_duplicate(lv),
        ids.no_duplicates(),
        forall|i: int| 0 <= i < ids.len() ==> (#[trigger] ids[i]) < g.len(),
    ensures
        faces_of_groups(g, ids).no_duplicates(),
    decreases ids.len(),
{
    if ids.len() > 0 {
        let pre = ids.drop_last();
        let k = ids.last() as int;
        assert(pre.no_duplicates());
        assert(forall|i: int| 0 <= i < pre.len() ==> pre[i] == ids[i]);
        lemma_faces_of_groups_unique(lv, g, pre);
        let a = faces_of_groups(g, pre);
        let b = g[k].1;
        assert(ids[ids.len() - 1] < g.len());
        reveal(faces_ordered);
        assert(strictly_increasing(g[k].1));
        assert(b.no_duplicates());
        assert forall|i: int, j: int| 0 <= i < a.len() && 0 <= j < b.len() implies a[i] != b[j] by {
            if a[i] == b[j] {
                assert(a.contains(a[i]));
                lemma_faces_of_groups_contains(g, pre, a[i]);
                let q = choose|q: int| 0 <= q < pre.len() && g[#[trigger] pre[q] as int].1.contains(a[i]);
                assert(pre[q] == ids[q]);
                assert(b.contains(a[i]));
                lemma_group_faces_disjoint(lv, g, pre[q] as int, k, a[i]);
                assert(ids[q] == ids[ids.len() - 1]);
            }
        }
        vstd::seq_lib::lemma_no_dup_in_concat(a, b);
    }
}

/// The folds' face counts add up to the number of labels: every labeled
/// face is in exactly one fold, once.
pub proof fn lemma_held_out_fold_counts_add_up(
    lv: Seq<(i64, Seq<char>)>,
    fold_count: usize,
    seed: u64,
    r: Seq<IdentityFold>,
)
    requires
        !has_duplicate(lv),
        lv.len() <= usize::MAX,
        fold_count >= 1,
        folds_of(grouping_of(lv), fold_count, seed, r),
    ensures
        fold_face_total(r, r.len() as int) == lv.len(),
{
    lemma_grouping_exists(lv);
    let g = grouping_of(lv);
    lemma_groups_fit_labels(lv, g);
    let ord = fold_order(g, seed);
    lemma_fold_order_indices(g, seed);
    lemma_fold_state_shape(g, ord, fold_count as nat, g.len() as int);
    lemma_fold_state_partition(g, ord, fold_count as nat, g.len() as int);
    lemma_held_out_fold_shape(g, fold_count, seed, r);
    lemma_held_out_folds_partition(lv, fold_count, seed, r);
    let st = fold_state(g, ord, fold_count as nat, g.len() as int);
    let n = r.len() as int;
    assert forall|f: int| 0 <= f < r.len() implies (#[trigger] r[f]).face_ids@.no_duplicates() by {
        assert(fold_built(r[f], f, st[f], g));
        assert forall|i: int| 0 <= i < st[f].0.len() implies (#[trigger] st[f].0[i]) < g.len() by {}
        lemma_faces_of_groups_unique(lv, g, st[f].0);
        let s = st[f].1;
        <i64 as crate::order::Ordered>::lemma_total_order();
        s.lemma_sort_by_ensures(crate::order::leq_fn::<i64>());
        s.lemma_multiset_has_no_duplicates();
        let sorted = s.sort_by(crate::order::leq_fn::<i64>());
        assert forall|x: i64| sorted.to_multiset().contains(x) implies sorted.to_multiset().count(x) == 1 by {
            assert(s.to_multiset().contains(x));
        }
        sorted.lemma_multiset_has_no_duplicates_conv();
    }
    assert forall|f1: int, f2: int, x: i64|
        0 <= f1 < r.len() && 0 <= f2 < r.len() && #[trigger] r[f1].face_ids@.contains(x)
            && #[trigger] r[f2].face_ids@.contains(x) implies f1 == f2 by {
        assert(r[f1].face_ids@.contains(x));
        assert(r[f2].face_ids@.contains(x));
        let m1 = choose|m: int| 0 <= m < lv.len() && lv[m].0 == x && fold_holds(r[f1], #[trigger] lv[m].1);
        let m2 = choose|m: int| 0 <= m < lv.len() && lv[m].0 == x && fold_holds(r[f2], #[trigger] lv[m].1);
        if m1 < m2 {
            assert(lv[m1].0 == lv[m2].0);
        } else if m2 < m1 {
            assert(lv[m2].0 == lv[m1].0);
        }
        assert(fold_holds(r[f1], lv[m1].1) && fold_holds(r[f2], lv[m1].1));
    }
    lemma_faces_of_folds_unique(r, n);
    let all = faces_of_folds(r, n);
    let ids = Seq::new(lv.len(), |m: int| lv[m].0);
    assert(ids.no_duplicates()) by {
        assert forall|i: int, j: int| 0 <= i < ids.len() && 0 <= j < ids.len() && i != j implies ids[i]
            != ids[j] by {
            if i < j {
                assert(!(lv[i].0 == lv[j].0));
            } else {
                assert(!(lv[j].0 == lv[i].0));
            }
        }
    }
    assert forall|x: i64| all.contains(x) <==> ids.contains(x) by {
        lemma_faces_of_folds(r, n, x);
        if all.contains(x) {
            let f = choose|f: int| 0 <= f < n && (#[trigger] r[f]).face_ids@.contains(x);
            assert(r[f].face_ids@.contains(x));
            let m = choose|m: int| 0 <= m < lv.len() && lv[m].0 == x && fold_holds(r[f], #[trigger] lv[m].1);
            assert(ids[m] == x);
        }
        if ids.contains(x) {
            let m = choose|m: int| 0 <= m < ids.len() && ids[m] == x;
            assert(held_by_some_fold(r, lv[m].1));
            let f = choose|f: int| 0 <= f < r.len() && fold_holds(#[trigger] r[f], lv[m].1);
            assert(0 <= m < lv.len() && lv[m].0 == x && fold_holds(r[f], lv[m].1));
            assert(r[f].face_ids@.contains(x));
        }
    }
    assert(all.to_set() =~= ids.to_set());
    all.unique_seq_to_set();
    ids.unique_seq_to_set();
    lemma_faces_of_folds(r, n, 0);
}

/// How many examples of `s` satisfy `p`.
pub open spec fn count_where(s: Seq<PairExample>, p: spec_fn(PairExample) -> bool) -> nat
    decreases s.len(),
{
    if s.len() == 0 {
        0
    } else {
        count_where(s.drop_last(), p) + if p(s.last()) {
            1nat
        } else {
            0nat
        }
    }
}

proof fn lemma_count_where_add(a: Seq<PairExample>, b: Seq<PairExample>, p: spec_fn(PairExample) -> bool)
    ensures
        count_where(a + b, p) == count_where(a, p) + count_where(b, p),
    decreases b.len(),
{
    if b.len() == 0 {
        assert(a + b =~= a);
    } else {
        lemma_count_where_add(a, b.drop_last(), p);
        assert((a + b).drop_last() =~= a + b.drop_last());
        assert((a + b).last() == b.last());
    }
}

proof fn lemma_count_where_all(s: Seq<PairExample>, p: spec_fn(PairExample) -> bool)
    ensures
        (forall|i: int| 0 <= i < s.len() ==> p(#[trigger] s[i])) ==> count_where(s, p) == s.len(),
        (forall|i: int| 0 <= i < s.len() ==> !p(#[trigger] s[i])) ==> count_where(s, p) == 0,
    decreases s.len(),
{
    if s.len() > 0 {
        lemma_count_where_all(s.drop_last(), p);
        if forall|i: int| 0 <= i < s.len() ==> p(#[trigger] s[i]) {
            assert(forall|i: int| 0 <= i < s.drop_last().len() ==> s.drop_last()[i] == s[i]);
            assert(p(s[s.len() - 1]));
        }
        if forall|i: int| 0 <= i < s.len() ==> !p(#[trigger] s[i]) {
            assert(forall|i: int| 0 <= i < s.drop_last().len() ==> s.drop_last()[i] == s[i]);
            assert(!p(s[s.len() - 1]));
        }
    }
}

proof fn lemma_count_where_remove(s: Seq<PairExample>, k: int, p: spec_fn(PairExample) -> bool)
    requires
        0 <= k < s.len(),
    ensures
        count_where(s, p) == count_where(s.remove(k), p) + if p(s[k]) {
            1nat
        } else {
            0nat
        },
{
    let a = s.take(k);
    let b = s.skip(k + 1);
    assert(s =~= a + seq![s[k]] + b);
    assert(s.remove(k) =~= a + b);
    lemma_count_where_add(a + seq![s[k]], b, p);
    lemma_count_where_add(a, seq![s[k]], p);
    lemma_count_where_add(a, b, p);
    assert(seq![s[k]].drop_last() =~= Seq::<PairExample>::empty());
}

/// Counting ignores order: the same examples in any order count the same.
proof fn lemma_count_where_ignores_order(a: Seq<PairExample>, b: Seq<PairExample>, p: spec_fn(PairExample) -> bool)
    requires
        a.to_multiset() == b.to_multiset(),
    ensures
        count_where(a, p) == count_where(b, p),
    decreases a.len(),
{
    broadcast use vstd::seq_lib::group_to_multiset_ensures;

    if a.len() == 0 {
        assert(b.to_multiset().len() == 0);
        assert(b =~= a);
    } else {
        let x = a.last();
        assert(a.to_multiset().count(x) > 0);
        assert(b.contains(x));
        let k = choose|k: int| 0 <= k < b.len() && b[k] == x;
        let pa = a.drop_last();
        let rb = b.remove(k);
        assert(a =~= pa.push(x));
        assert(pa.to_multiset() =~= a.to_multiset().remove(x));
        assert(rb.to_multiset() =~= b.to_multiset().remove(b[k]));
        lemma_count_where_ignores_order(pa, rb, p);
        lemma_count_where_remove(b, k, p);
    }
}

/// A bucket keeps its cap's worth of candidates, or all of them.
proof fn lemma_bucket_len(
    label: PairLabel,
    seed: u64,
    left: Seq<char>,
    right: Option<Seq<char>>,
    pairs: Seq<(i64, i64)>,
    cap: usize,
)
    ensures
        bucket(label, seed, left, right, pairs, cap).len() == if cap < pairs.len() {
            cap as int
        } else {
            pairs.len() as int
        },
{
    let ranked = ranked_pairs(seed, left, right, pairs);
    <(u64, i64, i64) as crate::order::Ordered>::lemma_total_order();
    ranked.lemma_sort_by_ensures(crate::order::leq_fn::<(u64, i64, i64)>());
    let sorted = ranked.sort_by(crate::order::leq_fn::<(u64, i64, i64)>());
    vstd::seq_lib::to_multiset_len(ranked);
    vstd::seq_lib::to_multiset_len(sorted);
}

proof fn lemma_within_upto_len(fs: Seq<i64>, m: int)
    requires
        0 <= m <= fs.len(),
    ensures
        2 * within_upto(fs, m).len() == m * (2 * fs.len() - m - 1),
    decreases m,
{
    if m > 0 {
        lemma_within_upto_len(fs, m - 1);
        let n = fs.len() as int;
        let prev = within_upto(fs, m - 1).len() as int;
        assert(row_pairs(fs, m - 1).len() == n - m);
        assert(within_upto(fs, m).len() == prev + (n - m));
        assert(2 * prev == (m - 1) * (2 * n - (m - 1) - 1));
        assert((m - 1) * (2 * n - (m - 1) - 1) + 2 * (n - m) == m * (2 * n - m - 1)) by (nonlinear_arith);
    } else {
        let n = fs.len() as int;
        assert(m * (2 * n - m - 1) == 0) by (nonlinear_arith)
            requires
                m == 0,
        ;
    }
}

/// A group of `n` faces has `n(n-1)/2` pairs.
proof fn lemma_pairs_within_len(fs: Seq<i64>)
    ensures
        pairs_within(fs).len() == fs.len() * (fs.len() - 1) / 2,
{
    lemma_within_upto_len(fs, fs.len() as int);
    let n = fs.len() as int;
    let l = pairs_within(fs).len() as int;
    assert(2 * l == n * (n - 1));
    assert(l == n * (n - 1) / 2) by (nonlinear_arith)
        requires
            2 * l == n * (n - 1),
    ;
}

proof fn lemma_cross_upto_len(a: Seq<i64>, b: Seq<i64>, m: int)
    requires
        0 <= m <= a.len(),
    ensures
        cross_upto(a, b, m).len() == m * b.len(),
    decreases m,
{
    if m > 0 {
        lemma_cross_upto_len(a, b, m - 1);
        let prev = cross_upto(a, b, m - 1).len() as int;
        let bl = b.len() as int;
        assert(Seq::new(b.len(), |j: int| (a[m - 1], b[j])).len() == bl);
        assert(cross_upto(a, b, m).len() == prev + bl);
        assert(prev == (m - 1) * bl);
        assert((m - 1) * bl + bl == m * bl) by (nonlinear_arith);
    } else {
        let bl = b.len() as int;
        assert(m * bl == 0) by (nonlinear_arith)
            requires
                m == 0,
        ;
    }
}

/// A same-identity example whose first face is one of `fs`.
pub open spec fn same_within(fs: Seq<i64>) -> spec_fn(PairExample) -> bool {
    |e: PairExample| e.label == PairLabel::SameIdentity && fs.contains(e.left_face_id)
}

/// A different-identity example with one face in `a` and the other in `b`.
pub open spec fn across(a: Seq<i64>, b: Seq<i64>) -> spec_fn(PairExample) -> bool {
    |e: PairExample|
        e.label == PairLabel::DifferentIdentities && ((a.contains(e.left_face_id) && b.contains(
            e.right_face_id,
        )) || (b.contains(e.left_face_id) && a.contains(e.right_face_id)))
}

/// The positive bucket of group `k`.
pub open spec fn positive_bucket(
    g: Seq<(Seq<char>, Seq<i64>)>,
    config: PairSamplingConfig,
    k: int,
) -> Seq<PairExample> {
    bucket(
        PairLabel::SameIdentity,
        config.seed,
        g[k].0,
        None,
        pairs_within(g[k].1),
        config.max_positive_pairs_per_identity,
    )
}

proof fn lemma_positive_bucket_faces(
    lv: Seq<(i64, Seq<char>)>,
    g: Seq<(Seq<char>, Seq<i64>)>,
    config: PairSamplingConfig,
    k: int,
    e: PairExample,
)
    requires
        groups_valid(lv, g),
        0 <= k < g.len(),
        positive_bucket(g, config, k).contains(e),
    ensures
        e.label == PairLabel::SameIdentity,
        g[k].1.contains(e.left_face_id),
        g[k].1.contains(e.right_face_id),
{
    let fs = g[k].1;
    let pairs = pairs_within(fs);
    lemma_bucket_member(
        PairLabel::SameIdentity,
        config.seed,
        g[k].0,
        None,
        pairs,
        config.max_positive_pairs_per_identity,
        e,
    );
    let i = choose|i: int|
        0 <= i < pairs.len() && (e.left_face_id, e.right_face_id) == ordered_pair(
            #[trigger] pairs[i].0,
            pairs[i].1,
        );
    assert(pairs.contains(pairs[i]));
    lemma_within_upto_member(fs, fs.len() as int, pairs[i]);
    let (a, b) = choose|a: int, b: int| 0 <= a < b < fs.len() && pairs[i] == (fs[a], fs[b]);
    assert(fs.contains(fs[a]) && fs.contains(fs[b]));
}

proof fn lemma_negative_bucket_faces(
    g: Seq<(Seq<char>, Seq<i64>)>,
    config: PairSamplingConfig,
    li: int,
    r: int,
    e: PairExample,
)
    requires
        0 <= li < g.len(),
        0 <= r < g.len(),
        negative_bucket(g, config, li, r).contains(e),
    ensures
        e.label == PairLabel::DifferentIdentities,
        (g[li].1.contains(e.left_face_id) && g[r].1.contains(e.right_face_id)) || (g[r].1.contains(
            e.left_face_id,
        ) && g[li].1.contains(e.right_face_id)),
{
    let pairs = cross_pairs(g[li].1, g[r].1);
    lemma_bucket_member(
        PairLabel::DifferentIdentities,
        config.seed,
        g[li].0,
        Some(g[r].0),
        pairs,
        config.max_negative_pairs_per_identity_pair,
        e,
    );
    let i = choose|i: int|
        0 <= i < pairs.len() && (e.left_face_id, e.right_face_id) == ordered_pair(
            #[trigger] pairs[i].0,
            pairs[i].1,
        );
    assert(pairs.contains(pairs[i]));
    lemma_cross_upto_member(g[li].1, g[r].1, g[li].1.len() as int, pairs[i]);
    let (a, b) = choose|a: int, b: int|
        0 <= a < g[li].1.len() && 0 <= b < g[r].1.len() && pairs[i] == (g[li].1[a], g[r].1[b]);
    assert(g[li].1.contains(g[li].1[a]) && g[r].1.contains(g[r].1[b]));
}

proof fn lemma_positives_count(
    lv: Seq<(i64, Seq<char>)>,
    g: Seq<(Seq<char>, Seq<i64>)>,
    config: PairSamplingConfig,
    k: int,
    n: int,
)
    requires
        groups_valid(lv, g),
        !has_duplicate(lv),
        0 <= k < g.len(),
        0 <= n <= g.len(),
    ensures
        count_where(positives_upto(g, config, n), same_within(g[k].1)) == if k < n {
            positive_bucket(g, config, k).len() as int
        } else {
            0
        },
    decreases n,
{
    if n > 0 {
        lemma_positives_count(lv, g, config, k, n - 1);
        let b = positive_bucket(g, config, n - 1);
        let p = same_within(g[k].1);
        assert(positives_upto(g, config, n) == positives_upto(g, config, n - 1) + b);
        lemma_count_where_add(positives_upto(g, config, n - 1), b, p);
        if n - 1 == k {
            assert forall|i: int| 0 <= i < b.len() implies p(#[trigger] b[i]) by {
                assert(b.contains(b[i]));
                lemma_positive_bucket_faces(lv, g, config, n - 1, b[i]);
            }
        } else {
            assert forall|i: int| 0 <= i < b.len() implies !p(#[trigger] b[i]) by {
                assert(b.contains(b[i]));
                lemma_positive_bucket_faces(lv, g, config, n - 1, b[i]);
                if g[k].1.contains(b[i].left_face_id) {
                    lemma_group_faces_disjoint(lv, g, n - 1, k, b[i].left_face_id);
                }
            }
        }
        lemma_count_where_all(b, p);
    }
}

proof fn lemma_negative_row_count(
    lv: Seq<(i64, Seq<char>)>,
    g: Seq<(Seq<char>, Seq<i64>)>,
    config: PairSamplingConfig,
    k1: int,
    k2: int,
    li: int,
    ri: int,
)
    requires
        groups_valid(lv, g),
        !has_duplicate(lv),
        0 <= k1 < k2 < g.len(),
        0 <= li < g.len(),
        ri <= g.len(),
    ensures
        count_where(negative_row_upto(g, config, li, ri), across(g[k1].1, g[k2].1)) == if li == k1
            && k2 < ri {
            negative_bucket(g, config, k1, k2).len() as int
        } else {
            0
        },
    decreases ri - li,
{
    if ri > li + 1 {
        lemma_negative_row_count(lv, g, config, k1, k2, li, ri - 1);
        let b = negative_bucket(g, config, li, ri - 1);
        let p = across(g[k1].1, g[k2].1);
        lemma_count_where_add(negative_row_upto(g, config, li, ri - 1), b, p);
        if li == k1 && ri - 1 == k2 {
            assert forall|i: int| 0 <= i < b.len() implies p(#[trigger] b[i]) by {
                assert(b.contains(b[i]));
                lemma_negative_bucket_faces(g, config, li, ri - 1, b[i]);
            }
        } else {
            assert forall|i: int| 0 <= i < b.len() implies !p(#[trigger] b[i]) by {
                assert(b.contains(b[i]));
                let e = b[i];
                lemma_negative_bucket_faces(g, config, li, ri - 1, e);
                if p(e) {
                    let l = e.left_face_id;
                    let r = e.right_face_id;
                    let r1 = ri - 1;
                    if g[li].1.contains(l) && g[r1].1.contains(r) {
                        if g[k1].1.contains(l) && g[k2].1.contains(r) {
                            lemma_group_faces_disjoint(lv, g, li, k1, l);
                            lemma_group_faces_disjoint(lv, g, r1, k2, r);
                        } else {
                            lemma_group_faces_disjoint(lv, g, li, k2, l);
                            lemma_group_faces_disjoint(lv, g, r1, k1, r);
                        }
                    } else {
                        if g[k1].1.contains(l) && g[k2].1.contains(r) {
                            lemma_group_faces_disjoint(lv, g, r1, k1, l);
                            lemma_group_faces_disjoint(lv, g, li, k2, r);
                        } else {
                            lemma_group_faces_disjoint(lv, g, r1, k2, l);
                            lemma_group_faces_disjoint(lv, g, li, k1, r);
                        }
                    }
                }
            }
        }
        lemma_count_where_all(b, p);
    }
}

proof fn lemma_negatives_count(
    lv: Seq<(i64, Seq<char>)>,
    g: Seq<(Seq<char>, Seq<i64>)>,
    config: PairSamplingConfig,
    k1: int,
    k2: int,
    n: int,
)
    requires
        groups_valid(lv, g),
        !has_duplicate(lv),
        0 <= k1 < k2 < g.len(),
        0 <= n <= g.len(),
    ensures
        count_where(negatives_upto(g, config, n), across(g[k1].1, g[k2].1)) == if k1 < n {
            negative_bucket(g, config, k1, k2).len() as int
        } else {
            0
        },
    decreases n,
{
    if n > 0 {
        lemma_negatives_count(lv, g, config, k1, k2, n - 1);
        lemma_negative_row_count(lv, g, config, k1, k2, n - 1, g.len() as int);
        lemma_count_where_add(
            negatives_upto(g, config, n - 1),
            negative_row_upto(g, config, n - 1, g.len() as int),
            across(g[k1].1, g[k2].1),
        );
    }
}

/// Some group of `g` is the identity `name`.
pub open spec fn has_group(g: Seq<(Seq<char>, Seq<i64>)>, name: Seq<char>) -> bool {
    exists|k: int| 0 <= k < g.len() && (#[trigger] g[k]).0 == name
}

/// The sample's counts: each identity's faces, `n` of them, give
/// `min(positive cap, n(n-1)/2)` same-identity examples, and each two
/// identities, with `a` and `b` faces, give `min(negative cap, a·b)`
/// different-identity examples. The groups counted by are the labels'
/// identities: group `k` lists, in increasing order, exactly the faces
/// labeled with its identity, and every label's identity has a group.
pub proof fn lemma_sample_counts(lv: Seq<(i64, Seq<char>)>, config: PairSamplingConfig)
    requires
        !has_duplicate(lv),
    ensures
        forall|k: int, x: i64|
            0 <= k < grouping_of(lv).len() ==> (#[trigger] grouping_of(lv)[k].1.contains(x)
                <==> labeled_as(lv, x, grouping_of(lv)[k].0)),
        forall|k: int|
            0 <= k < grouping_of(lv).len() ==> strictly_increasing(#[trigger] grouping_of(lv)[k].1),
        forall|m: int| 0 <= m < lv.len() ==> #[trigger] has_group(grouping_of(lv), lv[m].1),
        forall|k: int|
            0 <= k < grouping_of(lv).len() ==> count_where(
                sample_of(lv, config),
                same_within(#[trigger] grouping_of(lv)[k].1),
            ) == {
                let n = grouping_of(lv)[k].1.len() as int;
                let pairs = n * (n - 1) / 2;
                if config.max_positive_pairs_per_identity < pairs {
                    config.max_positive_pairs_per_identity as int
                } else {
                    pairs
                }
            },
        forall|k1: int, k2: int|
            0 <= k1 < k2 < grouping_of(lv).len() ==> count_where(
                sample_of(lv, config),
                across(#[trigger] grouping_of(lv)[k1].1, #[trigger] grouping_of(lv)[k2].1),
            ) == {
                let pairs = grouping_of(lv)[k1].1.len() * grouping_of(lv)[k2].1.len();
                if config.max_negative_pairs_per_identity_pair < pairs {
                    config.max_negative_pairs_per_identity_pair as int
                } else {
                    pairs as int
                }
            },
{
    lemma_grouping_exists(lv);
    let g = grouping_of(lv);
    let pos = positives_upto(g, config, g.len() as int);
    let neg = negatives_upto(g, config, g.len() as int);
    let all = pos + neg;
    <PairExample as crate::order::Ordered>::lemma_total_order();
    all.lemma_sort_by_ensures(crate::order::leq_fn::<PairExample>());
    let s = sample_of(lv, config);
    assert(s == all.sort_by(crate::order::leq_fn::<PairExample>()));
    assert forall|k: int, x: i64| 0 <= k < g.len() implies (#[trigger] g[k].1.contains(x)
        <==> labeled_as(lv, x, g[k].0)) by {
        if g[k].1.contains(x) {
            let i = choose|i: int| 0 <= i < g[k].1.len() && g[k].1[i] == x;
            lemma_group_face_labeled(lv, g, k, i);
        }
        if labeled_as(lv, x, g[k].0) {
            let m = choose|m: int| 0 <= m < lv.len() && lv[m] == (x, g[k].0);
            reveal(labels_grouped);
            assert(label_grouped_at(lv, g, m));
            let (k2, q) = choose|k2: int, q: int|
                #![trigger g[k2].1[q]]
                0 <= k2 < g.len() && 0 <= q < g[k2].1.len() && g[k2].0 == lv[m].1 && g[k2].1[q] == lv[m].0;
            lemma_group_names_distinct(g, k, k2);
            assert(g[k].1[q] == x);
        }
    }
    assert forall|k: int| 0 <= k < g.len() implies strictly_increasing(#[trigger] g[k].1) by {
        reveal(faces_ordered);
    }
    assert forall|m: int| 0 <= m < lv.len() implies #[trigger] has_group(g, lv[m].1) by {
        reveal(labels_grouped);
        assert(label_grouped_at(lv, g, m));
        let (k2, q) = choose|k2: int, q: int|
            #![trigger g[k2].1[q]]
            0 <= k2 < g.len() && 0 <= q < g[k2].1.len() && g[k2].0 == lv[m].1 && g[k2].1[q] == lv[m].0;
        assert(g[k2].0 == lv[m].1);
    }
    assert forall|k: int| 0 <= k < g.len() implies count_where(s, same_within(#[trigger] g[k].1)) == {
        let n = g[k].1.len() as int;
        let pairs = n * (n - 1) / 2;
        if config.max_positive_pairs_per_identity < pairs {
            config.max_positive_pairs_per_identity as int
        } else {
            pairs
        }
    } by {
        let p = same_within(g[k].1);
        lemma_count_where_ignores_order(all, s, p);
        lemma_count_where_add(pos, neg, p);
        lemma_positives_count(lv, g, config, k, g.len() as int);
        assert forall|i: int| 0 <= i < neg.len() implies !p(#[trigger] neg[i]) by {
            assert(neg.contains(neg[i]));
            lemma_negatives_member(g, config, g.len() as int, neg[i]);
            let (li, r) = choose|li: int, r: int|
                0 <= li < g.len() && li < r < g.len() && (#[trigger] negative_bucket(g, config, li, r)).contains(
                    neg[i],
                );
            lemma_negative_bucket_faces(g, config, li, r, neg[i]);
        }
        lemma_count_where_all(neg, p);
        lemma_bucket_len(
            PairLabel::SameIdentity,
            config.seed,
            g[k].0,
            None,
            pairs_within(g[k].1),
            config.max_positive_pairs_per_identity,
        );
        lemma_pairs_within_len(g[k].1);
    }
    assert forall|k1: int, k2: int| 0 <= k1 < k2 < g.len() implies count_where(
        s,
        across(#[trigger] g[k1].1, #[trigger] g[k2].1),
    ) == {
        let pairs = g[k1].1.len() * g[k2].1.len();
        if config.max_negative_pairs_per_identity_pair < pairs {
            config.max_negative_pairs_per_identity_pair as int
        } else {
            pairs as int
        }
    } by {
        let p = across(g[k1].1, g[k2].1);
        lemma_count_where_ignores_order(all, s, p);
        lemma_count_where_add(pos, neg, p);
        lemma_negatives_count(lv, g, config, k1, k2, g.len() as int);
        assert forall|i: int| 0 <= i < pos.len() implies !p(#[trigger] pos[i]) by {
            assert(pos.contains(pos[i]));
            lemma_positives_member(g, config, g.len() as int, pos[i]);
            let k = choose|k: int|
                0 <= k < g.len() && bucket(
                    PairLabel::SameIdentity,
                    config.seed,
                    (#[trigger] g[k]).0,
                    None,
                    pairs_within(g[k].1),
                    config.max_positive_pairs_per_identity,
                ).contains(pos[i]);
            lemma_bucket_member(
                PairLabel::SameIdentity,
                config.seed,
                g[k].0,
                None,
                pairs_within(g[k].1),
                config.max_positive_pairs_per_identity,
                pos[i],
            );
        }
        lemma_count_where_all(pos, p);
        lemma_bucket_len(
            PairLabel::DifferentIdentities,
            config.seed,
            g[k1].0,
            Some(g[k2].0),
            cross_pairs(g[k1].1, g[k2].1),
            config.max_negative_pairs_per_identity_pair,
        );
        lemma_cross_upto_len(g[k1].1, g[k2].1, g[k1].1.len() as int);
    }
}

} // verus!

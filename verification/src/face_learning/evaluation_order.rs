//! Evaluation reads its inputs as collections: rearranging the labels, the
//! cluster predictions or the suggestions changes none of the counts.

use vstd::prelude::*;
use crate::face_learning::metrics::{
    checks_of, cluster_problem, clustering_counts_of, count_before, count_facts, count_verdict,
    first_cluster_problem, first_repeat, first_suggestion_problem, holds, label_ids, min_uncovered,
    outcome_of, outcomes, pair_total, predicted_ids, prediction_problem, suggestion_check_problem,
    together, truth_identity, verdict, ClusterPrediction, FaceFact, LabeledFace, SuggestionOutcome,
    Together,
};
use crate::face_learning::profile::ClusteringCounts;

verus! {

broadcast use vstd::seq_lib::group_seq_properties, vstd::multiset::group_multiset_axioms;

/// `s` with the entries at `i` and `i + 1` exchanged.
pub open spec fn swap_adjacent<A>(s: Seq<A>, i: int) -> Seq<A> {
    s.update(i, s[i + 1]).update(i + 1, s[i])
}

proof fn lemma_swap_multiset<A>(s: Seq<A>, i: int)
    requires
        0 <= i && i + 1 < s.len(),
    ensures
        swap_adjacent(s, i).to_multiset() == s.to_multiset(),
        swap_adjacent(s, i).len() == s.len(),
{
    let x = s[i];
    let y = s[i + 1];
    let s1 = s.update(i, y);
    vstd::seq_lib::to_multiset_update(s, i, y);
    vstd::seq_lib::to_multiset_update(s1, i + 1, x);
    assert(s1[i + 1] == y);
    assert(swap_adjacent(s, i).to_multiset() =~= s.to_multiset());
}

/// Moves the entry at `p` down to `k` by adjacent exchanges, keeping the
/// entries before `k`.
proof fn lemma_move_down<A>(a: Seq<A>, k: int, p: int, f: spec_fn(Seq<A>) -> int) -> (r: Seq<A>)
    requires
        0 <= k <= p < a.len(),
        forall|s: Seq<A>, i: int| 0 <= i && i + 1 < s.len() ==> #[trigger] f(swap_adjacent(s, i)) == f(s),
    ensures
        f(r) == f(a),
        r.len() == a.len(),
        r.to_multiset() == a.to_multiset(),
        r.take(k) == a.take(k),
        r[k] == a[p],
    decreases p - k,
{
    if p == k {
        a
    } else {
        let a1 = swap_adjacent(a, p - 1);
        lemma_swap_multiset(a, p - 1);
        assert(f(a1) == f(a));
        assert(a1.take(k) =~= a.take(k));
        assert(a1[p - 1] == a[p]);
        lemma_move_down(a1, k, p - 1, f)
    }
}

proof fn lemma_agree_from<A>(a: Seq<A>, b: Seq<A>, k: int, f: spec_fn(Seq<A>) -> int)
    requires
        0 <= k <= a.len(),
        a.len() == b.len(),
        a.to_multiset() == b.to_multiset(),
        a.take(k) == b.take(k),
        forall|s: Seq<A>, i: int| 0 <= i && i + 1 < s.len() ==> #[trigger] f(swap_adjacent(s, i)) == f(s),
    ensures
        f(a) == f(b),
    decreases a.len() - k,
{
    if k == a.len() {
        assert(a =~= a.take(k));
        assert(b =~= b.take(k));
    } else {
        let x = b[k];
        vstd::seq_lib::lemma_multiset_commutative(a.take(k), a.skip(k));
        vstd::seq_lib::lemma_multiset_commutative(b.take(k), b.skip(k));
        assert(a.take(k) + a.skip(k) =~= a);
        assert(b.take(k) + b.skip(k) =~= b);
        assert forall|y: A| #[trigger] a.skip(k).to_multiset().count(y) == b.skip(k).to_multiset().count(
            y,
        ) by {
            assert(a.to_multiset().count(y) == a.take(k).to_multiset().count(y) + a.skip(
                k,
            ).to_multiset().count(y));
            assert(b.to_multiset().count(y) == b.take(k).to_multiset().count(y) + b.skip(
                k,
            ).to_multiset().count(y));
        }
        assert(a.skip(k).to_multiset() =~= b.skip(k).to_multiset());
        assert(b.skip(k)[0] == x);
        vstd::seq_lib::to_multiset_contains(b.skip(k), x);
        vstd::seq_lib::to_multiset_contains(a.skip(k), x);
        let q = choose|q: int| 0 <= q < a.skip(k).len() && a.skip(k)[q] == x;
        let a1 = lemma_move_down(a, k, k + q, f);
        assert(a1.take(k + 1) =~= b.take(k + 1)) by {
            assert forall|t: int| 0 <= t < k + 1 implies #[trigger] a1.take(k + 1)[t] == b.take(k + 1)[t] by {
                if t < k {
                    assert(a1.take(k)[t] == a.take(k)[t]);
                }
            }
        }
        lemma_agree_from(a1, b, k + 1, f);
    }
}

/// A measure that no exchange of neighbours changes is the same on any
/// rearrangement.
proof fn lemma_rearrangement<A>(a: Seq<A>, b: Seq<A>, f: spec_fn(Seq<A>) -> int)
    requires
        a.to_multiset() == b.to_multiset(),
        forall|s: Seq<A>, i: int| 0 <= i && i + 1 < s.len() ==> #[trigger] f(swap_adjacent(s, i)) == f(s),
    ensures
        f(a) == f(b),
{
    vstd::seq_lib::to_multiset_len(a);
    vstd::seq_lib::to_multiset_len(b);
    assert(a.take(0) =~= b.take(0));
    lemma_agree_from(a, b, 0, f);
}


/// Where the entry at `k` of `s` sits after exchanging `i` and `i + 1`.
pub open spec fn swapped_index(i: int, k: int) -> int {
    if k == i {
        i + 1
    } else if k == i + 1 {
        i
    } else {
        k
    }
}

proof fn lemma_swap_entry<A>(s: Seq<A>, i: int, k: int)
    requires
        0 <= i && i + 1 < s.len(),
        0 <= k < s.len(),
    ensures
        swap_adjacent(s, i)[k] == s[swapped_index(i, k)],
{
}

proof fn lemma_together_symmetric(fs: Seq<(Seq<char>, Option<i64>)>, t: Together, j: int, k: int)
    ensures
        together(fs, t, j, k) == together(fs, t, k, j),
{
}

proof fn lemma_count_before_swap(
    fs: Seq<(Seq<char>, Option<i64>)>,
    t: Together,
    i: int,
    j: int,
    k: int,
)
    requires
        0 <= i && i + 1 < fs.len(),
        0 <= j <= fs.len(),
        j != i + 1,
        0 <= k < fs.len(),
    ensures
        count_before(swap_adjacent(fs, i), t, j, k) == count_before(fs, t, j, swapped_index(i, k)),
    decreases j,
{
    let sw = swap_adjacent(fs, i);
    let sk = swapped_index(i, k);
    lemma_swap_entry(fs, i, k);
    if j > 0 {
        if j == i + 2 {
            lemma_count_before_swap(fs, t, i, i, k);
            lemma_swap_entry(fs, i, i);
            lemma_swap_entry(fs, i, i + 1);
            assert(count_before(sw, t, i + 1, k) == count_before(sw, t, i, k) + (if together(
                sw,
                t,
                i,
                k,
            ) {
                1nat
            } else {
                0nat
            }));
            assert(count_before(fs, t, i + 1, sk) == count_before(fs, t, i, sk) + (if together(
                fs,
                t,
                i,
                sk,
            ) {
                1nat
            } else {
                0nat
            }));
        } else {
            lemma_count_before_swap(fs, t, i, j - 1, k);
            lemma_swap_entry(fs, i, j - 1);
        }
    }
}

proof fn lemma_pair_total_swap(fs: Seq<(Seq<char>, Option<i64>)>, t: Together, i: int, n: int)
    requires
        0 <= i && i + 1 < fs.len(),
        0 <= n <= fs.len(),
        n != i + 1,
    ensures
        pair_total(swap_adjacent(fs, i), t, n) == pair_total(fs, t, n),
    decreases n,
{
    let sw = swap_adjacent(fs, i);
    if n > 0 {
        if n == i + 2 {
            lemma_pair_total_swap(fs, t, i, i);
            lemma_count_before_swap(fs, t, i, i, i);
            lemma_count_before_swap(fs, t, i, i, i + 1);
            lemma_swap_entry(fs, i, i);
            lemma_swap_entry(fs, i, i + 1);
            lemma_together_symmetric(fs, t, i, i + 1);
            assert(pair_total(sw, t, i + 1) == pair_total(sw, t, i) + count_before(sw, t, i, i));
            assert(pair_total(fs, t, i + 1) == pair_total(fs, t, i) + count_before(fs, t, i, i));
            assert(count_before(sw, t, i + 1, i + 1) == count_before(sw, t, i, i + 1) + (if together(
                sw,
                t,
                i,
                i + 1,
            ) {
                1nat
            } else {
                0nat
            }));
            assert(count_before(fs, t, i + 1, i + 1) == count_before(fs, t, i, i + 1) + (if together(
                fs,
                t,
                i,
                i + 1,
            ) {
                1nat
            } else {
                0nat
            }));
        } else {
            lemma_pair_total_swap(fs, t, i, n - 1);
            lemma_count_before_swap(fs, t, i, n - 1, n - 1);
        }
    }
}


proof fn lemma_count_before_alike(
    fs: Seq<(Seq<char>, Option<i64>)>,
    t: Together,
    j: int,
    k1: int,
    k2: int,
)
    requires
        0 <= j <= fs.len(),
        forall|m: int| 0 <= m < j ==> together(fs, t, m, k1) == together(fs, t, m, k2),
    ensures
        count_before(fs, t, j, k1) == count_before(fs, t, j, k2),
    decreases j,
{
    if j > 0 {
        lemma_count_before_alike(fs, t, j - 1, k1, k2);
    }
}

/// 1 when fact `f` holds of face `k`, else 0.
pub open spec fn fact_count(fs: Seq<(Seq<char>, Option<i64>)>, f: FaceFact, k: int) -> int {
    if holds(fs, f, k) {
        1
    } else {
        0
    }
}

proof fn lemma_holds_swap_far(fs: Seq<(Seq<char>, Option<i64>)>, f: FaceFact, i: int, k: int)
    requires
        0 <= i && i + 1 < fs.len(),
        0 <= k < fs.len(),
        k != i,
        k != i + 1,
    ensures
        holds(swap_adjacent(fs, i), f, k) == holds(fs, f, k),
{
    let sw = swap_adjacent(fs, i);
    lemma_swap_entry(fs, i, k);
    lemma_count_before_swap(fs, Together::Identity, i, k, k);
    lemma_count_before_swap(fs, Together::Cluster, i, k, k);
    if exists|j: int| 0 <= j < sw.len() && (#[trigger] sw[j]).1 == sw[k].1 && sw[j].0 != sw[k].0 {
        let j = choose|j: int| 0 <= j < sw.len() && (#[trigger] sw[j]).1 == sw[k].1 && sw[j].0 != sw[k].0;
        lemma_swap_entry(fs, i, j);
        assert(fs[swapped_index(i, j)].1 == fs[k].1);
    }
    if exists|j: int| 0 <= j < fs.len() && (#[trigger] fs[j]).1 == fs[k].1 && fs[j].0 != fs[k].0 {
        let j = choose|j: int| 0 <= j < fs.len() && (#[trigger] fs[j]).1 == fs[k].1 && fs[j].0 != fs[k].0;
        lemma_swap_entry(fs, i, swapped_index(i, j));
        assert(sw[swapped_index(i, j)].1 == sw[k].1);
    }
    if exists|j: int| 0 <= j < sw.len() && (#[trigger] sw[j]).0 == sw[k].0 && sw[j].1 != sw[k].1 {
        let j = choose|j: int| 0 <= j < sw.len() && (#[trigger] sw[j]).0 == sw[k].0 && sw[j].1 != sw[k].1;
        lemma_swap_entry(fs, i, j);
        assert(fs[swapped_index(i, j)].0 == fs[k].0);
    }
    if exists|j: int| 0 <= j < fs.len() && (#[trigger] fs[j]).0 == fs[k].0 && fs[j].1 != fs[k].1 {
        let j = choose|j: int| 0 <= j < fs.len() && (#[trigger] fs[j]).0 == fs[k].0 && fs[j].1 != fs[k].1;
        lemma_swap_entry(fs, i, swapped_index(i, j));
        assert(sw[swapped_index(i, j)].0 == sw[k].0);
    }
}

proof fn lemma_holds_swap_pair(fs: Seq<(Seq<char>, Option<i64>)>, f: FaceFact, i: int)
    requires
        0 <= i && i + 1 < fs.len(),
    ensures
        fact_count(swap_adjacent(fs, i), f, i) + fact_count(swap_adjacent(fs, i), f, i + 1)
            == fact_count(fs, f, i) + fact_count(fs, f, i + 1),
{
    let sw = swap_adjacent(fs, i);
    let x = fs[i];
    let y = fs[i + 1];
    lemma_swap_entry(fs, i, i);
    lemma_swap_entry(fs, i, i + 1);
    assert(sw[i] == y && sw[i + 1] == x);
    lemma_count_before_swap(fs, Together::Identity, i, i, i);
    lemma_count_before_swap(fs, Together::Identity, i, i, i + 1);
    lemma_count_before_swap(fs, Together::Cluster, i, i, i);
    lemma_count_before_swap(fs, Together::Cluster, i, i, i + 1);
    assert(count_before(sw, Together::Identity, i + 1, i + 1) == count_before(sw, Together::Identity, i, i + 1)
        + (if together(sw, Together::Identity, i, i + 1) { 1nat } else { 0nat }));
    assert(count_before(fs, Together::Identity, i + 1, i + 1) == count_before(fs, Together::Identity, i, i + 1)
        + (if together(fs, Together::Identity, i, i + 1) { 1nat } else { 0nat }));
    assert(count_before(sw, Together::Cluster, i + 1, i + 1) == count_before(sw, Together::Cluster, i, i + 1)
        + (if together(sw, Together::Cluster, i, i + 1) { 1nat } else { 0nat }));
    assert(count_before(fs, Together::Cluster, i + 1, i + 1) == count_before(fs, Together::Cluster, i, i + 1)
        + (if together(fs, Together::Cluster, i, i + 1) { 1nat } else { 0nat }));
    if x.0 == y.0 {
        lemma_count_before_alike(fs, Together::Identity, i, i, i + 1);
    }
    if y.1 is Some && x.1 == y.1 {
        lemma_count_before_alike(fs, Together::Cluster, i, i, i + 1);
    }
    // the facts that look at every face give the same answer for a face
    // wherever the face stands
    let mixed_sw_i = exists|j: int| 0 <= j < sw.len() && (#[trigger] sw[j]).1 == sw[i].1 && sw[j].0 != sw[i].0;
    let mixed_sw_n = exists|j: int| 0 <= j < sw.len() && (#[trigger] sw[j]).1 == sw[i + 1].1 && sw[j].0 != sw[i + 1].0;
    let mixed_i = exists|j: int| 0 <= j < fs.len() && (#[trigger] fs[j]).1 == fs[i].1 && fs[j].0 != fs[i].0;
    let mixed_n = exists|j: int| 0 <= j < fs.len() && (#[trigger] fs[j]).1 == fs[i + 1].1 && fs[j].0 != fs[i + 1].0;
    let frag_sw_i = exists|j: int| 0 <= j < sw.len() && (#[trigger] sw[j]).0 == sw[i].0 && sw[j].1 != sw[i].1;
    let frag_sw_n = exists|j: int| 0 <= j < sw.len() && (#[trigger] sw[j]).0 == sw[i + 1].0 && sw[j].1 != sw[i + 1].1;
    let frag_i = exists|j: int| 0 <= j < fs.len() && (#[trigger] fs[j]).0 == fs[i].0 && fs[j].1 != fs[i].1;
    let frag_n = exists|j: int| 0 <= j < fs.len() && (#[trigger] fs[j]).0 == fs[i + 1].0 && fs[j].1 != fs[i + 1].1;
    assert(mixed_sw_i == mixed_n && mixed_sw_n == mixed_i && frag_sw_i == frag_n && frag_sw_n == frag_i) by {
        assert forall|j: int| 0 <= j < fs.len() implies #[trigger] sw[swapped_index(i, j)] == fs[j] by {
            lemma_swap_entry(fs, i, swapped_index(i, j));
        }
        assert forall|j: int| 0 <= j < fs.len() implies #[trigger] fs[swapped_index(i, j)] == sw[j] by {
            lemma_swap_entry(fs, i, j);
        }
        if mixed_sw_i {
            let j = choose|j: int| 0 <= j < sw.len() && (#[trigger] sw[j]).1 == sw[i].1 && sw[j].0 != sw[i].0;
            assert(fs[swapped_index(i, j)] == sw[j]);
        }
        if mixed_n {
            let j = choose|j: int| 0 <= j < fs.len() && (#[trigger] fs[j]).1 == fs[i + 1].1 && fs[j].0 != fs[i + 1].0;
            assert(sw[swapped_index(i, j)] == fs[j]);
        }
        if mixed_sw_n {
            let j = choose|j: int| 0 <= j < sw.len() && (#[trigger] sw[j]).1 == sw[i + 1].1 && sw[j].0 != sw[i + 1].0;
            assert(fs[swapped_index(i, j)] == sw[j]);
        }
        if mixed_i {
            let j = choose|j: int| 0 <= j < fs.len() && (#[trigger] fs[j]).1 == fs[i].1 && fs[j].0 != fs[i].0;
            assert(sw[swapped_index(i, j)] == fs[j]);
        }
        if frag_sw_i {
            let j = choose|j: int| 0 <= j < sw.len() && (#[trigger] sw[j]).0 == sw[i].0 && sw[j].1 != sw[i].1;
            assert(fs[swapped_index(i, j)] == sw[j]);
        }
        if frag_n {
            let j = choose|j: int| 0 <= j < fs.len() && (#[trigger] fs[j]).0 == fs[i + 1].0 && fs[j].1 != fs[i + 1].1;
            assert(sw[swapped_index(i, j)] == fs[j]);
        }
        if frag_sw_n {
            let j = choose|j: int| 0 <= j < sw.len() && (#[trigger] sw[j]).0 == sw[i + 1].0 && sw[j].1 != sw[i + 1].1;
            assert(fs[swapped_index(i, j)] == sw[j]);
        }
        if frag_i {
            let j = choose|j: int| 0 <= j < fs.len() && (#[trigger] fs[j]).0 == fs[i].0 && fs[j].1 != fs[i].1;
            assert(sw[swapped_index(i, j)] == fs[j]);
        }
    }
    if x.1 == y.1 && x.0 != y.0 {
        assert(fs[i + 1].1 == fs[i].1 && fs[i + 1].0 != fs[i].0);
        assert(fs[i].1 == fs[i + 1].1 && fs[i].0 != fs[i + 1].0);
        assert(mixed_i && mixed_n);
    }
    if x.0 == y.0 && x.1 != y.1 {
        assert(fs[i + 1].0 == fs[i].0 && fs[i + 1].1 != fs[i].1);
        assert(fs[i].0 == fs[i + 1].0 && fs[i].1 != fs[i + 1].1);
        assert(frag_i && frag_n);
    }
}

proof fn lemma_count_facts_swap(fs: Seq<(Seq<char>, Option<i64>)>, f: FaceFact, i: int, n: int)
    requires
        0 <= i && i + 1 < fs.len(),
        0 <= n <= fs.len(),
        n != i + 1,
    ensures
        count_facts(swap_adjacent(fs, i), f, n) == count_facts(fs, f, n),
    decreases n,
{
    let sw = swap_adjacent(fs, i);
    if n > 0 {
        if n == i + 2 {
            lemma_count_facts_swap(fs, f, i, i);
            lemma_holds_swap_pair(fs, f, i);
            assert(count_facts(sw, f, i + 1) == count_facts(sw, f, i) + fact_count(sw, f, i));
            assert(count_facts(fs, f, i + 1) == count_facts(fs, f, i) + fact_count(fs, f, i));
        } else {
            lemma_count_facts_swap(fs, f, i, n - 1);
            lemma_holds_swap_far(fs, f, i, n - 1);
        }
    }
}


/// No two entries of `s` share a key.
pub open spec fn keys_distinct<A, K>(s: Seq<A>, key: spec_fn(A) -> K) -> bool {
    forall|a: int, b: int| 0 <= a < b < s.len() ==> key(#[trigger] s[a]) != key(#[trigger] s[b])
}

proof fn lemma_contains_rearranged<A>(a: Seq<A>, b: Seq<A>, x: A)
    requires
        a.to_multiset() == b.to_multiset(),
    ensures
        a.contains(x) == b.contains(x),
{
    vstd::seq_lib::to_multiset_contains(a, x);
    vstd::seq_lib::to_multiset_contains(b, x);
}

proof fn lemma_keys_distinct_rearranged<A, K>(a: Seq<A>, b: Seq<A>, key: spec_fn(A) -> K)
    requires
        a.to_multiset() == b.to_multiset(),
        keys_distinct(a, key),
    ensures
        keys_distinct(b, key),
{
    assert(a.no_duplicates()) by {
        assert forall|i: int, j: int| 0 <= i < a.len() && 0 <= j < a.len() && i != j implies a[i]
            != a[j] by {
            if i < j {
                assert(key(a[i]) != key(a[j]));
            } else {
                assert(key(a[j]) != key(a[i]));
            }
        }
    }
    a.lemma_multiset_has_no_duplicates();
    b.lemma_multiset_has_no_duplicates_conv();
    assert forall|i: int, j: int| 0 <= i < j < b.len() implies key(#[trigger] b[i]) != key(
        #[trigger] b[j],
    ) by {
        lemma_contains_rearranged(a, b, b[i]);
        lemma_contains_rearranged(a, b, b[j]);
        assert(b.contains(b[i]) && b.contains(b[j]));
        let p = choose|p: int| 0 <= p < a.len() && a[p] == b[i];
        let q = choose|q: int| 0 <= q < a.len() && a[q] == b[j];
        if p == q {
            assert(b[i] == b[j]);
        } else if p < q {
            assert(key(a[p]) != key(a[q]));
        } else {
            assert(key(a[q]) != key(a[p]));
        }
    }
}

/// The face id of a label.
pub open spec fn label_key() -> spec_fn(LabeledFace) -> i64 {
    |l: LabeledFace| l.face_id
}

/// The face id of a cluster prediction.
pub open spec fn cluster_key() -> spec_fn(ClusterPrediction) -> i64 {
    |c: ClusterPrediction| c.face_id
}

/// The face id of a suggestion.
pub open spec fn suggestion_key() -> spec_fn(SuggestionOutcome) -> i64 {
    |s: SuggestionOutcome| s.face_id
}

proof fn lemma_first_repeat_none(ids: Seq<i64>, k: int)
    requires
        0 <= k,
    ensures
        (first_repeat(ids, k) is None) == (forall|a: int, b: int|
            0 <= a < b < ids.len() && k <= b ==> ids[a] != ids[b]),
    decreases ids.len() - k,
{
    if k < ids.len() {
        lemma_first_repeat_none(ids, k + 1);
        if exists|j: int| 0 <= j < k && ids[j] == ids[k] {
            let j = choose|j: int| 0 <= j < k && ids[j] == ids[k];
            assert(!(forall|a: int, b: int| 0 <= a < b < ids.len() && k <= b ==> ids[a] != ids[b]));
        }
    }
}

proof fn lemma_first_cluster_problem_none(truth: Seq<i64>, c: Seq<ClusterPrediction>, k: int)
    requires
        0 <= k,
    ensures
        (first_cluster_problem(truth, c, k) is None) == (forall|b: int|
            k <= b < c.len() ==> #[trigger] cluster_problem(truth, c, b) is None),
    decreases c.len() - k,
{
    if k < c.len() {
        lemma_first_cluster_problem_none(truth, c, k + 1);
    }
}

proof fn lemma_first_suggestion_problem_none(
    truth: Seq<i64>,
    s: Seq<crate::face_learning::metrics::SuggestionCheck>,
    k: int,
)
    requires
        0 <= k,
    ensures
        (first_suggestion_problem(truth, s, k) is None) == (forall|b: int|
            k <= b < s.len() ==> #[trigger] suggestion_check_problem(truth, s, b) is None),
    decreases s.len() - k,
{
    if k < s.len() {
        lemma_first_suggestion_problem_none(truth, s, k + 1);
    }
}

proof fn lemma_min_uncovered_none(ids: Seq<i64>, covered: Seq<i64>)
    ensures
        (min_uncovered(ids, covered) is None) == (forall|x: i64| ids.contains(x) ==> covered.contains(x)),
    decreases ids.len(),
{
    if ids.len() > 0 {
        let rest = ids.drop_last();
        lemma_min_uncovered_none(rest, covered);
        assert(ids =~= rest.push(ids.last()));
        if !(forall|x: i64| rest.contains(x) ==> covered.contains(x)) {
            let x = choose|x: i64| rest.contains(x) && !covered.contains(x);
            let q = choose|q: int| 0 <= q < rest.len() && rest[q] == x;
            assert(ids[q] == x);
        }
        assert forall|x: i64| ids.contains(x) implies (rest.contains(x) || x == ids.last()) by {
            let q = choose|q: int| 0 <= q < ids.len() && ids[q] == x;
            if q < rest.len() {
                assert(rest[q] == x);
            }
        }
    }
}

proof fn lemma_outcome_of_found(c: Seq<ClusterPrediction>, id: i64, k: int)
    requires
        keys_distinct(c, cluster_key()),
        0 <= k < c.len(),
        c[k].face_id == id,
    ensures
        outcome_of(c, id) == c[k].cluster_id,
    decreases c.len(),
{
    if k < c.len() - 1 {
        assert(cluster_key()(c[k]) != cluster_key()(c[c.len() - 1]));
        let p = c.drop_last();
        assert forall|a: int, b: int| 0 <= a < b < p.len() implies cluster_key()(#[trigger] p[a])
            != cluster_key()(#[trigger] p[b]) by {
            assert(p[a] == c[a] && p[b] == c[b]);
        }
        lemma_outcome_of_found(p, id, k);
    }
}

proof fn lemma_outcome_of_absent(c: Seq<ClusterPrediction>, id: i64)
    requires
        forall|k: int| 0 <= k < c.len() ==> (#[trigger] c[k]).face_id != id,
    ensures
        outcome_of(c, id) is None,
    decreases c.len(),
{
    if c.len() > 0 {
        assert(c[c.len() - 1].face_id != id);
        lemma_outcome_of_absent(c.drop_last(), id);
    }
}

proof fn lemma_outcome_of_rearranged(c1: Seq<ClusterPrediction>, c2: Seq<ClusterPrediction>, id: i64)
    requires
        c1.to_multiset() == c2.to_multiset(),
        keys_distinct(c1, cluster_key()),
        keys_distinct(c2, cluster_key()),
    ensures
        outcome_of(c1, id) == outcome_of(c2, id),
{
    if exists|k: int| 0 <= k < c2.len() && (#[trigger] c2[k]).face_id == id {
        let k = choose|k: int| 0 <= k < c2.len() && (#[trigger] c2[k]).face_id == id;
        lemma_contains_rearranged(c1, c2, c2[k]);
        assert(c2.contains(c2[k]));
        let p = choose|p: int| 0 <= p < c1.len() && c1[p] == c2[k];
        lemma_outcome_of_found(c1, id, p);
        lemma_outcome_of_found(c2, id, k);
    } else {
        if exists|k: int| 0 <= k < c1.len() && (#[trigger] c1[k]).face_id == id {
            let k = choose|k: int| 0 <= k < c1.len() && (#[trigger] c1[k]).face_id == id;
            lemma_contains_rearranged(c1, c2, c1[k]);
            assert(c1.contains(c1[k]));
            let p = choose|p: int| 0 <= p < c2.len() && c2[p] == c1[k];
            assert(c2[p].face_id == id);
        }
        lemma_outcome_of_absent(c1, id);
        lemma_outcome_of_absent(c2, id);
    }
}

proof fn lemma_truth_identity_found(l: Seq<LabeledFace>, id: i64, k: int)
    requires
        keys_distinct(l, label_key()),
        0 <= k < l.len(),
        l[k].face_id == id,
    ensures
        truth_identity(l, id) == Some(l[k].identity@),
    decreases l.len(),
{
    if k < l.len() - 1 {
        assert(label_key()(l[k]) != label_key()(l[l.len() - 1]));
        let p = l.drop_last();
        assert forall|a: int, b: int| 0 <= a < b < p.len() implies label_key()(#[trigger] p[a])
            != label_key()(#[trigger] p[b]) by {
            assert(p[a] == l[a] && p[b] == l[b]);
        }
        lemma_truth_identity_found(p, id, k);
    }
}

proof fn lemma_truth_identity_absent(l: Seq<LabeledFace>, id: i64)
    requires
        forall|k: int| 0 <= k < l.len() ==> (#[trigger] l[k]).face_id != id,
    ensures
        truth_identity(l, id) is None,
    decreases l.len(),
{
    if l.len() > 0 {
        assert(l[l.len() - 1].face_id != id);
        lemma_truth_identity_absent(l.drop_last(), id);
    }
}

proof fn lemma_truth_identity_rearranged(l1: Seq<LabeledFace>, l2: Seq<LabeledFace>, id: i64)
    requires
        l1.to_multiset() == l2.to_multiset(),
        keys_distinct(l1, label_key()),
        keys_distinct(l2, label_key()),
    ensures
        truth_identity(l1, id) == truth_identity(l2, id),
{
    if exists|k: int| 0 <= k < l2.len() && (#[trigger] l2[k]).face_id == id {
        let k = choose|k: int| 0 <= k < l2.len() && (#[trigger] l2[k]).face_id == id;
        lemma_contains_rearranged(l1, l2, l2[k]);
        assert(l2.contains(l2[k]));
        let p = choose|p: int| 0 <= p < l1.len() && l1[p] == l2[k];
        lemma_truth_identity_found(l1, id, p);
        lemma_truth_identity_found(l2, id, k);
    } else {
        if exists|k: int| 0 <= k < l1.len() && (#[trigger] l1[k]).face_id == id {
            let k = choose|k: int| 0 <= k < l1.len() && (#[trigger] l1[k]).face_id == id;
            lemma_contains_rearranged(l1, l2, l1[k]);
            assert(l1.contains(l1[k]));
            let p = choose|p: int| 0 <= p < l2.len() && l2[p] == l1[k];
            assert(l2[p].face_id == id);
        }
        lemma_truth_identity_absent(l1, id);
        lemma_truth_identity_absent(l2, id);
    }
}


proof fn lemma_outcomes_swap(l: Seq<LabeledFace>, c: Seq<ClusterPrediction>, i: int)
    requires
        0 <= i && i + 1 < l.len(),
    ensures
        outcomes(swap_adjacent(l, i), c) == swap_adjacent(outcomes(l, c), i),
{
    let a = outcomes(swap_adjacent(l, i), c);
    let b = swap_adjacent(outcomes(l, c), i);
    assert forall|k: int| 0 <= k < l.len() implies a[k] == b[k] by {
        lemma_swap_entry(l, i, k);
        lemma_swap_entry(outcomes(l, c), i, k);
    }
    assert(a =~= b);
}

proof fn lemma_count_verdict_swap(
    l: Seq<LabeledFace>,
    ss: Seq<SuggestionOutcome>,
    v: u8,
    i: int,
    n: int,
)
    requires
        0 <= i && i + 1 < ss.len(),
        0 <= n <= ss.len(),
        n != i + 1,
    ensures
        count_verdict(l, swap_adjacent(ss, i), v, n) == count_verdict(l, ss, v, n),
    decreases n,
{
    let sw = swap_adjacent(ss, i);
    if n > 0 {
        if n == i + 2 {
            lemma_count_verdict_swap(l, ss, v, i, i);
            lemma_swap_entry(ss, i, i);
            lemma_swap_entry(ss, i, i + 1);
            assert(count_verdict(l, sw, v, i + 1) == count_verdict(l, sw, v, i) + (if verdict(l, sw[i])
                == v {
                1nat
            } else {
                0nat
            }));
            assert(count_verdict(l, ss, v, i + 1) == count_verdict(l, ss, v, i) + (if verdict(l, ss[i])
                == v {
                1nat
            } else {
                0nat
            }));
        } else {
            lemma_count_verdict_swap(l, ss, v, i, n - 1);
            lemma_swap_entry(ss, i, n - 1);
        }
    }
}

proof fn lemma_count_verdict_same_truth(
    l1: Seq<LabeledFace>,
    l2: Seq<LabeledFace>,
    ss: Seq<SuggestionOutcome>,
    v: u8,
    n: int,
)
    requires
        forall|id: i64| truth_identity(l1, id) == truth_identity(l2, id),
    ensures
        count_verdict(l1, ss, v, n) == count_verdict(l2, ss, v, n),
    decreases n,
{
    if n > 0 {
        lemma_count_verdict_same_truth(l1, l2, ss, v, n - 1);
        assert(truth_identity(l1, ss[n - 1].face_id) == truth_identity(l2, ss[n - 1].face_id));
    }
}

proof fn lemma_truth_rearranged(l1: Seq<LabeledFace>, l2: Seq<LabeledFace>, x: i64)
    requires
        l1.to_multiset() == l2.to_multiset(),
    ensures
        label_ids(l1).contains(x) == label_ids(l2).contains(x),
{
    if label_ids(l1).contains(x) {
        let p = choose|p: int| 0 <= p < label_ids(l1).len() && label_ids(l1)[p] == x;
        lemma_contains_rearranged(l1, l2, l1[p]);
        assert(l1.contains(l1[p]));
        let q = choose|q: int| 0 <= q < l2.len() && l2[q] == l1[p];
        assert(label_ids(l2)[q] == x);
    }
    if label_ids(l2).contains(x) {
        let p = choose|p: int| 0 <= p < label_ids(l2).len() && label_ids(l2)[p] == x;
        lemma_contains_rearranged(l1, l2, l2[p]);
        assert(l2.contains(l2[p]));
        let q = choose|q: int| 0 <= q < l1.len() && l1[q] == l2[p];
        assert(label_ids(l1)[q] == x);
    }
}

/// Evaluation does not depend on the order of its inputs: where predictions
/// can be evaluated, the same labels, cluster predictions and suggestions
/// in any other order can be evaluated too, and give the same clustering
/// counts and the same suggestion verdict counts.
pub proof fn lemma_evaluation_ignores_input_order(
    l1: Seq<LabeledFace>,
    c1: Seq<ClusterPrediction>,
    s1: Seq<SuggestionOutcome>,
    l2: Seq<LabeledFace>,
    c2: Seq<ClusterPrediction>,
    s2: Seq<SuggestionOutcome>,
)
    requires
        l1.to_multiset() == l2.to_multiset(),
        c1.to_multiset() == c2.to_multiset(),
        s1.to_multiset() == s2.to_multiset(),
        prediction_problem(l1, c1, checks_of(s1)) is None,
    ensures
        prediction_problem(l2, c2, checks_of(s2)) is None,
        l2.len() == l1.len(),
        s2.len() == s1.len(),
        forall|c: ClusteringCounts|
            clustering_counts_of(outcomes(l1, c1), c) == clustering_counts_of(outcomes(l2, c2), c),
        forall|v: u8|
            count_verdict(l1, s1, v, s1.len() as int) == count_verdict(l2, s2, v, s2.len() as int),
{
    vstd::seq_lib::to_multiset_len(l1);
    vstd::seq_lib::to_multiset_len(l2);
    vstd::seq_lib::to_multiset_len(c1);
    vstd::seq_lib::to_multiset_len(c2);
    vstd::seq_lib::to_multiset_len(s1);
    vstd::seq_lib::to_multiset_len(s2);
    let t1 = label_ids(l1);
    let t2 = label_ids(l2);
    let k1 = checks_of(s1);
    let k2 = checks_of(s2);
    // what the first evaluation's checks found
    lemma_first_repeat_none(t1, 0);
    lemma_first_cluster_problem_none(t1, c1, 0);
    lemma_min_uncovered_none(t1, predicted_ids(c1));
    lemma_first_suggestion_problem_none(t1, k1, 0);
    assert(keys_distinct(l1, label_key())) by {
        assert forall|a: int, b: int| 0 <= a < b < l1.len() implies label_key()(#[trigger] l1[a])
            != label_key()(#[trigger] l1[b]) by {
            assert(t1[a] != t1[b]);
        }
    }
    assert(keys_distinct(c1, cluster_key())) by {
        assert forall|a: int, b: int| 0 <= a < b < c1.len() implies cluster_key()(#[trigger] c1[a])
            != cluster_key()(#[trigger] c1[b]) by {
            assert(cluster_problem(t1, c1, b) is None);
        }
    }
    assert(keys_distinct(s1, suggestion_key())) by {
        assert forall|a: int, b: int| 0 <= a < b < s1.len() implies suggestion_key()(#[trigger] s1[a])
            != suggestion_key()(#[trigger] s1[b]) by {
            assert(suggestion_check_problem(t1, k1, b) is None);
            assert(k1[a].face_id == s1[a].face_id);
        }
    }
    lemma_keys_distinct_rearranged(l1, l2, label_key());
    lemma_keys_distinct_rearranged(c1, c2, cluster_key());
    lemma_keys_distinct_rearranged(s1, s2, suggestion_key());
    // the same checks pass on the rearranged inputs
    lemma_first_repeat_none(t2, 0);
    assert forall|a: int, b: int| 0 <= a < b < t2.len() implies t2[a] != t2[b] by {
        assert(label_key()(l2[a]) != label_key()(l2[b]));
    }
    assert forall|b: int| 0 <= b < c2.len() implies #[trigger] cluster_problem(t2, c2, b) is None by {
        lemma_contains_rearranged(c1, c2, c2[b]);
        assert(c2.contains(c2[b]));
        let p = choose|p: int| 0 <= p < c1.len() && c1[p] == c2[b];
        assert(cluster_problem(t1, c1, p) is None);
        lemma_truth_rearranged(l1, l2, c2[b].face_id);
        assert forall|j: int| 0 <= j < b implies (#[trigger] c2[j]).face_id != c2[b].face_id by {
            assert(cluster_key()(c2[j]) != cluster_key()(c2[b]));
        }
    }
    lemma_first_cluster_problem_none(t2, c2, 0);
    assert forall|x: i64| t2.contains(x) implies predicted_ids(c2).contains(x) by {
        lemma_truth_rearranged(l1, l2, x);
        let p = choose|p: int| 0 <= p < predicted_ids(c1).len() && predicted_ids(c1)[p] == x;
        lemma_contains_rearranged(c1, c2, c1[p]);
        assert(c1.contains(c1[p]));
        let q = choose|q: int| 0 <= q < c2.len() && c2[q] == c1[p];
        assert(predicted_ids(c2)[q] == x);
    }
    lemma_min_uncovered_none(t2, predicted_ids(c2));
    assert forall|b: int| 0 <= b < k2.len() implies #[trigger] suggestion_check_problem(t2, k2, b)
        is None by {
        lemma_contains_rearranged(s1, s2, s2[b]);
        assert(s2.contains(s2[b]));
        let p = choose|p: int| 0 <= p < s1.len() && s1[p] == s2[b];
        assert(suggestion_check_problem(t1, k1, p) is None);
        assert(k1[p].face_id == s1[p].face_id && k2[b].face_id == s2[b].face_id);
        lemma_truth_rearranged(l1, l2, s2[b].face_id);
        assert forall|j: int| 0 <= j < b implies (#[trigger] k2[j]).face_id != k2[b].face_id by {
            assert(suggestion_key()(s2[j]) != suggestion_key()(s2[b]));
        }
    }
    lemma_first_suggestion_problem_none(t2, k2, 0);
    // the counts
    assert forall|id: i64| outcome_of(c1, id) == outcome_of(c2, id) by {
        lemma_outcome_of_rearranged(c1, c2, id);
    }
    assert(outcomes(l2, c2) =~= outcomes(l2, c1));
    let fs1 = outcomes(l1, c1);
    let fs2 = outcomes(l2, c2);
    assert forall|t: Together| pair_total(fs1, t, fs1.len() as int) == pair_total(fs2, t, fs2.len() as int) by {
        let f = |l: Seq<LabeledFace>| pair_total(outcomes(l, c1), t, l.len() as int) as int;
        assert forall|s: Seq<LabeledFace>, i: int| 0 <= i && i + 1 < s.len() implies #[trigger] f(
            swap_adjacent(s, i),
        ) == f(s) by {
            lemma_outcomes_swap(s, c1, i);
            lemma_pair_total_swap(outcomes(s, c1), t, i, s.len() as int);
        }
        lemma_rearrangement(l1, l2, f);
    }
    assert forall|ff: FaceFact| count_facts(fs1, ff, fs1.len() as int) == count_facts(fs2, ff, fs2.len() as int) by {
        let f = |l: Seq<LabeledFace>| count_facts(outcomes(l, c1), ff, l.len() as int) as int;
        assert forall|s: Seq<LabeledFace>, i: int| 0 <= i && i + 1 < s.len() implies #[trigger] f(
            swap_adjacent(s, i),
        ) == f(s) by {
            lemma_outcomes_swap(s, c1, i);
            lemma_count_facts_swap(outcomes(s, c1), ff, i, s.len() as int);
        }
        lemma_rearrangement(l1, l2, f);
    }
    assert forall|c: ClusteringCounts| clustering_counts_of(fs1, c) == clustering_counts_of(fs2, c) by {
        assert(pair_total(fs1, Together::Cell, fs1.len() as int) == pair_total(fs2, Together::Cell, fs2.len() as int));
        assert(pair_total(fs1, Together::Cluster, fs1.len() as int) == pair_total(fs2, Together::Cluster, fs2.len() as int));
        assert(pair_total(fs1, Together::Identity, fs1.len() as int) == pair_total(fs2, Together::Identity, fs2.len() as int));
        assert(count_facts(fs1, FaceFact::FirstOfIdentity, fs1.len() as int) == count_facts(fs2, FaceFact::FirstOfIdentity, fs2.len() as int));
        assert(count_facts(fs1, FaceFact::FirstOfCluster, fs1.len() as int) == count_facts(fs2, FaceFact::FirstOfCluster, fs2.len() as int));
        assert(count_facts(fs1, FaceFact::MixedCluster, fs1.len() as int) == count_facts(fs2, FaceFact::MixedCluster, fs2.len() as int));
        assert(count_facts(fs1, FaceFact::FragmentedIdentity, fs1.len() as int) == count_facts(fs2, FaceFact::FragmentedIdentity, fs2.len() as int));
        assert(count_facts(fs1, FaceFact::Unassigned, fs1.len() as int) == count_facts(fs2, FaceFact::Unassigned, fs2.len() as int));
    }
    assert forall|id: i64| truth_identity(l1, id) == truth_identity(l2, id) by {
        lemma_truth_identity_rearranged(l1, l2, id);
    }
    assert forall|v: u8| count_verdict(l1, s1, v, s1.len() as int) == count_verdict(l2, s2, v, s2.len() as int) by {
        lemma_count_verdict_same_truth(l1, l2, s1, v, s1.len() as int);
        let f = |s: Seq<SuggestionOutcome>| count_verdict(l2, s, v, s.len() as int) as int;
        assert forall|s: Seq<SuggestionOutcome>, i: int| 0 <= i && i + 1 < s.len() implies #[trigger] f(
            swap_adjacent(s, i),
        ) == f(s) by {
            lemma_count_verdict_swap(l2, s, v, i, s.len() as int);
        }
        lemma_rearrangement(s1, s2, f);
    }
}

} // verus!

//! Labels of clustered faces: ascending ids for the clusters large enough
//! to keep, nothing for the rest.

use vstd::prelude::*;

verus! {

/// Whether `members` holds the position `i`.
pub open spec fn holds(members: Seq<usize>, i: int) -> bool {
    exists|k: int| 0 <= k < members.len() && (#[trigger] members[k]) as int == i
}

/// `labels` with every position of `members` labelled `id`.
pub open spec fn label_members(labels: Seq<Option<i64>>, members: Seq<usize>, id: int) -> Seq<
    Option<i64>,
> {
    Seq::new(labels.len(), |i: int| if holds(members, i) { Some(id as i64) } else { labels[i] })
}

/// The labels of `n` points after the clusters in order, and the next id:
/// each cluster with at least `min` members labels its members with the
/// next id, a smaller one labels nothing.
pub open spec fn cluster_labels(n: nat, clusters: Seq<Seq<usize>>, min: usize) -> (Seq<Option<i64>>, int)
    decreases clusters.len(),
{
    if clusters.len() == 0 {
        (Seq::new(n, |i: int| None), 0)
    } else {
        let (labels, next) = cluster_labels(n, clusters.drop_last(), min);
        let members = clusters.last();
        if members.len() < min {
            (labels, next)
        } else {
            (label_members(labels, members, next), next + 1)
        }
    }
}

/// The clusters kept: those with at least `min` members.
pub open spec fn kept(clusters: Seq<Seq<usize>>, min: usize) -> int
    decreases clusters.len(),
{
    if clusters.len() == 0 {
        0
    } else {
        kept(clusters.drop_last(), min) + if clusters.last().len() < min {
            0int
        } else {
            1int
        }
    }
}

/// The views of a vector of clusters.
pub open spec fn clusters_view(clusters: Seq<Vec<usize>>) -> Seq<Seq<usize>> {
    clusters.map_values(|c: Vec<usize>| c@)
}

/// Labels are the ids of kept clusters: a point in no kept cluster has
/// none, and every label is below the number of kept clusters.
pub proof fn lemma_labels_come_from_kept_clusters(n: nat, clusters: Seq<Seq<usize>>, min: usize)
    requires
        clusters.len() <= i64::MAX,
    ensures
        0 <= kept(clusters, min) <= clusters.len(),
        cluster_labels(n, clusters, min).0.len() == n,
        cluster_labels(n, clusters, min).1 == kept(clusters, min),
        forall|i: int|
            0 <= i < n && (forall|c: int|
                0 <= c < clusters.len() && clusters[c].len() >= min ==> !holds(
                    #[trigger] clusters[c],
                    i,
                )) ==> (#[trigger] cluster_labels(n, clusters, min).0[i]) is None,
        forall|i: int|
            0 <= i < n && (#[trigger] cluster_labels(n, clusters, min).0[i]) is Some ==> 0
                <= cluster_labels(n, clusters, min).0[i]->0 < kept(clusters, min),
    decreases clusters.len(),
{
    if clusters.len() > 0 {
        let prefix = clusters.drop_last();
        lemma_labels_come_from_kept_clusters(n, prefix, min);
        let (labels, next) = cluster_labels(n, prefix, min);
        assert forall|i: int|
            0 <= i < n && (forall|c: int|
                0 <= c < clusters.len() && clusters[c].len() >= min ==> !holds(
                    #[trigger] clusters[c],
                    i,
                )) implies (#[trigger] cluster_labels(n, clusters, min).0[i]) is None by {
            assert forall|c: int|
                0 <= c < prefix.len() && prefix[c].len() >= min implies !holds(
                #[trigger] prefix[c],
                i,
            ) by {
                assert(prefix[c] == clusters[c]);
            }
            assert(clusters.last() == clusters[clusters.len() - 1]);
        }
        assert forall|i: int|
            0 <= i < n && (#[trigger] cluster_labels(n, clusters, min).0[i]) is Some implies 0
                <= cluster_labels(n, clusters, min).0[i]->0 < kept(clusters, min) by {
            if clusters.last().len() >= min && holds(clusters.last(), i) {
                assert(cluster_labels(n, clusters, min).0[i] == Some(next as i64));
            } else {
                assert(cluster_labels(n, clusters, min).0[i] == labels[i]);
            }
        }
    }
}

/// How many of the first `c` clusters have at least `min` members.
pub open spec fn kept_among(clusters: Seq<Seq<usize>>, c: int, min: usize) -> int
    decreases c,
{
    if c <= 0 {
        0
    } else {
        kept_among(clusters, c - 1, min) + if clusters[c - 1].len() >= min {
            1int
        } else {
            0int
        }
    }
}

proof fn lemma_kept_among_prefix(clusters: Seq<Seq<usize>>, m: int, c: int, min: usize)
    requires
        0 <= c <= m <= clusters.len(),
    ensures
        kept_among(clusters.take(m), c, min) == kept_among(clusters, c, min),
    decreases c,
{
    if c > 0 {
        lemma_kept_among_prefix(clusters, m, c - 1, min);
    }
}

/// Every point that a cluster with at least `min` members holds is labelled,
/// and its label is the id of the last such cluster that holds it: the
/// number of clusters with at least `min` members that come before that
/// cluster. The next id is the number of such clusters.
pub proof fn lemma_members_of_kept_clusters_are_labelled(
    n: nat,
    clusters: Seq<Seq<usize>>,
    min: usize,
)
    ensures
        cluster_labels(n, clusters, min).0.len() == n,
        cluster_labels(n, clusters, min).1 == kept_among(clusters, clusters.len() as int, min),
        forall|i: int, c: int|
            #![trigger cluster_labels(n, clusters, min).0[i], clusters[c]]
            0 <= i < n && 0 <= c < clusters.len() && clusters[c].len() >= min && holds(clusters[c], i)
                && (forall|d: int|
                c < d < clusters.len() && clusters[d].len() >= min ==> !holds(
                    #[trigger] clusters[d],
                    i,
                )) ==> cluster_labels(n, clusters, min).0[i] == Some(
                kept_among(clusters, c, min) as i64,
            ),
    decreases clusters.len(),
{
    if clusters.len() > 0 {
        let last = clusters.len() - 1;
        let prefix = clusters.drop_last();
        lemma_members_of_kept_clusters_are_labelled(n, prefix, min);
        assert(prefix =~= clusters.take(last));
        lemma_kept_among_prefix(clusters, last, last, min);
        assert(clusters.last() == clusters[last]);
        let (labels, next) = cluster_labels(n, prefix, min);
        assert forall|i: int, c: int|
            #![trigger cluster_labels(n, clusters, min).0[i], clusters[c]]
            0 <= i < n && 0 <= c < clusters.len() && clusters[c].len() >= min && holds(clusters[c], i)
                && (forall|d: int|
                c < d < clusters.len() && clusters[d].len() >= min ==> !holds(
                    #[trigger] clusters[d],
                    i,
                )) implies cluster_labels(n, clusters, min).0[i] == Some(
            kept_among(clusters, c, min) as i64,
        ) by {
            if c < last {
                lemma_kept_among_prefix(clusters, last, c, min);
                assert(prefix[c] == clusters[c]);
                assert forall|d: int|
                    c < d < prefix.len() && prefix[d].len() >= min implies !holds(
                    #[trigger] prefix[d],
                    i,
                ) by {
                    assert(prefix[d] == clusters[d]);
                }
                assert(labels[i] == Some(kept_among(prefix, c, min) as i64));
                if clusters[last].len() >= min {
                    assert(!holds(clusters[last], i));
                }
            }
        }
    }
}

/// Give each point its cluster's id: clusters with at least `min_samples`
/// members get ascending ids from 0 in the order given, points of smaller
/// clusters (and of none) get `None`. The labels come back in the order of
/// `ids`, each with its point's id.
pub fn label_clusters(ids: &[i64], clusters: &Vec<Vec<usize>>, min_samples: usize) -> (r: Vec<
    (i64, Option<i64>),
>)
    requires
        clusters.len() <= i64::MAX,
        forall|c: int, k: int|
            0 <= c < clusters@.len() && 0 <= k < clusters@[c]@.len() ==> #[trigger] clusters@[c]@[k]
                < ids.len(),
    ensures
        r@.len() == ids@.len(),
        forall|i: int|
            0 <= i < ids@.len() ==> #[trigger] r@[i] == (
                ids@[i],
                cluster_labels(ids@.len(), clusters_view(clusters@), min_samples).0[i],
            ),
{
    let n = ids.len();
    let ghost cs = clusters_view(clusters@);
    let mut labels: Vec<Option<i64>> = Vec::new();
    let mut i: usize = 0;
    while i < n
        invariant
            i <= n,
            n == ids@.len(),
            labels@ == Seq::new(i as nat, |j: int| None::<i64>),
        decreases n - i,
    {
        labels.push(None);
        i = i + 1;
        assert(labels@ =~= Seq::new(i as nat, |j: int| None::<i64>));
    }
    let mut next: i64 = 0;
    let mut c: usize = 0;
    assert(cs.take(0) =~= Seq::<Seq<usize>>::empty());
    while c < clusters.len()
        invariant
            c <= clusters@.len(),
            n == ids@.len(),
            clusters@.len() <= i64::MAX,
            cs == clusters_view(clusters@),
            cs.len() == clusters@.len(),
            forall|x: int, k: int|
                0 <= x < clusters@.len() && 0 <= k < clusters@[x]@.len() ==> #[trigger] clusters@[x]@[k]
                    < n,
            (labels@, next as int) == cluster_labels(n as nat, cs.take(c as int), min_samples),
            labels@.len() == n,
            0 <= next <= c,
        decreases clusters@.len() - c,
    {
        let members = &clusters[c];
        assert(cs[c as int] == members@);
        assert(cs.take(c + 1).drop_last() =~= cs.take(c as int));
        assert(cs.take(c + 1).last() == members@);
        if members.len() >= min_samples {
            let ghost before = labels@;
            let mut k: usize = 0;
            while k < members.len()
                invariant
                    k <= members@.len(),
                    members@ == clusters@[c as int]@,
                    c < clusters@.len(),
                    n == ids@.len(),
                    forall|x: int, j: int|
                        0 <= x < clusters@.len() && 0 <= j < clusters@[x]@.len()
                            ==> #[trigger] clusters@[x]@[j] < n,
                    before.len() == n,
                    labels@ == label_members(before, members@.take(k as int), next as int),
                decreases members@.len() - k,
            {
                let idx = members[k];
                assert(clusters@[c as int]@[k as int] < n);
                labels.set(idx, Some(next));
                k = k + 1;
                assert forall|j: int| 0 <= j < labels@.len() implies labels@[j] == label_members(
                    before,
                    members@.take(k as int),
                    next as int,
                )[j] by {
                    if holds(members@.take(k as int), j) && j != idx as int {
                        let w = choose|w: int|
                            0 <= w < members@.take(k as int).len() && (#[trigger] members@.take(k as int)[w]) as int
                                == j;
                        assert(w != k - 1);
                        assert(members@.take(k - 1)[w] == members@.take(k as int)[w]);
                    }
                    if holds(members@.take(k - 1), j) {
                        let w = choose|w: int|
                            0 <= w < members@.take(k - 1).len() && (#[trigger] members@.take(k - 1)[w]) as int
                                == j;
                        assert(members@.take(k as int)[w] == members@.take(k - 1)[w]);
                    }
                    if j == idx as int {
                        assert(members@.take(k as int)[k - 1] == idx);
                    }
                }
                assert(labels@ =~= label_members(before, members@.take(k as int), next as int));
            }
            assert(members@.take(members@.len() as int) =~= members@);
            next = next + 1;
        }
        c = c + 1;
    }
    assert(cs.take(clusters@.len() as int) =~= cs);
    let mut out: Vec<(i64, Option<i64>)> = Vec::new();
    let mut i: usize = 0;
    while i < n
        invariant
            i <= n,
            n == ids@.len(),
            labels@.len() == n,
            out@.len() == i,
            forall|j: int| 0 <= j < i ==> #[trigger] out@[j] == (ids@[j], labels@[j]),
        decreases n - i,
    {
        out.push((ids[i], labels[i]));
        i = i + 1;
    }
    out
}

} // verus!

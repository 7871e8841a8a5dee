use videre_core::face_cluster::label_clusters;
use videre_core::face_match::greedy_assign;

#[test]
fn greedy_takes_the_best_pair_first_and_never_reuses_a_face() {
    // Region 0 ranks face 1 first, then region 1 also wants face 1.
    let ranked = vec![(0, 1), (1, 1), (1, 0), (0, 0)];
    assert_eq!(greedy_assign(&ranked, 2, 2), vec![Some(1), Some(0)]);
}

#[test]
fn greedy_leaves_a_region_without_candidates_unmatched() {
    assert_eq!(greedy_assign(&vec![], 1, 1), vec![None]);
    let ranked = vec![(0, 0), (1, 0)];
    assert_eq!(greedy_assign(&ranked, 3, 1), vec![Some(0), None, None]);
}

#[test]
fn greedy_never_gives_a_region_two_faces() {
    let ranked = vec![(0, 0), (0, 1), (1, 1)];
    assert_eq!(greedy_assign(&ranked, 2, 2), vec![Some(0), Some(1)]);
}

#[test]
fn large_clusters_get_ascending_ids_and_small_ones_are_noise() {
    let ids = [10, 11, 12, 13, 14];
    let clusters = vec![vec![0, 2], vec![1], vec![3, 4]];
    assert_eq!(
        label_clusters(&ids, &clusters, 2),
        vec![
            (10, Some(0)),
            (11, None),
            (12, Some(0)),
            (13, Some(1)),
            (14, Some(1)),
        ]
    );
}

#[test]
fn a_point_in_no_cluster_is_noise() {
    let ids = [1, 2, 3];
    let clusters = vec![vec![2, 0]];
    assert_eq!(
        label_clusters(&ids, &clusters, 1),
        vec![(1, Some(0)), (2, None), (3, Some(0))]
    );
    assert_eq!(label_clusters(&[], &vec![], 1), vec![]);
}

#[test]
fn min_samples_of_one_keeps_every_singleton() {
    let ids = [5, 6];
    let clusters = vec![vec![1], vec![0]];
    assert_eq!(label_clusters(&ids, &clusters, 1), vec![(5, Some(1)), (6, Some(0))]);
}

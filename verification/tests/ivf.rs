use turbo_vec::index::ivf::{cluster_sizes, farthest_point, nearest_centroid};

#[test]
fn nearest_centroid_takes_last_of_equal_best() {
    assert_eq!(nearest_centroid(&[3, 9, 1, 9, 2]), 3);
    assert_eq!(nearest_centroid(&[7]), 0);
    assert_eq!(nearest_centroid(&[]), 0);
}

#[test]
fn farthest_point_takes_first_of_equal_best() {
    assert_eq!(farthest_point(&[3, 9, 1, 9, 2]), 1);
    assert_eq!(farthest_point(&[]), 0);
}

#[test]
fn cluster_sizes_count_each_cluster() {
    assert_eq!(cluster_sizes(&[0, 2, 2, 1, 2, 0], 4), vec![2, 1, 3, 0]);
    assert_eq!(cluster_sizes(&[], 2), vec![0, 0]);
}

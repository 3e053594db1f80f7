use aqua3d::clustering::{dbscan, PointSet};
use aqua3d::errors::Aqua3dError;

#[test]
fn two_tight_clusters_far_apart() {
    // Coordinates in tenths: pairwise distances below 1.0, clusters 100.0 apart.
    let a = [(0, 0), (5, 0), (0, 5), (5, 5), (3, 3)];
    let mut coords = Vec::new();
    for &(x, y) in a.iter() {
        coords.push(x);
        coords.push(y);
    }
    for &(x, y) in a.iter() {
        coords.push(x + 1000);
        coords.push(y);
    }
    let points = PointSet { count: 10, dim: 2, coords };
    let labels = dbscan(&points, 20, 3).unwrap();
    assert_eq!(labels, vec![1, 1, 1, 1, 1, 6, 6, 6, 6, 6]);
}

#[test]
fn spread_points_are_noise() {
    // Five points, each 50.0 from every other (units of 1/1000, five dimensions).
    let mut coords = vec![0i32; 25];
    for i in 0..5 {
        coords[i * 5 + i] = 35355;
    }
    let points = PointSet { count: 5, dim: 5, coords };
    assert_eq!(dbscan(&points, 1000, 2).unwrap(), vec![0, 0, 0, 0, 0]);
}

#[test]
fn border_point_joins_first_core_point() {
    // 1-D: a dense group at 0..2, a border point at 4, a lone point at 20.
    let points = PointSet { count: 5, dim: 1, coords: vec![0, 1, 2, 4, 20] };
    assert_eq!(dbscan(&points, 2, 3).unwrap(), vec![1, 1, 1, 1, 0]);
}

#[test]
fn chain_of_core_points_is_one_cluster() {
    let coords: Vec<i32> = (0..30).collect();
    let points = PointSet { count: 30, dim: 1, coords };
    let labels = dbscan(&points, 1, 3).unwrap();
    assert!(labels.iter().all(|&l| l == 2));
}

#[test]
fn repeated_runs_give_the_same_labels() {
    let coords = vec![3, 4, 9, 10, 11, 30, 31, 50, 2, 12];
    let points = PointSet { count: 10, dim: 1, coords };
    let first = dbscan(&points, 1, 2).unwrap();
    for _ in 0..5 {
        assert_eq!(dbscan(&points, 1, 2).unwrap(), first);
    }
    assert_eq!(first, vec![1, 1, 3, 3, 3, 6, 6, 0, 1, 3]);
}

#[test]
fn coordinate_count_must_match() {
    let points = PointSet { count: 3, dim: 2, coords: vec![1, 2, 3, 4, 5] };
    assert_eq!(dbscan(&points, 1, 1), Err(Aqua3dError::ShapeMismatch));
    let empty = PointSet { count: 0, dim: 2, coords: vec![] };
    assert_eq!(dbscan(&empty, 1, 1), Err(Aqua3dError::ShapeMismatch));
}

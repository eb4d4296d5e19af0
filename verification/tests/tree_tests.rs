use pca_tree::error::PcaTreeError;
use pca_tree::tree::MstTree;

fn tree_with_lens(lens: &[i64]) -> MstTree {
    let edges = lens
        .iter()
        .enumerate()
        .map(|(i, &d)| (i, i + 1, d))
        .collect();
    MstTree { edges }
}

/// Symmetric distance matrix of points on a line, in millionths.
fn line_matrix(points: &[i64]) -> Vec<Vec<i64>> {
    let n = points.len();
    let mut dist = vec![vec![0i64; n]; n];
    for i in 0..n {
        for j in 0..n {
            dist[i][j] = (points[i] - points[j]).abs();
        }
    }
    dist
}

/// Minimum spanning weight by brute force over all spanning trees cannot be
/// enumerated cheaply, so use an independent Prim variant with a different
/// scan order as the reference.
fn reference_mst_weight(dist: &[Vec<i64>]) -> i128 {
    let n = dist.len();
    let mut in_tree = vec![false; n];
    in_tree[0] = true;
    let mut total: i128 = 0;
    for _ in 1..n {
        let mut best: Option<(usize, usize, i64)> = None;
        for i in (0..n).rev() {
            if !in_tree[i] {
                continue;
            }
            for j in (0..n).rev() {
                if in_tree[j] {
                    continue;
                }
                match best {
                    Some((_, _, d)) if dist[i][j] >= d => {}
                    _ => best = Some((i, j, dist[i][j])),
                }
            }
        }
        let (_, j, d) = best.unwrap();
        in_tree[j] = true;
        total += d as i128;
    }
    total
}

#[test]
fn build_line_of_three_points() {
    let dist = line_matrix(&[0, 1_000_000, 10_000_000]);
    let tree = MstTree::build(&dist).unwrap();
    assert_eq!(tree.edges, vec![(0, 1, 1_000_000), (1, 2, 9_000_000)]);
    assert_eq!(tree.len(), 2);
    assert_eq!(tree.total_length(), 10_000_000);
}

#[test]
fn build_single_node_has_no_edges() {
    let tree = MstTree::build(&vec![vec![0]]).unwrap();
    assert_eq!(tree.len(), 0);
}

#[test]
fn build_rejects_empty_matrix() {
    assert!(matches!(
        MstTree::build(&Vec::new()),
        Err(PcaTreeError::Dimension)
    ));
}

#[test]
fn build_total_weight_matches_reference() {
    // Two planar point sets, squared distances kept exact in integers.
    let sets: Vec<Vec<(i64, i64)>> = vec![
        vec![(0, 0), (3, 0), (0, 4), (7, 1), (2, 9), (5, 5)],
        vec![(10, 0), (0, 10), (4, 4), (8, 8), (1, 2)],
    ];
    for points in sets {
        let n = points.len();
        let mut dist = vec![vec![0i64; n]; n];
        for i in 0..n {
            for j in 0..n {
                let dx = (points[i].0 - points[j].0) as f64;
                let dy = (points[i].1 - points[j].1) as f64;
                dist[i][j] = ((dx * dx + dy * dy).sqrt() * 1_000_000.0).round() as i64;
            }
        }
        let tree = MstTree::build(&dist).unwrap();
        assert_eq!(tree.len(), n - 1);
        assert_eq!(tree.total_length(), reference_mst_weight(&dist));
    }
}

#[test]
fn clusters_with_zero_cut_are_singletons() {
    let dist = line_matrix(&[0, 1_000_000, 10_000_000]);
    let tree = MstTree::build(&dist).unwrap();
    let clusters = tree.clusters_with_cut(3, 0);
    assert_eq!(clusters, vec![vec![0], vec![1], vec![2]]);
}

#[test]
fn clusters_with_huge_cut_span_everything() {
    let dist = line_matrix(&[0, 1_000_000, 10_000_000]);
    let tree = MstTree::build(&dist).unwrap();
    let clusters = tree.clusters_with_cut(3, i64::MAX);
    assert_eq!(clusters, vec![vec![0, 1, 2]]);
}

#[test]
fn clusters_with_middle_cut_split_the_line() {
    let dist = line_matrix(&[0, 1_000_000, 10_000_000]);
    let tree = MstTree::build(&dist).unwrap();
    let clusters = tree.clusters_with_cut(3, 1_000_000);
    assert_eq!(clusters, vec![vec![0, 1], vec![2]]);
}

#[test]
fn elbow_threshold_picks_widest_gap() {
    let tree = tree_with_lens(&[1, 2, 3, 10]);
    assert_eq!(tree.elbow_threshold(), Some(3));
}

#[test]
fn elbow_threshold_equal_lengths_give_smallest() {
    let tree = tree_with_lens(&[5, 5, 5]);
    assert_eq!(tree.elbow_threshold(), Some(5));
}

#[test]
fn elbow_threshold_undefined_below_two_edges() {
    assert_eq!(tree_with_lens(&[]).elbow_threshold(), None);
    assert_eq!(tree_with_lens(&[7]).elbow_threshold(), None);
}

#[test]
fn robust_threshold_median_plus_k_mad() {
    let tree = tree_with_lens(&[1, 2, 3, 4]);
    // median 2, deviations sorted [0, 1, 1, 2], mad 1.
    assert_eq!(tree.robust_threshold(2, 1), Some(4));
    assert_eq!(tree.robust_threshold(1, 2), Some(2));
    assert_eq!(tree_with_lens(&[7]).robust_threshold(2, 1), None);
}

#[test]
fn robust_auto_picks_first_outlier_past_midpoint() {
    let tree = tree_with_lens(&[1, 1, 1, 100]);
    // mad floors to one millionth; the last length scores far beyond the
    // cutoff and sits past the midpoint.
    assert_eq!(tree.robust_threshold_auto(), Some(100));
}

#[test]
fn robust_auto_falls_back_to_percentile() {
    let tree = tree_with_lens(&[1, 2, 3, 4]);
    // No score exceeds the cutoff: index floor(0.85 * 4) = 3 of the sorted
    // lengths.
    assert_eq!(tree.robust_threshold_auto(), Some(4));
}

#[test]
fn robust_auto_undefined_below_four_edges() {
    assert_eq!(tree_with_lens(&[1, 2, 3]).robust_threshold_auto(), None);
}

#[test]
fn cut_keeps_short_edges_in_order() {
    let tree = tree_with_lens(&[1, 5, 2, 9]);
    assert_eq!(tree.cut(2), vec![(0, 1), (2, 3)]);
    assert_eq!(tree.cut(0), Vec::<(usize, usize)>::new());
    assert_eq!(tree.cut(9), vec![(0, 1), (1, 2), (2, 3), (3, 4)]);
}

#[test]
fn clusters_elbow_empty_below_two_edges() {
    let clusters = tree_with_lens(&[7]).clusters_elbow(2);
    assert!(clusters.is_empty());
}

#[test]
fn clusters_robust_empty_below_four_edges() {
    let clusters = tree_with_lens(&[1, 2, 3]).clusters_robust(4);
    assert!(clusters.is_empty());
}

#[test]
fn clusters_elbow_separates_far_group() {
    // Lengths 1, 1, 50: the widest gap is before 50, so the cut is 1 and the
    // long edge is dropped.
    let tree = tree_with_lens(&[1, 1, 50]);
    let clusters = tree.clusters_elbow(4);
    assert_eq!(clusters, vec![vec![0, 1, 2], vec![3]]);
}

use rgclass::adjacency::AdjacencyMatrix;
use rgclass::assemble::assemble_graphs;
use rgclass::assemble::build_dataset;
use rgclass::crossval::count_matches;
use rgclass::crossval::fold_spans;
use rgclass::crossval::mean_accuracy;
use rgclass::crossval::training_indices;
use rgclass::errors::DataError;
use rgclass::laplacian::Laplacian;
use rgclass::parse::parse_column;
use rgclass::parse::parse_pairs;
use rgclass::spectral::select_features;
use rgclass::spectral::select_features_checked;

fn star5() -> AdjacencyMatrix {
    AdjacencyMatrix::from_rows(vec![
        vec![0, 1, 1, 1, 1],
        vec![1, 0, 0, 0, 0],
        vec![1, 0, 0, 0, 0],
        vec![1, 0, 0, 0, 0],
        vec![1, 0, 0, 0, 0],
    ])
}

fn lap_to_f64(l: &Laplacian) -> Vec<Vec<f64>> {
    let n = l.dim();
    let mut out = Vec::new();
    for i in 0..n {
        let mut row = Vec::new();
        for j in 0..n {
            let e = l.entry(i, j);
            let unit = if e.on_diagonal { 1.0 } else { 0.0 };
            row.push(unit - e.weight as f64 / (e.scale as f64).sqrt());
        }
        out.push(row);
    }
    out
}

// The feature vector of ascending eigenvalues: strictly positive ones kept,
// zero-padded to the requested length.
fn features(eigs: &[f64], count: usize) -> Vec<f64> {
    let values: Vec<f64> = eigs.to_vec();
    let flags: Vec<bool> = eigs.iter().map(|x| *x > 0.0).collect();
    select_features(&values, &flags, count, 0.0)
}

#[test]
#[allow(non_snake_case)]
fn test_adj_matrix_to_Laplacian() {
    let lap = Laplacian::from_adjacency(star5());
    let expected = vec![
        vec![1.0, -0.5, -0.5, -0.5, -0.5],
        vec![-0.5, 1.0, 0.0, 0.0, 0.0],
        vec![-0.5, 0.0, 1.0, 0.0, 0.0],
        vec![-0.5, 0.0, 0.0, 1.0, 0.0],
        vec![-0.5, 0.0, 0.0, 0.0, 1.0],
    ];
    assert_eq!(lap_to_f64(&lap), expected);
}

// The normalized Laplacian of the 5-node star has spectrum {0, 1, 1, 1, 2},
// ascending; these three tests exercise the exact truncation/padding policy
// on it.
#[test]
fn test_matrix_to_feature_equal() {
    let eigs = [0.0, 1.0, 1.0, 1.0, 2.0];
    assert_eq!(features(&eigs, 5), vec![1.0, 1.0, 1.0, 2.0, 0.0]);
}

#[test]
fn test_matrix_to_feature_more_features() {
    let eigs = [0.0, 1.0, 1.0, 1.0, 2.0];
    assert_eq!(features(&eigs, 7), vec![1.0, 1.0, 1.0, 2.0, 0.0, 0.0, 0.0]);
}

#[test]
fn test_matrix_to_feature_less_features() {
    let eigs = [0.0, 1.0, 1.0, 1.0, 2.0];
    assert_eq!(features(&eigs, 4), vec![1.0, 1.0, 1.0, 2.0]);
}

#[test]
fn test_matrices_to_features() {
    // A 5-node star, a 3-node star (spectrum {0, 1, 2}), a 5-node star.
    let rows: Vec<Vec<f64>> = vec![
        features(&[0.0, 1.0, 1.0, 1.0, 2.0], 5),
        features(&[0.0, 1.0, 2.0], 5),
        features(&[0.0, 1.0, 1.0, 1.0, 2.0], 5),
    ];
    let expected = vec![
        vec![1.0, 1.0, 1.0, 2.0, 0.0],
        vec![1.0, 2.0, 0.0, 0.0, 0.0],
        vec![1.0, 1.0, 1.0, 2.0, 0.0],
    ];
    assert_eq!(rows, expected);
}

#[test]
fn feature_count_zero_is_config_error() {
    let r = select_features_checked(&vec![1.0f64], &vec![true], 0, 0.0);
    assert_eq!(r, Err(DataError::FeatureCountZero));
}

#[test]
fn parse_membership_column() {
    let data: Vec<u8> = b"1\n1\n1\n2\n2\n2\n2\n2\n".to_vec();
    assert_eq!(parse_column(&data), Ok(vec![1, 1, 1, 2, 2, 2, 2, 2]));
}

#[test]
fn parse_edges_with_trim_and_crlf() {
    let data: Vec<u8> = b"1, 2\r\n 2 ,1\n\n3,1\n".to_vec();
    assert_eq!(parse_pairs(&data), Ok(vec![(1, 2), (2, 1), (3, 1)]));
}

#[test]
fn parse_rejects_non_numeric() {
    let data: Vec<u8> = b"1\nx\n".to_vec();
    assert_eq!(parse_column(&data), Err(DataError::Parse));
}

#[test]
fn parse_rejects_missing_column() {
    let data: Vec<u8> = b"1,2\n3\n".to_vec();
    assert_eq!(parse_pairs(&data), Err(DataError::Parse));
}

#[test]
fn parse_rejects_overflow() {
    let data: Vec<u8> = b"99999999999999999999\n".to_vec();
    assert_eq!(parse_column(&data), Err(DataError::Parse));
}

// A 3-node triangle and a 5-node star assembled from one combined edge list
// and membership list: distinct dimensions and local indexing regardless of
// global id offsets.
#[test]
fn assemble_triangle_and_star() {
    let membership: Vec<u64> = vec![1, 1, 1, 2, 2, 2, 2, 2];
    let mut edges: Vec<(u64, u64)> = vec![(1, 2), (2, 1), (1, 3), (3, 1), (2, 3), (3, 2)];
    for leaf in 5..=8 {
        edges.push((4, leaf));
        edges.push((leaf, 4));
    }
    let gs = assemble_graphs(&membership, &edges).unwrap();
    assert_eq!(gs.ids, vec![1, 2]);
    assert_eq!(gs.mats[0].dim(), 3);
    assert_eq!(gs.mats[1].dim(), 5);
    // Triangle: all off-diagonal cells 1, diagonal 0.
    for i in 0..3 {
        for j in 0..3 {
            assert_eq!(gs.mats[0].get(i, j), if i == j { 0 } else { 1 });
        }
    }
    // Star: hub is local node 0.
    for i in 0..5 {
        for j in 0..5 {
            let expected = if (i == 0) != (j == 0) { 1 } else { 0 };
            assert_eq!(gs.mats[1].get(i, j), expected);
        }
    }
    // Its Laplacian diagonal is all ones, hub-leaf entries exactly -0.5.
    let lap = Laplacian::from_adjacency(star5());
    let m = lap_to_f64(&lap);
    for i in 0..5 {
        assert_eq!(m[i][i], 1.0);
    }
    for leaf in 1..5 {
        assert_eq!(m[0][leaf], -0.5);
        assert_eq!(m[leaf][0], -0.5);
    }
}

#[test]
fn assemble_rejects_scattered_membership() {
    let membership: Vec<u64> = vec![1, 2, 1];
    let edges: Vec<(u64, u64)> = vec![];
    assert_eq!(
        assemble_graphs(&membership, &edges).map(|_| ()),
        Err(DataError::MembershipNotContiguous)
    );
}

#[test]
fn assemble_rejects_bad_edges() {
    let membership: Vec<u64> = vec![1, 1, 2];
    assert_eq!(
        assemble_graphs(&membership, &vec![(1, 4)]).map(|_| ()),
        Err(DataError::EdgeEndpointOutOfRange)
    );
    assert_eq!(
        assemble_graphs(&membership, &vec![(1, 3)]).map(|_| ()),
        Err(DataError::EdgeCrossesGraphs)
    );
}

#[test]
fn labels_must_match_graph_count() {
    let membership: Vec<u64> = vec![1, 1, 2];
    let edges: Vec<(u64, u64)> = vec![(1, 2), (2, 1)];
    let r = build_dataset(&membership, &edges, Some(vec![7]));
    assert_eq!(r.map(|_| ()), Err(DataError::LabelCountMismatch));
    let ok = build_dataset(&membership, &edges, Some(vec![7, 9])).unwrap();
    assert_eq!(ok.1, Some(vec![7, 9]));
    assert_eq!(ok.0.ids, vec![1, 2]);
}

#[test]
fn fold_partition_sizes_and_errors() {
    assert_eq!(fold_spans(10, 1), Err(DataError::FoldCountTooSmall));
    assert_eq!(fold_spans(3, 4), Err(DataError::FoldCountExceedsRows));
    let folds = fold_spans(10, 3).unwrap();
    assert_eq!(folds, vec![(0, 4), (4, 3), (7, 3)]);
    let train = training_indices(10, 4, 3);
    assert_eq!(train, vec![0, 1, 2, 3, 7, 8, 9]);
}

// Scoring a perfectly reproduced label row gives every fold accuracy 1 and
// an exact mean of 1: the degenerate self-check of the evaluation protocol.
#[test]
fn self_prediction_scores_one() {
    let labels: Vec<u64> = vec![0, 0, 1, 1, 2];
    let predicted = labels.clone();
    let hits = count_matches(&predicted, &labels);
    assert_eq!(hits, 5);
    let folds: Vec<(usize, usize)> = vec![(3, 3), (2, 2)];
    let (num, den) = mean_accuracy(&folds, 2);
    assert_eq!((num, den), (12, 12));
}

#[test]
fn mean_accuracy_weights_folds_equally() {
    // Fold accuracies 1/2 and 1: mean 3/4 exactly: num/den == 9/12.
    let folds: Vec<(usize, usize)> = vec![(1, 2), (3, 3)];
    let (num, den) = mean_accuracy(&folds, 2);
    assert_eq!(den, 12);
    assert_eq!(num, 9);
}

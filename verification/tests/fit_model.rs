use linfa::traits::Fit;
use linfa::traits::Predict;
use linfa::Dataset;
use linfa_trees::DecisionTree;
use nalgebra::DMatrix;
use ndarray::Array1;
use ndarray::Array2;

use rgclass::adjacency::AdjacencyMatrix;
use rgclass::crossval::count_matches;
use rgclass::crossval::fold_spans;
use rgclass::crossval::mean_accuracy;
use rgclass::laplacian::Laplacian;
use rgclass::spectral::select_features;

fn lap_to_f64(l: &Laplacian) -> Vec<Vec<f64>> {
    let n = l.dim();
    let mut out = Vec::new();
    for i in 0..n {
        let mut row = Vec::new();
        for j in 0..n {
            let e = l.entry(i, j);
            let unit = if e.on_diagonal { 1.0 } else { 0.0 };
            row.push(unit - e.weight as f64 / (e.scale as f64).sqrt());
        }
        out.push(row);
    }
    out
}

// Eigenvalues of the symmetric matrix read off the lower triangle of the
// Laplacian, ascending; the solver is an abstract capability, supplied here
// by nalgebra.
fn ascending_eigenvalues(lap: &Laplacian) -> Vec<f64> {
    let m = lap_to_f64(lap);
    let n = m.len();
    let sym = DMatrix::from_fn(n, n, |i, j| if i >= j { m[i][j] } else { m[j][i] });
    let mut eigs: Vec<f64> = sym.symmetric_eigen().eigenvalues.iter().cloned().collect();
    eigs.sort_by(|a, b| a.partial_cmp(b).unwrap());
    eigs
}

fn feature_row(adj: AdjacencyMatrix, count: usize) -> Vec<f64> {
    let lap = Laplacian::from_adjacency(adj);
    let eigs = ascending_eigenvalues(&lap);
    let flags: Vec<bool> = eigs.iter().map(|x| *x > 0.0).collect();
    select_features(&eigs, &flags, count, 0.0)
}

// Training on a perfectly class-separable feature set and predicting on the
// very same rows reproduces the labels exactly.
#[test]
fn test_fit_model() {
    let adj_matrix1 = AdjacencyMatrix::from_rows(vec![
        vec![0, 1, 1, 1, 1],
        vec![1, 0, 0, 0, 0],
        vec![1, 0, 0, 0, 0],
        vec![1, 0, 0, 0, 0],
        vec![1, 0, 0, 0, 0],
    ]);
    let adj_matrix2 = AdjacencyMatrix::from_rows(vec![
        vec![0, 1, 1],
        vec![1, 0, 0],
        vec![1, 0, 0],
    ]);
    let adj_matrix3 = AdjacencyMatrix::from_rows(vec![
        vec![0, 1, 1, 1, 1],
        vec![1, 0, 1, 1, 1],
        vec![1, 1, 0, 1, 1],
        vec![1, 1, 1, 0, 1],
        vec![1, 1, 1, 0, 1],
    ]);
    let adj_matrix4 = AdjacencyMatrix::from_rows(vec![
        vec![0, 1, 1],
        vec![1, 0, 1],
        vec![1, 1, 0],
    ]);

    let mut flat: Vec<f64> = Vec::new();
    for adj in [adj_matrix1, adj_matrix2, adj_matrix3, adj_matrix4] {
        flat.extend(feature_row(adj, 4));
    }
    let records: Array2<f64> = Array2::from_shape_vec((4, 4), flat).unwrap();
    let target: Array1<usize> = Array1::from_vec(vec![0, 0, 1, 1]);

    let dataset = Dataset::new(records, target.clone());
    let model = DecisionTree::params();
    let predicted: Array1<usize> = model.fit(&dataset).unwrap().predict(dataset.records());
    assert_eq!(predicted, target);
}

// Evaluating such a model under the verified fold bookkeeping gives exact
// accuracy 1 for every fold and an exact mean of 1.
#[test]
fn cross_validation_on_separable_data_is_exact() {
    let rows: Vec<Vec<f64>> = vec![
        vec![0.0, 0.0],
        vec![5.0, 0.0],
        vec![0.0, 1.0],
        vec![5.0, 1.0],
    ];
    let labels: Vec<usize> = vec![0, 1, 0, 1];
    let n = rows.len();
    let k = 2;
    let folds = fold_spans(n, k).unwrap();
    let q = n / k;
    let mut scores: Vec<(usize, usize)> = Vec::new();
    for (start, held) in folds {
        let train_rows: Vec<usize> = (0..n).filter(|i| *i < start || *i >= start + held).collect();
        let flat_train: Vec<f64> = train_rows.iter().flat_map(|i| rows[*i].clone()).collect();
        let train_x = Array2::from_shape_vec((train_rows.len(), 2), flat_train).unwrap();
        let train_y = Array1::from_vec(train_rows.iter().map(|i| labels[*i]).collect());
        let model = DecisionTree::params().fit(&Dataset::new(train_x, train_y)).unwrap();
        let flat_test: Vec<f64> =
            (start..start + held).flat_map(|i| rows[i].clone()).collect();
        let test_x = Array2::from_shape_vec((held, 2), flat_test).unwrap();
        let predicted = model.predict(&test_x);
        let predicted_u64: Vec<u64> = predicted.iter().map(|x| *x as u64).collect();
        let truth_u64: Vec<u64> = (start..start + held).map(|i| labels[i] as u64).collect();
        let hits = count_matches(&predicted_u64, &truth_u64);
        scores.push((hits, held));
    }
    let (num, den) = mean_accuracy(&scores, q);
    assert_eq!(num, den);
}

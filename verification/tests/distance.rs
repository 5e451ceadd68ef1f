use tda::dense::DenseMatrix;
use tda::distance::{metric_or_default, Backend, MetricFn};
use tda::matrix::Matrix;
use tda::neighborhood::to_adjacency;
use tda::point_cloud::to_dist_mat;
use tda::sparse::SparseMatrix;

fn euclidean(a: &Vec<f64>, b: &Vec<f64>) -> f64 {
    a.iter()
        .zip(b.iter())
        .fold(0.0, |acc, (x, y)| acc + (*x - *y) * (*x - *y))
        .sqrt()
}

#[test]
fn test_to_adjacency() {
    let mut dm = DenseMatrix::new(10, 10);
    for c in 0..10 {
        for r in 0..10 {
            dm.set(r, c, 10.0);
        }
    }

    // Should be an adjacent matrix of all None/false.
    let adj_f = to_adjacency(&dm, |d: &f64| *d < 10.0);
    // Should be an adjacent matrix of all true.
    let adj_t = to_adjacency(&dm, |d: &f64| *d < 20.0);

    for c in 0..10 {
        for r in 0..10 {
            assert_eq!(adj_f.get(r, c).is_none(), true);
            assert_eq!(adj_t.get(r, c).is_some(), true);
            assert_eq!(adj_t.get(r, c).unwrap(), &true);
        }
    }
}

#[test]
fn test_to_dist_mat() {
    let mut cloud: Vec<Vec<f64>> = vec![];
    for i in 0..100 {
        // Each vector K is smaller than the vector K + 1.
        cloud.push((0..100).map(|x| (x as f64) * (i as f64)).collect());
    }

    let mat = to_dist_mat(&cloud, euclidean);
    let (cols, rows) = mat.dim();
    assert_eq!(cols, 100);
    assert_eq!(rows, 100);

    for i in 0..cols {
        for j in 0..rows {
            // Should always return a value.
            assert_eq!(mat.get(j, i).is_some(), true);

            // Each vector is different; i == j should be 0 distance,
            // otherwise the distance resides in P.
            if i == j {
                assert_eq!(mat.get(j, i).unwrap() == &0.0, true);
            } else {
                assert_eq!(mat.get(j, i).unwrap() > &0.0, true);
            }
        }
    }
}

#[test]
fn adjacency_is_strict_and_keeps_the_place_of_each_cell() {
    let mut dm = DenseMatrix::<u32>::new(2, 3);
    let cells = [[1, 5, 9], [5, 4, 6]];
    for r in 0..2 {
        for c in 0..3 {
            dm.set(r, c, cells[r][c]);
        }
    }
    let adj = to_adjacency(&dm, |d: &u32| *d < 5);
    assert_eq!(adj.dim(), (2, 3));
    assert_eq!(adj.get(0, 0), Some(&true));
    assert_eq!(adj.get(0, 1), None);
    assert_eq!(adj.get(0, 2), None);
    assert_eq!(adj.get(1, 0), None);
    assert_eq!(adj.get(1, 1), Some(&true));
    assert_eq!(adj.get(1, 2), None);
}

#[test]
fn adjacency_skips_undefined_distances() {
    let mut sm = SparseMatrix::<u32>::new(2, 2);
    sm.set(0, 1, 3);
    sm.set(1, 1, 8);
    let adj = to_adjacency(&sm, |d: &u32| *d < 5);
    assert_eq!(adj.get(0, 0), None);
    assert_eq!(adj.get(0, 1), Some(&true));
    assert_eq!(adj.get(1, 0), None);
    assert_eq!(adj.get(1, 1), None);
}

#[test]
fn distance_matrix_holds_the_distance_of_each_pair() {
    let cloud: Vec<i64> = vec![3, 10, 4];
    let mat = to_dist_mat(&cloud, |a: &i64, b: &i64| (a - b).abs());
    assert_eq!(mat.dim(), (3, 3));
    let want = [[0, 7, 1], [7, 0, 6], [1, 6, 0]];
    for i in 0..3 {
        for j in 0..3 {
            assert_eq!(mat.get(i, j), Some(&want[i][j]));
        }
    }
    let none: Vec<i64> = vec![];
    assert_eq!(to_dist_mat(&none, |a: &i64, b: &i64| a - b).dim(), (0, 0));
}

#[test]
fn distance_matrix_keeps_the_order_of_the_arguments() {
    let cloud: Vec<i64> = vec![1, 5];
    let mat = to_dist_mat(&cloud, |a: &i64, b: &i64| a - b);
    assert_eq!(mat.get(0, 1), Some(&-4));
    assert_eq!(mat.get(1, 0), Some(&4));
}

#[test]
fn defaults_of_the_choices() {
    assert_eq!(MetricFn::default(), MetricFn::Euclidean);
    assert_eq!(Backend::default(), Backend::Native);
    assert_eq!(metric_or_default(None), MetricFn::Euclidean);
    assert_eq!(
        metric_or_default(Some(MetricFn::Manhattan)),
        MetricFn::Manhattan
    );
}

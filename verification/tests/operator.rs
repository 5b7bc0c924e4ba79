//! The operator: scores, attention, sums and counts.

use facetfold::arith::Op;
use facetfold::error::BruceError;
use facetfold::matrix::{Matrix, Shape};
use facetfold::operator::{F_eps, Measure};
use facetfold::types::{Aggregator, Eps, Sim};
use ndarray::{arr1, arr2, Array1, Array2};

/// Double-precision arithmetic on bit patterns.
fn ieee(op: Op, a: u64, b: u64) -> u64 {
    let (x, y) = (f64::from_bits(a), f64::from_bits(b));
    let z = match op {
        Op::Plus => x + y,
        Op::Minus => x - y,
        Op::Times => x * y,
        Op::Over => x / y,
        Op::Exp => x.exp(),
        Op::Ln => x.ln(),
        Op::Sqrt => x.sqrt(),
        Op::Whole => a as f64,
        Op::Widen => f32::from_bits(a as u32) as f64,
    };
    z.to_bits()
}

fn pat(v: &[f64]) -> Vec<u64> {
    v.iter().map(|x| x.to_bits()).collect()
}

fn num(v: &[u64]) -> Vec<f64> {
    v.iter().map(|x| f64::from_bits(*x)).collect()
}

fn close(a: f64, b: f64, tol: f64) {
    assert!((a - b).abs() <= tol, "{a} vs {b}");
}

fn matrix(m: &Array2<f64>) -> Matrix<u64> {
    let rows = m.outer_iter().map(|r| r.iter().map(|x| x.to_bits()).collect()).collect();
    Matrix::new(rows, m.ncols()).unwrap()
}

fn measured(x: &Array1<f64>, k: &Array2<f64>, m: Measure, j: usize) -> u64 {
    match m {
        Measure::Product => x.dot(&k.row(j)).to_bits(),
        Measure::SquaredDistance => {
            let d = x - &k.row(j);
            d.dot(&d).to_bits()
        }
    }
}

fn attention(op: &F_eps, x: &Array1<f64>, k: &Array2<f64>, v: &Array2<f64>) -> Vec<f64> {
    let measure = |m: Measure, j: usize| measured(x, k, m, j);
    num(&op.attention(k.nrows(), &matrix(v), &measure, &ieee))
}

#[test]
fn attention_eps_one_matches_known_value() {
    // scores = [1, 0]; weights = [e/(e+1), 1/(e+1)]
    // out = [10 e/(e+1), 10/(e+1)], about [7.31, 2.69]
    let x = arr1(&[1.0, 0.0]);
    let k = arr2(&[[1.0, 0.0], [0.0, 1.0]]);
    let v = arr2(&[[10.0, 0.0], [0.0, 10.0]]);
    let op = F_eps::new(Eps::one(), Sim::Dot);
    let out = attention(&op, &x, &k, &v);
    let e = std::f64::consts::E;
    close(out[0], 10.0 * e / (e + 1.0), 1e-12);
    close(out[1], 10.0 / (e + 1.0), 1e-12);
}

#[test]
fn at_eps_zero_indicator_recovers_sql_groupby() {
    // SQL: SELECT SUM(v) WHERE k = x
    let x = arr1(&[1.0, 0.0]);
    let k = arr2(&[[1.0, 0.0], [1.0, 0.0], [0.0, 1.0]]);
    let v = arr2(&[[5.0], [7.0], [99.0]]);
    let op = F_eps::new(Eps::zero(), Sim::Indicator).with_agg(Aggregator::Sum);
    let measure = |m: Measure, j: usize| measured(&x, &k, m, j);
    let out = num(&op.sum(3, &matrix(&v), &measure, &ieee));
    // exact two rows match; sum should be 12.0
    assert_eq!(out[0], 12.0);
}

#[test]
fn count_at_eps_zero_indicator_is_sql_count() {
    let x = arr1(&[1.0, 0.0]);
    let k = arr2(&[[1.0, 0.0], [1.0, 0.0], [0.0, 1.0], [1.0, 0.0]]);
    let op = F_eps::new(Eps::zero(), Sim::Indicator);
    let measure = |m: Measure, j: usize| measured(&x, &k, m, j);
    let c = op.count(4, &measure, &ieee);
    assert_eq!(c, 3);
}

#[test]
fn attention_with_zero_values_returns_zero() {
    let x = arr1(&[1.0, 0.0]);
    let k = arr2(&[[1.0, 0.0]]);
    let v = arr2(&[[0.0, 0.0]]);
    let op = F_eps::new(Eps::one(), Sim::Dot);
    let out = attention(&op, &x, &k, &v);
    assert_eq!(out[0], 0.0);
    assert_eq!(out[1], 0.0);
}

#[test]
fn scores_follow_the_similarity() {
    let x = arr1(&[1.0, 2.0]);
    let k = arr2(&[[1.0, 2.0], [3.0, 0.0]]);
    let measure = |m: Measure, j: usize| measured(&x, &k, m, j);
    let s = |sim: Sim| num(&F_eps::new(Eps::one(), sim).scores(2, &measure, &ieee));
    assert_eq!(s(Sim::Dot), vec![5.0, 3.0]);
    assert_eq!(s(Sim::NegSquared), vec![0.0, -4.0]);
    assert_eq!(s(Sim::Indicator), vec![0.0, f64::NEG_INFINITY]);
}

#[test]
fn many_rows_are_scored_in_order() {
    // enough rows that they are spread over threads
    let n = 5000usize;
    let measure = |_: Measure, j: usize| (j as f64 / 7.0).to_bits();
    let got = F_eps::new(Eps::one(), Sim::Dot).scores(n, &measure, &ieee);
    let want: Vec<u64> = (0..n).map(|j| (j as f64 / 7.0).to_bits()).collect();
    assert_eq!(got, want);
}

#[test]
fn batched_attention_matches_one_query_at_a_time() {
    let q = Array2::from_shape_fn((70, 2), |(i, c)| ((i * 7 + c * 3) % 11) as f64 / 5.0 - 1.0);
    let k = arr2(&[[1.0, 0.5], [-0.5, 1.0], [0.25, 0.25]]);
    let v = arr2(&[[1.0, 10.0], [2.0, 20.0], [3.0, 30.0]]);
    let shape = |m: &Array2<f64>| Shape { rows: m.nrows(), cols: m.ncols() };
    let score = |i: usize, j: usize| q.row(i).dot(&k.row(j)).to_bits();
    for eps in [Eps::one(), Eps::zero(), Eps::inf(), Eps::quarter()] {
        let op = F_eps::new(eps, Sim::Dot);
        let got = op.attention_batch(shape(&q), shape(&k), &matrix(&v), &score, &ieee).unwrap();
        for i in 0..q.nrows() {
            let want = attention(&op, &q.row(i).to_owned(), &k, &v);
            for c in 0..2 {
                close(f64::from_bits(got.at(i, c)), want[c], 1e-12);
            }
        }
    }
}

#[test]
fn batched_attention_at_eps_zero_takes_the_best_key() {
    let shape = |rows: usize| Shape { rows, cols: 1 };
    let score = |_: usize, j: usize| [2.0f64, 1.0][j].to_bits();
    let v = matrix(&arr2(&[[10.0], [30.0]]));
    let op = F_eps::new(Eps::zero(), Sim::Dot);
    let got = op.attention_batch(shape(1), shape(2), &v, &score, &ieee).unwrap();
    assert_eq!(f64::from_bits(got.at(0, 0)), 10.0);
}

#[test]
fn batched_attention_says_what_does_not_fit() {
    let s = |rows: usize, cols: usize| Shape { rows, cols };
    let score = |_: usize, _: usize| 0u64;
    let run = |sim: Sim, q: Shape, k: Shape, v: Shape| {
        let v = matrix(&Array2::zeros((v.rows, v.cols)));
        F_eps::new(Eps::one(), sim).attention_batch(q, k, &v, &score, &ieee).map(|_| ())
    };
    assert!(run(Sim::Dot, s(2, 3), s(4, 3), s(4, 1)).is_ok());
    assert!(matches!(
        run(Sim::Indicator, s(2, 3), s(4, 3), s(4, 1)),
        Err(BruceError::InvalidArgument(_))
    ));
    assert!(run(Sim::Dot, s(2, 3), s(4, 2), s(4, 1)).is_err());
    assert!(run(Sim::Dot, s(2, 3), s(4, 3), s(5, 1)).is_err());
}

#[test]
fn attention_at_eps_zero_indicator_is_the_mean_of_the_matches() {
    let x = arr1(&[1.0, 0.0]);
    let k = arr2(&[[1.0, 0.0], [0.0, 1.0], [1.0, 0.0]]);
    let v = arr2(&[[5.0], [99.0], [7.0]]);
    let op = F_eps::new(Eps::zero(), Sim::Indicator);
    assert_eq!(attention(&op, &x, &k, &v), vec![6.0]);
}

#[test]
fn attention_at_eps_zero_without_a_match_averages_every_row() {
    let x = arr1(&[3.0, 3.0]);
    let k = arr2(&[[1.0, 0.0], [0.0, 1.0]]);
    let v = arr2(&[[4.0], [8.0]]);
    let op = F_eps::new(Eps::zero(), Sim::Indicator);
    assert_eq!(attention(&op, &x, &k, &v), vec![6.0]);
}

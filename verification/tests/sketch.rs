//! The fixed-size sketch of a fuzzy join.

use facetfold::arith::Op;
use facetfold::matrix::Matrix;
use facetfold::sketch::{FeatureMap, FuzzyJoinSketch};
use ndarray::{arr2, Array2};

/// Double-precision arithmetic on bit patterns.
fn ieee(op: Op, a: u64, b: u64) -> u64 {
    let (x, y) = (f64::from_bits(a), f64::from_bits(b));
    let z = match op {
        Op::Plus => x + y,
        Op::Minus => x - y,
        Op::Times => x * y,
        Op::Over => x / y,
        Op::Exp => x.exp(),
        Op::Ln => x.ln(),
        Op::Sqrt => x.sqrt(),
        Op::Whole => a as f64,
        Op::Widen => f32::from_bits(a as u32) as f64,
    };
    z.to_bits()
}

fn pat(v: &[f64]) -> Vec<u64> {
    v.iter().map(|x| x.to_bits()).collect()
}

fn num(v: &[u64]) -> Vec<f64> {
    v.iter().map(|x| f64::from_bits(*x)).collect()
}

fn close(a: f64, b: f64, tol: f64) {
    assert!((a - b).abs() <= tol, "{a} vs {b}");
}

fn matrix(m: &Array2<f64>) -> Matrix<u64> {
    let rows = m.outer_iter().map(|r| r.iter().map(|x| x.to_bits()).collect()).collect();
    Matrix::new(rows, m.ncols()).unwrap()
}

fn dots(p: &Vec<u64>, numerator: &Vec<Vec<u64>>, denominator: &Vec<u64>) -> (Vec<u64>, u64) {
    let p = num(p);
    let width = if numerator.is_empty() { 0 } else { numerator[0].len() };
    let mut out = vec![0.0f64; width];
    let mut den = 0.0f64;
    for (a, x) in p.iter().enumerate() {
        for (c, o) in out.iter_mut().enumerate() {
            *o += x * f64::from_bits(numerator[a][c]);
        }
        den += x * f64::from_bits(denominator[a]);
    }
    (pat(&out), den.to_bits())
}

fn filled(n: usize, d: usize, x: f64) -> Matrix<u64> {
    Matrix::new(vec![vec![x.to_bits(); d]; n], d).unwrap()
}

fn query(s: &FuzzyJoinSketch, x: &[f64]) -> Vec<f64> {
    num(&s.query(&pat(x), &dots, &ieee))
}

#[test]
fn sketch_size_is_independent_of_n() {
    // different N but same d_phi, d_v: same byte size
    let d_phi = 32;
    let d_v = 16;
    let s1 = FuzzyJoinSketch::build(
        &filled(100, d_phi, 0.5),
        &filled(100, d_v, 1.0),
        FeatureMap::EluPlus1,
        &ieee,
    );
    let s2 = FuzzyJoinSketch::build(
        &filled(100_000, d_phi, 0.5),
        &filled(100_000, d_v, 1.0),
        FeatureMap::EluPlus1,
        &ieee,
    );
    assert_eq!(s1.size_bytes(), s2.size_bytes());
}

#[test]
fn sketch_query_independent_of_n() {
    let d_phi = 16;
    let d_v = 4;
    let s = FuzzyJoinSketch::build(
        &filled(50_000, d_phi, 0.3),
        &filled(50_000, d_v, 1.0),
        FeatureMap::EluPlus1,
        &ieee,
    );
    let out = query(&s, &vec![0.5; d_phi]);
    // all v rows equal [1, 1, 1, 1] so output is [1, 1, 1, 1]
    for i in 0..d_v {
        close(out[i], 1.0, 1e-12);
    }
}

#[test]
fn incremental_equals_batch() {
    let k = arr2(&[[1.0, 0.0], [0.0, 1.0], [1.0, 1.0]]);
    let v = arr2(&[[10.0], [20.0], [30.0]]);
    let batch = FuzzyJoinSketch::build(&matrix(&k), &matrix(&v), FeatureMap::EluPlus1, &ieee);

    let mut incr =
        FuzzyJoinSketch::build(&filled(0, 2, 0.0), &filled(0, 1, 0.0), FeatureMap::EluPlus1, &ieee);
    for i in 0..3 {
        incr.add(&pat(&k.row(i).to_vec()), &pat(&v.row(i).to_vec()), &ieee);
    }
    let qb = query(&batch, &[0.5, 0.5]);
    let qi = query(&incr, &[0.5, 0.5]);
    close(qb[0], qi[0], 1e-12);
}

#[test]
fn features_are_positive() {
    let x = [-2.0, 0.0, 1.5];
    let got = num(&FeatureMap::EluPlus1.apply(&pat(&x), &ieee));
    close(got[0], (-2.0f64).exp(), 1e-15);
    close(got[1], 1.0, 1e-15);
    close(got[2], 2.5, 1e-15);
    assert_eq!(num(&FeatureMap::Identity.apply(&pat(&x), &ieee)), x.to_vec());
}

#[test]
fn a_query_weighs_the_rows_by_their_features() {
    let k = arr2(&[[1.0, 0.0], [0.0, 3.0]]);
    let v = arr2(&[[10.0], [20.0]]);
    let s = FuzzyJoinSketch::build(&matrix(&k), &matrix(&v), FeatureMap::EluPlus1, &ieee);
    // features [2, 1] and [1, 4]; query features [2, 2]
    // weights 6 and 10: (6*10 + 10*20) / 16
    close(query(&s, &[1.0, 1.0])[0], 260.0 / 16.0, 1e-12);
}

#[test]
fn features_of_rows_are_those_of_each_row() {
    let k = arr2(&[[2.0, 0.0], [-1.0, 0.5]]);
    let r = FeatureMap::EluPlus1.apply_rows(&matrix(&k), &ieee);
    assert_eq!(num(r.row(0)), vec![3.0, 1.0]);
    assert_eq!(num(r.row(1)), vec![(-1.0f64).exp(), 1.5]);
    let same = FeatureMap::Identity.apply_rows(&matrix(&k), &ieee);
    assert_eq!(num(same.row(1)), vec![-1.0, 0.5]);
}

//! Attention along the ancestor paths of a tree.

use facetfold::arith::Op;
use facetfold::error::BruceError;
use facetfold::matrix::{Matrix, Shape};
use facetfold::tree;
use facetfold::tree::{
    ancestor_path, balanced_binary_tree, chain_tree, k_ary_balanced_tree, star_tree,
};
use facetfold::types::Eps;
use ndarray::{arr2, Array2};

/// Double-precision arithmetic on bit patterns.
fn ieee(op: Op, a: u64, b: u64) -> u64 {
    let (x, y) = (f64::from_bits(a), f64::from_bits(b));
    let z = match op {
        Op::Plus => x + y,
        Op::Minus => x - y,
        Op::Times => x * y,
        Op::Over => x / y,
        Op::Exp => x.exp(),
        Op::Ln => x.ln(),
        Op::Sqrt => x.sqrt(),
        Op::Whole => a as f64,
        Op::Widen => f32::from_bits(a as u32) as f64,
    };
    z.to_bits()
}

fn close(a: f64, b: f64, tol: f64) {
    assert!((a - b).abs() <= tol, "{a} vs {b}");
}

fn matrix(m: &Array2<f64>) -> Matrix<u64> {
    let rows = m.outer_iter().map(|r| r.iter().map(|x| x.to_bits()).collect()).collect();
    Matrix::new(rows, m.ncols()).unwrap()
}

fn shape(m: &Array2<f64>) -> Shape {
    Shape { rows: m.nrows(), cols: m.ncols() }
}

fn tree_causal_attention(
    q: &Array2<f64>,
    k: &Array2<f64>,
    v: &Array2<f64>,
    parents: &[i64],
    eps: Eps,
) -> Result<Array2<f64>, BruceError> {
    let score = |i: usize, j: usize| q.row(i).dot(&k.row(j)).to_bits();
    let m = tree::tree_causal_attention(
        shape(q),
        shape(k),
        &matrix(v),
        parents,
        eps,
        &score,
        &ieee,
    )?;
    Ok(Array2::from_shape_fn((m.nrows(), m.ncols()), |(i, c)| f64::from_bits(m.at(i, c))))
}

#[test]
fn star_at_eps_one_matches_dense_softmax() {
    // 4 rows; row 0 is root; rows 1,2,3 all point to row 0.
    let q = arr2(&[[1.0, 0.0], [0.0, 1.0], [1.0, 1.0], [-1.0, 0.0]]);
    let k = arr2(&[[1.0, 0.0], [0.0, 1.0], [1.0, 1.0], [-1.0, 0.0]]);
    let v = arr2(&[[10.0], [20.0], [30.0], [40.0]]);
    let parents = star_tree(4);
    let out = tree_causal_attention(&q, &k, &v, &parents, Eps::one()).unwrap();
    // row 0 attends only to itself
    close(out[(0, 0)], 10.0, 1e-12);
    // row 1: path=[1,0], scores=[1.0, 0.0]
    // weights are as [e, 1]; out = (e*20 + 1*10)/(e+1)
    let e = std::f64::consts::E;
    close(out[(1, 0)], (e * 20.0 + 10.0) / (e + 1.0), 1e-12);
}

#[test]
fn chain_recovers_causal_attention() {
    // row 0 sees {0}; row 1 sees {1,0}; row 2 sees {2,1,0}.
    let q = arr2(&[[1.0], [2.0], [3.0]]);
    let k = arr2(&[[1.0], [1.0], [1.0]]);
    let v = arr2(&[[10.0], [20.0], [30.0]]);
    let parents = chain_tree(3);
    let out = tree_causal_attention(&q, &k, &v, &parents, Eps::one()).unwrap();
    // row 0 sees only itself
    close(out[(0, 0)], 10.0, 1e-12);
    // row 1: scores=[2, 2]; uniform weights: (20+10)/2 = 15
    close(out[(1, 0)], 15.0, 1e-12);
    // row 2: scores=[3, 3, 3]; uniform: 20
    close(out[(2, 0)], 20.0, 1e-12);
}

#[test]
fn rejects_forward_parent() {
    // parents[1] = 2 is forbidden: would loop / can't topologically sort
    let q = arr2(&[[1.0], [1.0], [1.0]]);
    let k = q.clone();
    let v = q.clone();
    let parents = vec![-1i64, 2, -1];
    let r = tree_causal_attention(&q, &k, &v, &parents, Eps::one());
    assert!(r.is_err());
}

#[test]
fn balanced_binary_depth_is_log() {
    let parents = balanced_binary_tree(16);
    // 15, 7, 3, 1, 0: 4 hops + self, path length 5
    let mut j = 15i64;
    let mut depth = 0;
    while j != -1 {
        j = parents[j as usize];
        depth += 1;
    }
    assert_eq!(depth, 5);
    assert_eq!(ancestor_path(&parents, 15), vec![15, 7, 3, 1, 0]);
}

#[test]
fn built_trees_are_as_described() {
    assert_eq!(chain_tree(4), vec![-1, 0, 1, 2]);
    assert_eq!(star_tree(4), vec![-1, 0, 0, 0]);
    assert_eq!(k_ary_balanced_tree(8, 3), vec![-1, 0, 0, 0, 1, 1, 1, 2]);
    assert_eq!(balanced_binary_tree(7), k_ary_balanced_tree(7, 2));
    assert_eq!(ancestor_path(&chain_tree(4), 3), vec![3, 2, 1, 0]);
    assert_eq!(ancestor_path(&star_tree(4), 3), vec![3, 0]);
}

#[test]
fn mismatched_inputs_are_refused() {
    let q = arr2(&[[1.0], [1.0]]);
    let wide = arr2(&[[1.0, 2.0], [1.0, 2.0]]);
    let p = chain_tree(2);
    assert!(tree_causal_attention(&q, &wide, &q, &p, Eps::one()).is_err());
    assert!(tree_causal_attention(&q, &q, &q, &chain_tree(3), Eps::one()).is_err());
    let below = vec![-1i64, -2];
    let e = tree_causal_attention(&q, &q, &q, &below, Eps::one());
    assert!(e.is_err());
}

#[test]
fn large_trees_agree_with_the_path_by_path_answer() {
    // enough rows that they are spread over threads
    let n = 3000usize;
    let q = Array2::from_shape_fn((n, 1), |(i, _)| ((i * 37 % 101) as f64) / 50.0 - 1.0);
    let k = Array2::from_shape_fn((n, 1), |(i, _)| ((i * 53 % 89) as f64) / 40.0 - 1.0);
    let v = Array2::from_shape_fn((n, 2), |(i, c)| (i % 17) as f64 + c as f64);
    let p = balanced_binary_tree(n);
    let out = tree_causal_attention(&q, &k, &v, &p, Eps::one()).unwrap();
    for i in [0usize, 1, 77, 1500, 2999] {
        let path = ancestor_path(&p, i);
        let w: Vec<f64> = path.iter().map(|&j| (q[(i, 0)] * k[(j, 0)]).exp()).collect();
        let z: f64 = w.iter().sum();
        for c in 0..2 {
            let want: f64 = path.iter().zip(&w).map(|(&j, x)| x * v[(j, c)]).sum::<f64>() / z;
            close(out[(i, c)], want, 1e-9);
        }
    }
}

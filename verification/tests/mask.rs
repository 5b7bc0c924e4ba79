//! Masked and grouped soft averages.

use facetfold::arith::Op;
use facetfold::error::BruceError;
use facetfold::mask;
use facetfold::mask::{causal_pairs, value_row_ok, window_pairs};
use facetfold::matrix::{Matrix, Shape};
use facetfold::semiring;
use facetfold::tree;
use facetfold::types::Eps;
use ndarray::{arr2, Array1, Array2, ArrayView1, ArrayView2};

/// Double-precision arithmetic on bit patterns.
fn ieee(op: Op, a: u64, b: u64) -> u64 {
    let (x, y) = (f64::from_bits(a), f64::from_bits(b));
    let z = match op {
        Op::Plus => x + y,
        Op::Minus => x - y,
        Op::Times => x * y,
        Op::Over => x / y,
        Op::Exp => x.exp(),
        Op::Ln => x.ln(),
        Op::Sqrt => x.sqrt(),
        Op::Whole => a as f64,
        Op::Widen => f32::from_bits(a as u32) as f64,
    };
    z.to_bits()
}

/// Single-precision arithmetic on bit patterns.
fn single(op: Op, a: u32, b: u32) -> u32 {
    let (x, y) = (f32::from_bits(a), f32::from_bits(b));
    let z = match op {
        Op::Plus => x + y,
        Op::Minus => x - y,
        Op::Times => x * y,
        Op::Over => x / y,
        _ => panic!("not an operation of a dot product"),
    };
    z.to_bits()
}

fn eps(e: f64) -> Eps {
    Eps(e.to_bits())
}

fn bits(m: &ArrayView2<f64>) -> Matrix<u64> {
    let rows = m.outer_iter().map(|r| r.iter().map(|x| x.to_bits()).collect()).collect();
    Matrix::new(rows, m.ncols()).unwrap()
}

fn bits32(m: &ArrayView2<f32>) -> Matrix<u32> {
    let rows = m.outer_iter().map(|r| r.iter().map(|x| x.to_bits()).collect()).collect();
    Matrix::new(rows, m.ncols()).unwrap()
}

fn numbers(m: &Matrix<u64>) -> Array2<f64> {
    Array2::from_shape_fn((m.nrows(), m.ncols()), |(i, c)| f64::from_bits(m.at(i, c)))
}

fn shape(m: &ArrayView2<f64>) -> Shape {
    Shape { rows: m.nrows(), cols: m.ncols() }
}

type Averages = Result<(Array2<f64>, Vec<bool>), BruceError>;

fn masked_attention(
    q: &ArrayView2<f64>,
    k: &ArrayView2<f64>,
    v: &ArrayView2<f64>,
    pairs: &[(usize, usize)],
    eps: Eps,
) -> Averages {
    let score = |i: usize, j: usize| q.row(i).dot(&k.row(j)).to_bits();
    let (m, c) = mask::masked_attention(shape(q), shape(k), &bits(v), pairs, eps, &score, &ieee)?;
    Ok((numbers(&m), c))
}

fn grouped_softavg(
    x: &ArrayView1<f64>,
    k: &ArrayView2<f64>,
    v: &ArrayView2<f64>,
    gid: &[u32],
    n_groups: usize,
    sel: Option<&[bool]>,
    eps: Eps,
) -> Averages {
    let score = |j: usize| x.dot(&k.row(j)).to_bits();
    let (m, c) = mask::grouped_softavg(
        x.len(),
        shape(k),
        &bits(v),
        gid,
        n_groups,
        sel,
        eps,
        &score,
        &ieee,
    )?;
    Ok((numbers(&m), c))
}

fn grouped_softavg_f32(
    x: &ArrayView1<f32>,
    k: &ArrayView2<f32>,
    v: &ArrayView2<f64>,
    gid: &[u32],
    n_groups: usize,
    sel: Option<&[bool]>,
    eps: Eps,
) -> Averages {
    let xb: Vec<u32> = x.iter().map(|a| a.to_bits()).collect();
    let (m, c) = mask::grouped_softavg_f32(
        &xb,
        &bits32(k),
        &bits(v),
        gid,
        n_groups,
        sel,
        eps,
        &single,
        &ieee,
    )?;
    Ok((numbers(&m), c))
}

fn softmax(scores: &[f64], eps: Eps) -> Vec<f64> {
    let s: Vec<u64> = scores.iter().map(|x| x.to_bits()).collect();
    semiring::softmax_eps(&s, eps, &ieee).into_iter().map(f64::from_bits).collect()
}

fn close(a: f64, b: f64, tol: f64) {
    assert!((a - b).abs() <= tol, "{a} vs {b}");
}

/// Deterministic pseudo-random matrix.
fn pseudo(n: usize, d: usize, seed: u64) -> Array2<f64> {
    let mut state = seed;
    Array2::from_shape_fn((n, d), |_| {
        // xorshift64*
        state ^= state << 13;
        state ^= state >> 7;
        state ^= state << 17;
        ((state >> 11) as f64) / ((1u64 << 53) as f64) - 0.5
    })
}

/// Brute-force reference: per row, gather the masked records and apply
/// the softmax directly.
fn brute(
    q: &Array2<f64>,
    k: &Array2<f64>,
    v: &Array2<f64>,
    pairs: &[(usize, usize)],
    eps: Eps,
) -> Array2<f64> {
    let mut out = Array2::<f64>::zeros((q.nrows(), v.ncols()));
    for i in 0..q.nrows() {
        let js: Vec<usize> = pairs.iter().filter(|p| p.0 == i).map(|p| p.1).collect();
        if js.is_empty() {
            continue;
        }
        let scores: Vec<f64> = js.iter().map(|&j| q.row(i).dot(&k.row(j))).collect();
        let weights = if eps.is_inf() {
            vec![1.0 / js.len() as f64; js.len()]
        } else {
            softmax(&scores, eps)
        };
        let mut row = Array1::<f64>::zeros(v.ncols());
        for (idx, &j) in js.iter().enumerate() {
            row.scaled_add(weights[idx], &v.row(j));
        }
        out.row_mut(i).assign(&row);
    }
    out
}

/// A fixed permutation: stride through the indices by a step coprime to
/// the length.
fn shuffled<T: Clone>(xs: &[T]) -> Vec<T> {
    let n = xs.len();
    let mut step = (n / 2) | 1;
    while n % step == 0 && step < n {
        step += 2;
    }
    (0..n).map(|t| xs[(t * step + 3) % n].clone()).collect()
}

#[test]
fn causal_pairs_match_chain_tree_attention() {
    // The chain tree's ancestor sets are exactly the causal mask.
    let n = 24;
    let q = pseudo(n, 6, 1);
    let k = pseudo(n, 6, 2);
    let v = pseudo(n, 3, 3);
    for e in [Eps::one(), eps(0.37)] {
        let (out, covered) =
            masked_attention(&q.view(), &k.view(), &v.view(), &causal_pairs(n), e).unwrap();
        let score = |i: usize, j: usize| q.row(i).dot(&k.row(j)).to_bits();
        let reference = numbers(
            &tree::tree_causal_attention(
                shape(&q.view()),
                shape(&k.view()),
                &bits(&v.view()),
                &tree::chain_tree(n),
                e,
                &score,
                &ieee,
            )
            .unwrap(),
        );
        assert!(covered.iter().all(|&c| c));
        for (a, b) in out.iter().zip(reference.iter()) {
            close(*a, *b, 1e-12);
        }
    }
}

#[test]
fn order_invariance_under_shuffle() {
    // any enumeration order gives the same output
    let n = 32;
    let q = pseudo(n, 5, 7);
    let k = pseudo(n, 5, 8);
    let v = pseudo(n, 4, 9);
    let pairs = window_pairs(n, 6);
    let perm = shuffled(&pairs);
    assert_ne!(pairs, perm);
    for e in [Eps::zero(), eps(0.5), Eps::one(), Eps::inf()] {
        let (a, _) = masked_attention(&q.view(), &k.view(), &v.view(), &pairs, e).unwrap();
        let (b, _) = masked_attention(&q.view(), &k.view(), &v.view(), &perm, e).unwrap();
        for (x, y) in a.iter().zip(b.iter()) {
            close(*x, *y, 1e-12);
        }
    }
}

#[test]
fn window_mask_matches_brute_force() {
    let n = 20;
    let q = pseudo(n, 4, 11);
    let k = pseudo(n, 4, 12);
    let v = pseudo(n, 2, 13);
    let pairs = window_pairs(n, 3);
    for e in [Eps::zero(), eps(0.8), Eps::inf()] {
        let (out, _) = masked_attention(&q.view(), &k.view(), &v.view(), &pairs, e).unwrap();
        let reference = brute(&q, &k, &v, &pairs, e);
        for (a, b) in out.iter().zip(reference.iter()) {
            close(*a, *b, 1e-12);
        }
    }
}

#[test]
fn tropical_ties_take_uniform_argmax_mean() {
    // Two keys tie on the max score: eps = 0 must average their values.
    let q = arr2(&[[1.0, 0.0]]);
    let k = arr2(&[[2.0, 0.0], [2.0, 0.0], [0.0, 5.0]]);
    let v = arr2(&[[10.0], [30.0], [999.0]]);
    let pairs = vec![(0, 0), (0, 1), (0, 2)];
    let (out, covered) =
        masked_attention(&q.view(), &k.view(), &v.view(), &pairs, Eps::zero()).unwrap();
    assert!(covered[0]);
    close(out[(0, 0)], 20.0, 1e-12);
}

#[test]
fn eps_inf_is_plain_mean() {
    let q = arr2(&[[1.0], [1.0]]);
    let k = arr2(&[[100.0], [-3.0], [5.0]]);
    let v = arr2(&[[3.0], [6.0], [9.0]]);
    let pairs = vec![(0, 0), (0, 1), (0, 2), (1, 2)];
    let (out, _) =
        masked_attention(&q.view(), &k.view(), &v.view(), &pairs, Eps::inf()).unwrap();
    close(out[(0, 0)], 6.0, 1e-12);
    close(out[(1, 0)], 9.0, 1e-12);
}

#[test]
fn uncovered_rows_are_flagged() {
    let q = pseudo(3, 2, 21);
    let k = pseudo(2, 2, 22);
    let v = pseudo(2, 2, 23);
    let pairs = vec![(0, 0), (2, 1)];
    let (out, covered) =
        masked_attention(&q.view(), &k.view(), &v.view(), &pairs, Eps::one()).unwrap();
    assert_eq!(covered, vec![true, false, true]);
    assert_eq!(out[(1, 0)], 0.0);
    assert_eq!(out[(1, 1)], 0.0);
}

#[test]
fn parallel_fold_equals_sequential_fold() {
    // the chunked-parallel fold must agree with the sequential one for
    // every regime
    let n = 48;
    let q = pseudo(n, 4, 31);
    let k = pseudo(n, 4, 32);
    let v = pseudo(n, 3, 33);
    let pairs = causal_pairs(n);
    let vb = bits(&v.view());
    let v_ok = value_row_ok(&vb);
    let score = |i: usize, j: usize| q.row(i).dot(&k.row(j)).to_bits();
    for e in [Eps::zero(), eps(0.9), Eps::inf()] {
        let seq =
            mask::fold_sequential(n, &vb, &v_ok, &pairs, 0, pairs.len(), e, &score, &ieee);
        let par = mask::fold_parallel(n, &vb, &v_ok, &pairs, e, &score, &ieee);
        for (a, b) in seq.iter().zip(par.iter()) {
            match (a.finalize(&ieee), b.finalize(&ieee)) {
                (Some(x), Some(y)) => {
                    for (xc, yc) in x.iter().zip(y.iter()) {
                        close(f64::from_bits(*xc), f64::from_bits(*yc), 1e-12);
                    }
                }
                (None, None) => {}
                _ => panic!("coverage mismatch between folds"),
            }
        }
    }
}

#[test]
fn rejects_out_of_range_pairs() {
    let q = pseudo(2, 2, 41);
    let k = pseudo(2, 2, 42);
    let v = pseudo(2, 2, 43);
    let r = masked_attention(&q.view(), &k.view(), &v.view(), &[(0, 5)], Eps::one());
    assert!(r.is_err());
}

/// grouped_softavg must agree with masked_attention routed through an
/// explicit (group, row) pair stream, in every temperature regime, with
/// and without a fused selection.
#[test]
fn grouped_softavg_matches_masked_attention() {
    let n = 500;
    let d_k = 8;
    let d_v = 3;
    let n_groups = 7;
    let k = pseudo(n, d_k, 11);
    let v = pseudo(n, d_v, 12);
    let xq = pseudo(1, d_k, 13);
    let x = xq.row(0).to_owned();
    let gid: Vec<u32> = (0..n).map(|r| ((r * 31 + 7) % n_groups) as u32).collect();
    let sel: Vec<bool> = (0..n).map(|r| r % 3 != 0).collect();

    for e in [Eps::zero(), eps(0.7), Eps::inf()] {
        for use_sel in [false, true] {
            let mut q = Array2::<f64>::zeros((n_groups, d_k));
            for g in 0..n_groups {
                for c in 0..d_k {
                    q[(g, c)] = x[c];
                }
            }
            let pairs: Vec<(usize, usize)> = (0..n)
                .filter(|&r| !use_sel || sel[r])
                .map(|r| (gid[r] as usize, r))
                .collect();
            let (want, want_cov) =
                masked_attention(&q.view(), &k.view(), &v.view(), &pairs, e).unwrap();

            let (got, got_cov) = grouped_softavg(
                &x.view(),
                &k.view(),
                &v.view(),
                &gid,
                n_groups,
                if use_sel { Some(&sel) } else { None },
                e,
            )
            .unwrap();

            assert_eq!(want_cov, got_cov);
            for g in 0..n_groups {
                for c in 0..d_v {
                    close(want[(g, c)], got[(g, c)], 1e-12);
                }
            }
        }
    }
}

/// The single-precision kernel must agree with the double-precision one
/// run on the SAME stored numbers to within the scoring-precision budget.
#[test]
fn grouped_softavg_f32_matches_f64_kernel() {
    let n = 4000;
    let d_k = 16;
    let d_v = 2;
    let n_groups = 11;
    let k32 = pseudo(n, d_k, 51).mapv(|x| x as f32);
    let k64 = k32.mapv(|x| x as f64); // identical stored numbers
    let v = pseudo(n, d_v, 52).mapv(|x| x + 2.0);
    let x32 = pseudo(1, d_k, 53).row(0).mapv(|x| x as f32);
    let x64 = x32.mapv(|x| x as f64);
    let gid: Vec<u32> = (0..n).map(|r| ((r * 29 + 5) % n_groups) as u32).collect();
    let sel: Vec<bool> = (0..n).map(|r| r % 7 != 0).collect();

    for e in [eps(0.1), Eps::one()] {
        for use_sel in [false, true] {
            let s = if use_sel { Some(sel.as_slice()) } else { None };
            let (want, want_cov) =
                grouped_softavg(&x64.view(), &k64.view(), &v.view(), &gid, n_groups, s, e)
                    .unwrap();
            let (got, got_cov) =
                grouped_softavg_f32(&x32.view(), &k32.view(), &v.view(), &gid, n_groups, s, e)
                    .unwrap();
            assert_eq!(want_cov, got_cov);
            for g in 0..n_groups {
                for c in 0..d_v {
                    let rel = (got[(g, c)] - want[(g, c)]).abs() / want[(g, c)].abs();
                    assert!(rel < 1e-5, "sel={use_sel} group {g} col {c}: rel err {rel:e}");
                }
            }
        }
    }
}

fn one_thread() -> rayon::ThreadPool {
    rayon::ThreadPoolBuilder::new().num_threads(1).build().unwrap()
}

/// Chunking must not change the single-precision kernel's answer beyond
/// accumulation-order noise.
#[test]
fn grouped_softavg_f32_parallel_matches_single_thread() {
    let n = (1 << 15) + 999;
    let d_k = 8;
    let k = pseudo(n, d_k, 61).mapv(|x| x as f32);
    let v = pseudo(n, 2, 62).mapv(|x| x + 2.0);
    let x = pseudo(1, d_k, 63).row(0).mapv(|x| x as f32);
    let gid: Vec<u32> = (0..n).map(|r| (r % 13) as u32).collect();
    let (par, cov_par) =
        grouped_softavg_f32(&x.view(), &k.view(), &v.view(), &gid, 13, None, eps(0.5)).unwrap();
    let (seq, cov_seq) = one_thread()
        .install(|| grouped_softavg_f32(&x.view(), &k.view(), &v.view(), &gid, 13, None, eps(0.5)))
        .unwrap();
    assert_eq!(cov_par, cov_seq);
    for g in 0..13 {
        for c in 0..2 {
            close(par[(g, c)], seq[(g, c)], 1e-12);
        }
    }
}

/// The result must not depend on the chunking.
#[test]
fn grouped_softavg_parallel_matches_sequential() {
    let n = (1 << 15) + 1234;
    let d_k = 4;
    let k = pseudo(n, d_k, 21);
    let v = pseudo(n, 2, 22);
    let xq = pseudo(1, d_k, 23);
    let x = xq.row(0).to_owned();
    let gid: Vec<u32> = (0..n).map(|r| (r % 13) as u32).collect();
    let (par, _) =
        grouped_softavg(&x.view(), &k.view(), &v.view(), &gid, 13, None, eps(0.5)).unwrap();
    let (seq, _) = one_thread()
        .install(|| grouped_softavg(&x.view(), &k.view(), &v.view(), &gid, 13, None, eps(0.5)))
        .unwrap();
    for g in 0..13 {
        for c in 0..2 {
            close(par[(g, c)], seq[(g, c)], 1e-12);
        }
    }
}

#[test]
fn pair_lists_are_exact() {
    assert_eq!(causal_pairs(3), vec![(0, 0), (1, 0), (1, 1), (2, 0), (2, 1), (2, 2)]);
    assert_eq!(window_pairs(4, 1), vec![(0, 0), (1, 0), (1, 1), (2, 1), (2, 2), (3, 2), (3, 3)]);
    assert_eq!(window_pairs(3, 2), causal_pairs(3));
    assert_eq!(causal_pairs(0), vec![]);
}

#[test]
fn masked_attention_says_what_does_not_fit() {
    let q = pseudo(2, 2, 1);
    let k = pseudo(2, 3, 2);
    let v = pseudo(2, 2, 3);
    let e = masked_attention(&q.view(), &k.view(), &v.view(), &[], Eps::one()).unwrap_err();
    assert!(matches!(e, BruceError::DimensionMismatch { expected: 2, got: 3 }));
    let k = pseudo(3, 2, 2);
    let e = masked_attention(&q.view(), &k.view(), &v.view(), &[], Eps::one()).unwrap_err();
    assert!(matches!(e, BruceError::DimensionMismatch { expected: 3, got: 2 }));
    let k = pseudo(2, 2, 2);
    let e = masked_attention(&q.view(), &k.view(), &v.view(), &[(2, 0)], Eps::one()).unwrap_err();
    assert!(matches!(e, BruceError::InvalidArgument(_)));
}

#[test]
fn a_short_group_column_or_selection_is_refused() {
    let k = pseudo(4, 2, 1);
    let v = pseudo(4, 1, 2);
    let x = Array1::from_vec(vec![1.0, 0.0]);
    let bad = |gid: &[u32], sel: Option<&[bool]>| {
        grouped_softavg(&x.view(), &k.view(), &v.view(), gid, 2, sel, Eps::one()).is_err()
    };
    assert!(!bad(&[0, 1, 0, 1], None));
    assert!(bad(&[0, 1, 0], None));
    assert!(bad(&[0, 1, 0, 2], None));
    assert!(bad(&[0, 1, 0, 1], Some(&[true, true])));
}

#[test]
fn single_precision_dot_keeps_four_partial_sums() {
    let bits = |v: &[f32]| v.iter().map(|x| x.to_bits()).collect::<Vec<u32>>();
    for n in 0..20usize {
        let a: Vec<f32> = (0..n).map(|i| 1.0 / (i as f32 + 3.0)).collect();
        let b: Vec<f32> = (0..n).map(|i| (i as f32 * 0.7).sin()).collect();
        let mut acc = [0.0f32; 4];
        let n4 = n - n % 4;
        for i in 0..n {
            let lane = if i < n4 { i % 4 } else { 0 };
            acc[lane] += a[i] * b[i];
        }
        let want = (acc[0] + acc[1]) + (acc[2] + acc[3]);
        assert_eq!(f32::from_bits(mask::dot_f32(&bits(&a), &bits(&b), &single)), want);
    }
}

#[test]
fn masks_hold_as_many_pairs_as_their_shapes() {
    for n in 0..12usize {
        assert_eq!(2 * causal_pairs(n).len(), n * (n + 1));
        for w in 0..12usize {
            assert!(window_pairs(n, w).len() <= n * (w + 1));
        }
    }
    assert_eq!(window_pairs(10, 3).len(), 34);
}

#[test]
fn a_stray_pair_is_refused_wherever_it_stands() {
    let m = arr2(&[[1.0], [2.0]]);
    let good = [(0usize, 0usize), (1, 1), (1, 0)];
    for at in 0..=good.len() {
        let mut pairs = good.to_vec();
        pairs.insert(at, (0, 2));
        let r = masked_attention(&m.view(), &m.view(), &m.view(), &pairs, Eps::one());
        assert!(matches!(r, Err(BruceError::InvalidArgument(_))), "at {at}");
    }
}

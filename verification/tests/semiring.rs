//! The semiring layer: deformed sums, weights and the smoothing bounds.

use facetfold::arith::Op;
use facetfold::error::BruceError;
use facetfold::semiring;
use facetfold::types::Eps;

/// Double-precision arithmetic on bit patterns.
fn ieee(op: Op, a: u64, b: u64) -> u64 {
    let (x, y) = (f64::from_bits(a), f64::from_bits(b));
    let z = match op {
        Op::Plus => x + y,
        Op::Minus => x - y,
        Op::Times => x * y,
        Op::Over => x / y,
        Op::Exp => x.exp(),
        Op::Ln => x.ln(),
        Op::Sqrt => x.sqrt(),
        Op::Whole => a as f64,
        Op::Widen => f32::from_bits(a as u32) as f64,
    };
    z.to_bits()
}

fn pat(v: &[f64]) -> Vec<u64> {
    v.iter().map(|x| x.to_bits()).collect()
}

fn num(v: &[u64]) -> Vec<f64> {
    v.iter().map(|x| f64::from_bits(*x)).collect()
}

fn close(a: f64, b: f64, tol: f64) {
    assert!((a - b).abs() <= tol, "{a} vs {b}");
}

fn eps_of(e: f64) -> Eps {
    Eps(e.to_bits())
}

fn show(x: u64) -> String {
    f64::from_bits(x).to_string()
}

fn logsumexp_eps(s: &[f64], eps: Eps) -> f64 {
    f64::from_bits(semiring::logsumexp_eps(&pat(s), eps, &ieee))
}

fn softmax_eps(s: &[f64], eps: Eps) -> Vec<f64> {
    num(&semiring::softmax_eps(&pat(s), eps, &ieee))
}

fn eps_star(delta: f64, gap: f64, v_max: f64, n: usize, kappa: usize) -> Result<f64, BruceError> {
    let e = semiring::eps_star(
        delta.to_bits(),
        gap.to_bits(),
        v_max.to_bits(),
        n,
        kappa,
        &ieee,
        &show,
    )?;
    Ok(f64::from_bits(e))
}

fn dequantization_bound(s: &[f64], v_max: f64, eps: Eps) -> f64 {
    f64::from_bits(semiring::dequantization_bound(&pat(s), v_max.to_bits(), eps, &ieee))
}

fn mix(w: &[f64], v: &[f64]) -> f64 {
    w.iter().zip(v.iter()).map(|(w, v)| w * v).sum()
}

#[test]
fn logsumexp_eps_at_one_matches_python() {
    // log(exp(1) + exp(2) + exp(3)) = 3.40760596...
    let lse = logsumexp_eps(&[1.0, 2.0, 3.0], Eps::one());
    close(lse, 3.407_605_964_444_381, 1e-12);
}

#[test]
fn logsumexp_eps_zero_is_max() {
    let lse = logsumexp_eps(&[1.0, 5.0, 2.0], Eps::zero());
    assert_eq!(lse, 5.0);
}

#[test]
fn softmax_eps_zero_is_uniform_over_argmax() {
    // Two tied maxes -> 0.5, 0.5
    let w = softmax_eps(&[3.0, 1.0, 3.0], Eps::zero());
    assert_eq!(w, vec![0.5, 0.0, 0.5]);
}

#[test]
fn softmax_eps_normalises_to_one() {
    let w = softmax_eps(&[1.0, 2.0, 3.0], Eps::one());
    let z: f64 = w.iter().sum();
    close(z, 1.0, 1e-12);
}

#[test]
fn maslov_dequantization_takes_lse_to_max() {
    // As eps goes to 0 the deformed sum converges to the max
    let xs = [1.0, 5.0, 2.0];
    let mut prev = logsumexp_eps(&xs, Eps::one());
    for e in [0.5f64, 0.1, 0.01, 0.001, 0.0001] {
        let v = logsumexp_eps(&xs, Eps::new(e.to_bits()).unwrap());
        // monotonically approaching 5.0
        assert!(v <= prev + 1e-12, "the sum should be monotone in 1/eps");
        prev = v;
    }
    let limit = logsumexp_eps(&xs, Eps::new(1e-9f64.to_bits()).unwrap());
    close(limit, 5.0, 1e-6);
}

#[test]
fn empty_input_handled() {
    assert!(logsumexp_eps(&[], Eps::one()).is_infinite());
    assert!(softmax_eps(&[], Eps::one()).is_empty());
}

#[test]
fn eps_star_certifies_the_smoothing_bound() {
    // A gap-promised instance: the answer at eps* is within delta of the
    // tropical answer (argmax-mean).
    let scores = [3.0_f64, 3.0, 1.5, 0.2, -1.0]; // kappa=2, gap=1.5
    let values = [4.0_f64, 6.0, -8.0, 8.0, 7.5]; // v_max = 8
    let delta = 1e-3;
    let e = eps_star(delta, 1.5, 8.0, scores.len(), 2).unwrap();
    assert!(e > 0.0 && e.is_finite());
    let w = softmax_eps(&scores, eps_of(e));
    let a_eps = mix(&w, &values);
    let a_zero = (4.0 + 6.0) / 2.0; // argmax mean over the tie
    assert!((a_eps - a_zero).abs() <= delta, "|{a_eps} - {a_zero}| > {delta}");
    // and the evaluated bound itself certifies it
    let b = dequantization_bound(&scores, 8.0, eps_of(e));
    assert!(b <= delta + 1e-15);
    assert!((a_eps - a_zero).abs() <= b + 1e-15);
}

#[test]
fn dequantization_bound_dominates_actual_error() {
    let scores = [2.0_f64, 1.0, 0.5, 0.4];
    let values = [1.0_f64, -1.0, 0.7, -0.3]; // v_max = 1
    let a_zero = 1.0; // unique argmax -> v[0]
    for eps in [0.1, 0.3, 1.0, 4.0] {
        let w = softmax_eps(&scores, eps_of(eps));
        let a_eps = mix(&w, &values);
        let b = dequantization_bound(&scores, 1.0, eps_of(eps));
        assert!((a_eps - a_zero).abs() <= b, "eps={eps}: |{a_eps} - {a_zero}| > bound {b}");
    }
}

#[test]
fn dequantization_bound_zero_on_full_tie_and_at_zero() {
    assert_eq!(dequantization_bound(&[2.0, 2.0], 5.0, Eps::one()), 0.0);
    assert_eq!(dequantization_bound(&[2.0, 1.0], 5.0, Eps::zero()), 0.0);
}

#[test]
fn eps_star_rejects_vacuous_delta() {
    assert!(eps_star(1e9, 1.0, 1.0, 4, 1).is_err());
    assert!(eps_star(0.1, 1.0, 1.0, 4, 4).is_err());
    assert!(eps_star(-0.1, 1.0, 1.0, 4, 1).is_err());
}

#[test]
fn eps_star_is_the_stated_formula() {
    // gap / ln(2 v_max (n - kappa) / (kappa delta))
    let e = eps_star(1e-3, 1.5, 8.0, 5, 2).unwrap();
    let want = 1.5 / (2.0 * 8.0 * 3.0 / (2.0 * 1e-3f64)).ln();
    close(e, want, 1e-12);
}

#[test]
fn negative_or_undefined_temperatures_are_refused() {
    assert!(matches!(Eps::new((-0.5f64).to_bits()), Err(BruceError::InvalidEpsilon(_))));
    assert!(matches!(Eps::new(f64::NAN.to_bits()), Err(BruceError::InvalidEpsilon(_))));
    assert!(Eps::new(0.0f64.to_bits()).unwrap().is_zero());
    assert!(Eps::new(f64::INFINITY.to_bits()).unwrap().is_inf());
    assert_eq!(f64::from_bits(Eps::quarter().0), 0.25);
    assert_eq!(f64::from_bits(Eps::one().0), 1.0);
}

#[test]
fn weighted_sums_follow_the_weights() {
    let sum = |s: &[f64], v: &[f64], e: Eps| {
        f64::from_bits(semiring::sum_eps(&pat(s), &pat(v), e, &ieee))
    };
    // the tropical limit keeps the rows of the largest score
    assert_eq!(sum(&[1.0, 3.0, 3.0], &[10.0, 2.0, 5.0], Eps::zero()), 7.0);
    // the plain weighted sum at a moderate temperature
    let want = (1.0f64).exp() * 10.0 + (3.0f64).exp() * 7.0;
    close(sum(&[1.0, 3.0, 3.0], &[10.0, 2.0, 5.0], Eps::one()), want, 1e-10);
}

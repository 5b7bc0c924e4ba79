//! Noise mechanisms.

use facetfold::arith::Op;
use facetfold::dp::{DpBudget, GaussianMechanism, LaplaceMechanism};
use rand::rngs::StdRng;
use rand::{Rng, SeedableRng};

/// Double-precision arithmetic on bit patterns.
fn ieee(op: Op, a: u64, b: u64) -> u64 {
    let (x, y) = (f64::from_bits(a), f64::from_bits(b));
    let z = match op {
        Op::Plus => x + y,
        Op::Minus => x - y,
        Op::Times => x * y,
        Op::Over => x / y,
        Op::Exp => x.exp(),
        Op::Ln => x.ln(),
        Op::Sqrt => x.sqrt(),
        Op::Whole => a as f64,
        Op::Widen => f32::from_bits(a as u32) as f64,
    };
    z.to_bits()
}

fn pat(v: &[f64]) -> Vec<u64> {
    v.iter().map(|x| x.to_bits()).collect()
}

fn num(v: &[u64]) -> Vec<f64> {
    v.iter().map(|x| f64::from_bits(*x)).collect()
}

fn close(a: f64, b: f64, tol: f64) {
    assert!((a - b).abs() <= tol, "{a} vs {b}");
}

fn pure(epsilon: f64) -> DpBudget {
    DpBudget::pure(epsilon.to_bits())
}

fn uniform(rng: &mut StdRng) -> u64 {
    let u: f64 = rng.gen_range(-0.5..0.5);
    u.to_bits()
}

#[test]
fn laplace_is_unbiased_in_expectation() {
    // Average a lot of draws; the mean should approach zero
    let mech = LaplaceMechanism::new(1.0f64.to_bits(), pure(0.5));
    let mut rng = StdRng::seed_from_u64(123);
    let mut sum = 0.0;
    let n = 100_000;
    for _ in 0..n {
        sum += f64::from_bits(mech.sample(uniform(&mut rng), &ieee));
    }
    let mean = sum / n as f64;
    // The deviation of the mean over 100K samples is about 0.009.
    assert!(mean.abs() < 0.05, "Laplace mean drift: {mean}");
}

#[test]
fn gaussian_sigma_matches_formula() {
    let mech = GaussianMechanism::new(
        1.0f64.to_bits(),
        DpBudget { epsilon: 1.0f64.to_bits(), delta: 1e-5f64.to_bits() },
    );
    let expected = (2.0_f64 * (1.25_f64 / 1e-5).ln()).sqrt();
    assert!((f64::from_bits(mech.sigma(&ieee)) - expected).abs() < 1e-12);
}

#[test]
fn laplace_release_reproducible_with_seed() {
    let mech = LaplaceMechanism::new(1.0f64.to_bits(), pure(1.0)).with_seed(42);
    let release = || {
        let mut rng = StdRng::seed_from_u64(mech.seed.unwrap());
        mech.release_scalar(100.0f64.to_bits(), uniform(&mut rng), &ieee)
    };
    let a = release();
    let b = release();
    assert_eq!(a, b); // same seed, same noise
}

#[test]
fn release_vector_perturbs_every_element() {
    let mech = LaplaceMechanism::new(1.0f64.to_bits(), pure(0.1)).with_seed(7);
    let true_vals = vec![1.0; 10];
    let mut rng = StdRng::seed_from_u64(7);
    let draws: Vec<u64> = (0..10).map(|_| uniform(&mut rng)).collect();
    let out = num(&mech.release_vector(&pat(&true_vals), &draws, &ieee));
    assert_eq!(out.len(), 10);
    // at least one element should differ from true
    let differs = out.iter().any(|&v| (v - 1.0).abs() > 1e-12);
    assert!(differs);
}

#[test]
fn laplace_noise_is_the_inverse_of_its_distribution() {
    let mech = LaplaceMechanism::new(2.0f64.to_bits(), pure(0.5));
    let noise = |u: f64| f64::from_bits(mech.sample(u.to_bits(), &ieee));
    // scale b = 2 / 0.5 = 4; -b sgn(u) ln(1 - 2|u|)
    close(noise(0.25), -4.0 * (0.5f64).ln(), 1e-12);
    close(noise(-0.25), 4.0 * (0.5f64).ln(), 1e-12);
    close(noise(0.0), 0.0, 0.0);
    let r = mech.release_scalar(10.0f64.to_bits(), 0.25f64.to_bits(), &ieee);
    close(f64::from_bits(r), 10.0 - 4.0 * (0.5f64).ln(), 1e-12);
}

#[test]
fn gaussian_release_adds_the_draw() {
    let mech = GaussianMechanism::new(1.0f64.to_bits(), DpBudget::standard()).with_seed(3);
    assert_eq!(mech.seed, Some(3));
    let r = mech.release_scalar(2.0f64.to_bits(), 0.5f64.to_bits(), &ieee);
    assert_eq!(f64::from_bits(r), 2.5);
    let r = mech.release_vector(&pat(&[1.0, 2.0]), &pat(&[0.25, -0.5]), &ieee);
    assert_eq!(num(&r), vec![1.25, 1.5]);
    let b = DpBudget::standard();
    assert_eq!((f64::from_bits(b.epsilon), f64::from_bits(b.delta)), (1.0, 1e-5));
}

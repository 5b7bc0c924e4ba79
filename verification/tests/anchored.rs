//! What an accumulator holds in each regime.

use facetfold::arith::Op;
use facetfold::fold::RowAcc;
use facetfold::types::Eps;

/// Double-precision arithmetic on bit patterns.
fn ieee(op: Op, a: u64, b: u64) -> u64 {
    let (x, y) = (f64::from_bits(a), f64::from_bits(b));
    let z = match op {
        Op::Plus => x + y,
        Op::Minus => x - y,
        Op::Times => x * y,
        Op::Over => x / y,
        Op::Exp => x.exp(),
        Op::Ln => x.ln(),
        Op::Sqrt => x.sqrt(),
        Op::Whole => a as f64,
        Op::Widen => f32::from_bits(a as u32) as f64,
    };
    z.to_bits()
}

fn folded(rows: &[(f64, f64)], eps: Eps) -> (f64, f64, f64) {
    let mut acc = RowAcc::new(1);
    for (s, v) in rows {
        acc.absorb(s.to_bits(), &[v.to_bits()], eps, &ieee);
    }
    (f64::from_bits(acc.mu), f64::from_bits(acc.z), f64::from_bits(acc.u[0]))
}

#[test]
fn uniform_limit_holds_count_and_sum() {
    let rows = [(3.0, 1.0), (-7.0, 2.0), (0.5, 4.0)];
    assert_eq!(folded(&rows, Eps::inf()), (f64::NEG_INFINITY, 3.0, 7.0));
}

#[test]
fn tropical_limit_holds_count_and_sum_of_the_largest() {
    let rows = [(1.0, 100.0), (3.0, 4.0), (2.0, 100.0), (3.0, 6.0), (f64::NEG_INFINITY, 1.0)];
    assert_eq!(folded(&rows, Eps::zero()), (3.0, 2.0, 10.0));
    assert_eq!(folded(&[(f64::NEG_INFINITY, 5.0)], Eps::zero()), (f64::NEG_INFINITY, 0.0, 0.0));
}

#[test]
fn between_the_limits_sums_are_anchored_at_the_largest_score() {
    // scores apart by so much that the lower weights vanish, so that no sum
    // rounds: the anchored weights are 0 and 1
    let rows = [(0.0, 8.0), (2000.0, 3.0), (2000.0, 5.0), (1.0, 9.0)];
    assert_eq!(folded(&rows, Eps::one()), (2000.0, 2.0, 8.0));
    // and with weights that do not vanish, up to rounding
    let (mu, z, u) = folded(&[(0.0, 8.0), (1.0, 2.0)], Eps::one());
    let w = (-1.0f64).exp();
    assert_eq!(mu, 1.0);
    assert!((z - (1.0 + w)).abs() < 1e-15);
    assert!((u - (2.0 + 8.0 * w)).abs() < 1e-14);
}

#[test]
fn mass_lies_between_one_and_the_number_of_rows() {
    let rows = [(0.25, 8.0), (-3.0, 1.0), (0.5, 2.0), (f64::NEG_INFINITY, 7.0), (0.5, 4.0)];
    for eps in [Eps::zero(), Eps::one(), Eps::inf()] {
        let (mu, z, _) = folded(&rows, eps);
        assert!((1.0..=5.0).contains(&z), "mass {z}");
        if eps.0 != Eps::inf().0 {
            assert_eq!(mu, 0.5);
        }
    }
}

#[test]
fn rows_at_plus_infinity_are_counted_and_summed_alone() {
    let inf = f64::INFINITY;
    let rows = [(1.0, 10.0), (inf, 4.0), (0.5, 9.0), (inf, 6.0), (f64::NEG_INFINITY, 8.0)];
    for eps in [Eps::zero(), Eps::quarter(), Eps::one()] {
        assert_eq!(folded(&rows, eps), (inf, 2.0, 10.0));
        let mut back = rows;
        back.reverse();
        assert_eq!(folded(&back, eps), (inf, 2.0, 10.0));
    }
}

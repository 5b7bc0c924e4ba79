//! The aggregate: scalar accumulator, encoded state and its three functions.

use facetfold::arith::Op;
use facetfold::mask;
use facetfold::matrix::{Matrix, Shape};
use facetfold::softavg::{
    bruce_softavg_combine, bruce_softavg_final, bruce_softavg_sfunc, check_eps, decode_checked,
    encode, PgAcc, ScalarAcc, STATE_LEN,
};
use facetfold::types::Eps;

const NAN: f64 = f64::NAN;
const INF: f64 = f64::INFINITY;

/// Double-precision arithmetic on bit patterns.
fn ieee(op: Op, a: u64, b: u64) -> u64 {
    let (x, y) = (f64::from_bits(a), f64::from_bits(b));
    let z = match op {
        Op::Plus => x + y,
        Op::Minus => x - y,
        Op::Times => x * y,
        Op::Over => x / y,
        Op::Exp => x.exp(),
        Op::Ln => x.ln(),
        Op::Sqrt => x.sqrt(),
        Op::Whole => a as f64,
        Op::Widen => f32::from_bits(a as u32) as f64,
    };
    z.to_bits()
}

fn eps_of(e: f64) -> Eps {
    Eps(e.to_bits())
}

fn show(x: u64) -> String {
    f64::from_bits(x).to_string()
}

fn absorb(acc: &mut ScalarAcc, s: f64, v: f64, eps: Eps) {
    acc.absorb(s.to_bits(), v.to_bits(), eps, &ieee);
}

fn pg_absorb(acc: &mut PgAcc, s: f64, v: f64, eps: Eps) {
    acc.absorb(s.to_bits(), v.to_bits(), eps, &ieee);
}

fn result(acc: &ScalarAcc) -> Option<f64> {
    acc.finalize(&ieee).map(f64::from_bits)
}

fn pg_result(acc: &PgAcc) -> Option<f64> {
    acc.finalize(&ieee).map(f64::from_bits)
}

fn parts(a: &ScalarAcc) -> (u64, u64, u64) {
    (a.mu, a.z, a.u)
}

/// Deterministic fixture with duplicate scores (exercises the eps = 0 tie
/// path) and both signs.
fn fixture(n: usize) -> (Vec<f64>, Vec<f64>) {
    let scores: Vec<f64> = (0..n).map(|i| ((i * 7919 % 97) as f64) / 48.5 - 1.0).collect();
    let values: Vec<f64> = (0..n).map(|i| ((i * 104729 % 1009) as f64) / 100.9 - 5.0).collect();
    (scores, values)
}

/// The masked fold's answer, or `None` when it reports the row uncovered
/// (SQL NULL).
fn reference_opt(scores: &[f64], values: &[f64], eps: Eps) -> Option<f64> {
    let n = scores.len();
    let v = Matrix::new(values.iter().map(|x| vec![x.to_bits()]).collect(), 1).unwrap();
    let pairs: Vec<(usize, usize)> = (0..n).map(|j| (0, j)).collect();
    let score = |_: usize, j: usize| scores[j].to_bits();
    let (out, covered) = mask::masked_attention(
        Shape { rows: 1, cols: 1 },
        Shape { rows: n, cols: 1 },
        &v,
        &pairs,
        eps,
        &score,
        &ieee,
    )
    .unwrap();
    if covered[0] {
        Some(f64::from_bits(out.at(0, 0)))
    } else {
        None
    }
}

fn reference(scores: &[f64], values: &[f64], eps: Eps) -> f64 {
    reference_opt(scores, values, eps).expect("reference row uncovered")
}

fn fold(scores: &[f64], values: &[f64], eps: Eps) -> ScalarAcc {
    let mut acc = ScalarAcc::new();
    for (&s, &v) in scores.iter().zip(values.iter()) {
        absorb(&mut acc, s, v, eps);
    }
    acc
}

fn five() -> [Eps; 5] {
    [Eps::zero(), eps_of(1e-4), eps_of(0.3), Eps::one(), Eps::inf()]
}

fn three() -> [Eps; 3] {
    [Eps::zero(), eps_of(0.37), Eps::inf()]
}

fn near(got: f64, want: f64) -> bool {
    got == want || (got - want).abs() <= 1e-12 * want.abs().max(1.0)
}

#[test]
fn sequential_fold_matches_bruce_core() {
    let (scores, values) = fixture(257);
    for eps in five() {
        let got = result(&fold(&scores, &values, eps)).unwrap();
        let want = reference(&scores, &values, eps);
        assert!(near(got, want), "eps={eps:?}: got {got}, want {want}");
    }
}

#[test]
fn partitioned_merge_matches_bruce_core() {
    let (scores, values) = fixture(257);
    for eps in five() {
        for n_parts in [2, 4, 7] {
            let chunk = scores.len().div_ceil(n_parts);
            let mut total = ScalarAcc::new();
            for part in scores.chunks(chunk).zip(values.chunks(chunk)) {
                total.merge(&fold(part.0, part.1, eps), eps, &ieee);
            }
            let got = result(&total).unwrap();
            let want = reference(&scores, &values, eps);
            assert!(near(got, want), "eps={eps:?} parts={n_parts}: got {got}, want {want}");
        }
    }
}

#[test]
fn empty_and_identity_element() {
    // the empty accumulator is the identity on both sides of merge
    for eps in [Eps::zero(), eps_of(0.5), Eps::inf()] {
        let mut acc = ScalarAcc::new();
        assert_eq!(result(&acc), None);
        let mut filled = ScalarAcc::new();
        absorb(&mut filled, 0.3, 7.0, eps);
        acc.merge(&filled, eps, &ieee);
        assert_eq!(result(&acc), Some(7.0));
        let mut left = filled;
        left.merge(&ScalarAcc::new(), eps, &ieee);
        assert_eq!(result(&left), Some(7.0));
    }
}

#[test]
fn inf_scores_match_bruce_core_sequentially_and_under_partitions() {
    let cases: [(&[f64], &[f64]); 5] = [
        // +inf dominates a finite prefix and a finite suffix
        (&[1.0, INF, 2.0], &[10.0, 55.0, 20.0]),
        // ties among +inf rows average uniformly, as at eps = 0
        (&[INF, 3.0, INF], &[50.0, 999.0, 60.0]),
        // -inf weighs 0
        (&[-INF, 1.0], &[888.0, 10.0]),
        // both infinities plus finite rows
        (&[-INF, 1.0, INF, 0.5, INF], &[888.0, 10.0, 4.0, 20.0, 6.0]),
        // +inf first, so the anchor is set before any finite row
        (&[INF, -INF, 0.25], &[7.0, 888.0, 20.0]),
    ];
    for eps in [Eps::zero(), eps_of(1e-4), eps_of(0.37), Eps::one(), Eps::inf()] {
        for (scores, values) in cases {
            let want = reference(scores, values, eps);
            let got = result(&fold(scores, values, eps)).expect("empty acc");
            assert!(near(got, want), "eps={eps:?} scores={scores:?}: got {got}, want {want}");
            for n_parts in [2, 3, 5] {
                let chunk = scores.len().div_ceil(n_parts);
                let mut total = ScalarAcc::new();
                for part in scores.chunks(chunk).zip(values.chunks(chunk)) {
                    total.merge(&fold(part.0, part.1, eps), eps, &ieee);
                }
                let merged = result(&total).expect("empty acc after merge");
                assert!(
                    near(merged, want),
                    "eps={eps:?} parts={n_parts} scores={scores:?}: {merged} vs {want}"
                );
            }
        }
    }
}

#[test]
fn all_neg_inf_group_is_empty_like_bruce_cores_uncovered() {
    let s = [-INF, -INF];
    let v = [888.0, 999.0];
    for eps in [Eps::zero(), eps_of(0.37), Eps::one()] {
        assert_eq!(reference_opt(&s, &v, eps), None);
        let acc = fold(&s, &v, eps);
        assert!(acc.is_empty(), "eps={eps:?}: -inf rows must carry weight 0");
        assert_eq!(result(&acc), None, "eps={eps:?}");
    }
    // eps = inf is score-blind: the same rows are a plain mean.
    let acc = fold(&s, &v, Eps::inf());
    assert_eq!(result(&acc), Some(943.5));
    assert_eq!(reference_opt(&s, &v, Eps::inf()), Some(943.5));
}

/// The masked fold skips NaN because NaN is its encoding of SQL NULL; the
/// aggregate propagates it, because SQL has a real NULL and NaN is a real
/// value there. The monoid factor of the state is the same on both sides.
#[test]
fn nan_input_diverges_from_bruce_core_by_design() {
    let scores = [1.0, NAN, 2.0, 0.5, 3.0];
    let values = [10.0, 777.0, 20.0, NAN, 30.0];
    let clean_scores = [1.0, 2.0, 3.0];
    let clean_values = [10.0, 20.0, 30.0];
    for eps in [Eps::zero(), eps_of(1e-4), eps_of(0.37), Eps::one(), Eps::inf()] {
        let want = reference(&clean_scores, &clean_values, eps);

        let mut pg = PgAcc::new();
        for (&s, &v) in scores.iter().zip(values.iter()) {
            pg_absorb(&mut pg, s, v, eps);
        }
        assert!(pg.nan_seen, "eps={eps:?}: sticky NaN bit must be set");

        // (1) the NaN rows never entered the monoid factor
        let clean = fold(&clean_scores, &clean_values, eps);
        assert_eq!(parts(&pg.acc), parts(&clean), "eps={eps:?}: monoid factor diverged");
        let monoid = result(&pg.acc).unwrap();
        assert!(near(monoid, want), "eps={eps:?}: monoid factor {monoid} != {want}");

        // (2) the aggregate turns that same state into NaN
        let out = pg_result(&pg).expect("must not be NULL");
        assert!(out.is_nan(), "eps={eps:?}: NaN must propagate, got {out}");
    }
}

#[test]
fn nan_bit_survives_combine_from_either_side() {
    for eps in three() {
        let mut clean = PgAcc::new();
        pg_absorb(&mut clean, 0.5, 1.0, eps);
        let mut dirty = PgAcc::new();
        pg_absorb(&mut dirty, 0.5, NAN, eps);
        for (a, b) in [(clean, dirty), (dirty, clean)] {
            let mut merged = a;
            merged.merge(&b, eps, &ieee);
            assert!(merged.nan_seen, "eps={eps:?}: NaN bit lost across merge");
            assert!(pg_result(&merged).unwrap().is_nan(), "eps={eps:?}");
        }
        // clean + clean stays clean
        let mut merged = clean;
        merged.merge(&clean, eps, &ieee);
        assert!(!merged.nan_seen, "eps={eps:?}: NaN bit invented from nothing");
        assert_eq!(pg_result(&merged), Some(1.0), "eps={eps:?}");
    }
}

#[test]
fn all_nan_group_is_nan_not_null() {
    for eps in three() {
        let mut pg = PgAcc::new();
        for _ in 0..3 {
            pg_absorb(&mut pg, NAN, NAN, eps);
        }
        assert!(pg.acc.is_empty(), "eps={eps:?}: monoid factor must stay empty");
        let out = pg_result(&pg);
        assert!(out.is_some_and(|x| x.is_nan()), "eps={eps:?}: want NaN, got {out:?}");
    }
}

#[test]
fn state_encoding_round_trips_both_factors() {
    for eps in three() {
        for rows in [
            &[(1.0, 10.0), (INF, 5.0)][..],
            &[(-INF, 3.0)][..],
            &[(0.5, NAN), (1.5, 2.0)][..],
        ] {
            let mut pg = PgAcc::new();
            for &(s, v) in rows {
                pg_absorb(&mut pg, s, v, eps);
            }
            let enc = encode(&pg, eps.0);
            assert_eq!(enc.len(), STATE_LEN);
            let (back, eps_back) = decode_checked(&enc).expect("well-formed state");
            // a wrong-length array is rejected, not misread
            assert!(decode_checked(&enc[..4]).is_none());
            assert_eq!(parts(&back.acc), parts(&pg.acc), "eps={eps:?}");
            assert_eq!(back.nan_seen, pg.nan_seen, "eps={eps:?}");
            assert_eq!(eps_back, eps.0, "eps={eps:?}: temperature did not round-trip");
        }
    }
}

type State = Option<Vec<u64>>;

fn step(st: State, v: Option<f64>, s: Option<f64>, e: Option<f64>) -> Result<State, String> {
    let b = |x: Option<f64>| x.map(|y| y.to_bits());
    bruce_softavg_sfunc(st, b(v), b(s), b(e), &ieee, &show)
}

fn run(rows: &[(Option<f64>, Option<f64>)], eps: f64) -> State {
    let mut st: State = None;
    for (v, s) in rows {
        st = step(st, *v, *s, Some(eps)).unwrap();
    }
    st
}

fn answer(st: State) -> Option<f64> {
    bruce_softavg_final(st, &ieee).unwrap().map(f64::from_bits)
}

#[test]
fn null_rows_are_skipped_and_an_empty_group_is_null() {
    assert_eq!(answer(None), None);
    let st = run(&[(Some(10.0), Some(1.0)), (None, Some(9.0)), (Some(3.0), None)], 0.0);
    assert_eq!(answer(st), Some(10.0));
}

#[test]
fn split_groups_combine_to_the_whole() {
    let rows: Vec<(Option<f64>, Option<f64>)> =
        (0..40).map(|i| (Some((i as f64 * 0.7).sin()), Some((i as f64 * 0.3).cos()))).collect();
    let whole = answer(run(&rows, 0.25)).unwrap();
    let a = run(&rows[..13], 0.25);
    let b = run(&rows[13..], 0.25);
    let c = bruce_softavg_combine(a, b, &ieee, &show).unwrap();
    assert!(near(answer(c).unwrap(), whole));
    let only = bruce_softavg_combine(None, run(&rows, 0.25), &ieee, &show).unwrap();
    assert_eq!(answer(only), Some(whole));
}

#[test]
fn bad_temperatures_and_states_are_refused() {
    assert!(check_eps((-1.0f64).to_bits(), &show).is_err());
    assert!(check_eps(NAN.to_bits(), &show).is_err());
    assert_eq!(check_eps(0.5f64.to_bits(), &show), Ok(0.5f64.to_bits()));
    assert!(step(None, Some(1.0), Some(1.0), Some(-1.0)).is_err());
    let st = run(&[(Some(1.0), Some(1.0))], 0.5);
    assert!(step(st, Some(1.0), Some(1.0), Some(0.25)).is_err(), "the temperature must not vary");
    assert!(bruce_softavg_final(Some(vec![0; 3]), &ieee).is_err());
}

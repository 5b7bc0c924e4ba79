//! The incrementally maintained answer.

use facetfold::arith::Op;
use facetfold::crud::IncrementalMemory;
use facetfold::error::BruceError;
use facetfold::operator::Measure;
use facetfold::types::{Eps, Sim};

/// Double-precision arithmetic on bit patterns.
fn ieee(op: Op, a: u64, b: u64) -> u64 {
    let (x, y) = (f64::from_bits(a), f64::from_bits(b));
    let z = match op {
        Op::Plus => x + y,
        Op::Minus => x - y,
        Op::Times => x * y,
        Op::Over => x / y,
        Op::Exp => x.exp(),
        Op::Ln => x.ln(),
        Op::Sqrt => x.sqrt(),
        Op::Whole => a as f64,
        Op::Widen => f32::from_bits(a as u32) as f64,
    };
    z.to_bits()
}

fn pat(v: &[f64]) -> Vec<u64> {
    v.iter().map(|x| x.to_bits()).collect()
}

fn num(v: &[u64]) -> Vec<f64> {
    v.iter().map(|x| f64::from_bits(*x)).collect()
}

fn close(a: f64, b: f64, tol: f64) {
    assert!((a - b).abs() <= tol, "{a} vs {b}");
}

fn measured(x: &[f64], k: &[f64], m: Measure) -> u64 {
    let r: f64 = match m {
        Measure::Product => x.iter().zip(k).map(|(a, b)| a * b).sum(),
        Measure::SquaredDistance => x.iter().zip(k).map(|(a, b)| (a - b) * (a - b)).sum(),
    };
    r.to_bits()
}

fn insert(
    m: &mut IncrementalMemory,
    x: &[f64],
    key: &str,
    k: &[f64],
    v: &[f64],
) -> Result<(), BruceError> {
    let measure = |what: Measure, _: usize| measured(x, k, what);
    m.insert(key, k.len(), &pat(v), &measure, &ieee)
}

#[test]
fn insert_then_output_matches_recompute() {
    let x = [1.0, 0.0];
    let mut m = IncrementalMemory::new(2, Eps::one(), 1, Sim::Dot);
    insert(&mut m, &x, "a", &[1.0, 0.0], &[10.0]).unwrap();
    insert(&mut m, &x, "b", &[0.0, 1.0], &[20.0]).unwrap();
    let out = num(&m.output(&ieee));
    let e = std::f64::consts::E;
    let expected = 10.0 * e / (e + 1.0) + 20.0 / (e + 1.0);
    close(out[0], expected, 1e-12);
}

#[test]
fn delete_recovers_never_inserted() {
    // insert N records, delete one: the result is that of the others
    let x = [1.0];
    let mut m = IncrementalMemory::new(1, Eps::one(), 1, Sim::Dot);
    for i in 0..50 {
        insert(&mut m, &x, &format!("k{i}"), &[i as f64 * 0.1], &[i as f64]).unwrap();
    }
    m.delete("k7", &ieee).unwrap();
    let out_after = num(&m.output(&ieee));

    let mut m2 = IncrementalMemory::new(1, Eps::one(), 1, Sim::Dot);
    for i in 0..50 {
        if i == 7 {
            continue;
        }
        insert(&mut m2, &x, &format!("k{i}"), &[i as f64 * 0.1], &[i as f64]).unwrap();
    }
    let out_clean = num(&m2.output(&ieee));
    let err = (out_after[0] - out_clean[0]).abs();
    assert!(err < 1e-12, "expected bit-level identity, got err = {err:e}");
}

#[test]
fn delete_of_dominant_record_triggers_rescale() {
    let x = [1.0];
    let mut m = IncrementalMemory::new(1, Eps::one(), 1, Sim::Dot);
    insert(&mut m, &x, "dominant", &[10.0], &[1000.0]).unwrap();
    for i in 1..20 {
        insert(&mut m, &x, &format!("k{i}"), &[0.01], &[i as f64]).unwrap();
    }
    let pre = num(&m.output(&ieee));
    m.delete("dominant", &ieee).unwrap();
    let post = num(&m.output(&ieee));
    assert!(
        (pre[0] - post[0]).abs() > 1.0,
        "expected dominant delete to change output significantly"
    );
    assert!(m.n_rescales() >= 1, "expected at least one rescale");
}

#[test]
fn tropical_eps_zero_sum_works() {
    // only exact-matching keys contribute
    let x = [1.0];
    let mut m = IncrementalMemory::new(1, Eps::zero(), 1, Sim::Indicator);
    insert(&mut m, &x, "match1", &[1.0], &[10.0]).unwrap();
    insert(&mut m, &x, "nomatch", &[0.0], &[999.0]).unwrap();
    insert(&mut m, &x, "match2", &[1.0], &[20.0]).unwrap();
    // SQL: SELECT AVG(v) WHERE k = 1 -> (10 + 20) / 2 = 15
    let out = num(&m.output(&ieee));
    assert_eq!(out[0], 15.0);
}

#[test]
fn each_refusal_leaves_the_memory_as_it_was() {
    let x = [1.0];
    let mut m = IncrementalMemory::new(1, Eps::one(), 1, Sim::Dot);
    assert!(m.is_empty());
    insert(&mut m, &x, "a", &[1.0], &[4.0]).unwrap();
    let before = m.output(&ieee);
    match insert(&mut m, &x, "a", &[2.0], &[5.0]) {
        Err(BruceError::DuplicateKey(k)) => assert_eq!(k, "a"),
        _ => panic!("a second insert of a key"),
    }
    match m.delete("zz", &ieee) {
        Err(BruceError::KeyNotFound(k)) => assert_eq!(k, "zz"),
        _ => panic!("a delete of an absent key"),
    }
    assert!(matches!(
        insert(&mut m, &x, "b", &[1.0, 2.0], &[5.0]),
        Err(BruceError::DimensionMismatch { expected: 1, got: 2 })
    ));
    assert!(matches!(
        insert(&mut m, &x, "b", &[1.0], &[5.0, 6.0]),
        Err(BruceError::DimensionMismatch { expected: 1, got: 2 })
    ));
    assert_eq!(m.output(&ieee), before);
    assert_eq!(m.len(), 1);
}

#[test]
fn update_replaces_the_record() {
    let x = [1.0];
    let mut m = IncrementalMemory::new(1, Eps::one(), 1, Sim::Dot);
    insert(&mut m, &x, "a", &[1.0], &[4.0]).unwrap();
    let k = [3.0];
    let measure = |what: Measure, _: usize| measured(&x, &k, what);
    m.update("a", 1, &pat(&[9.0]), &measure, &ieee).unwrap();
    assert_eq!(m.len(), 1);
    close(num(&m.output(&ieee))[0], 9.0, 1e-12);
    m.delete("a", &ieee).unwrap();
    assert!(m.is_empty());
    assert_eq!(num(&m.output(&ieee)), vec![0.0]);
}

#[test]
fn deleting_the_only_match_leaves_nothing() {
    let mut m = IncrementalMemory::new(1, Eps::zero(), 1, Sim::Indicator);
    insert(&mut m, &[1.0], "match1", &[1.0], &[10.0]).unwrap();
    insert(&mut m, &[1.0], "nomatch", &[0.0], &[999.0]).unwrap();
    m.delete("match1", &ieee).unwrap();
    assert_eq!(m.len(), 1);
    assert_eq!(num(&m.output(&ieee)), vec![0.0]);
    // and so where the weights are not all or nothing
    for eps in [Eps::one(), Eps::quarter()] {
        let mut m = IncrementalMemory::new(1, eps, 1, Sim::Indicator);
        insert(&mut m, &[1.0], "nomatch", &[0.0], &[999.0]).unwrap();
        assert_eq!(num(&m.output(&ieee)), vec![0.0]);
        insert(&mut m, &[1.0], "match1", &[1.0], &[10.0]).unwrap();
        assert_eq!(num(&m.output(&ieee)), vec![10.0]);
        m.delete("match1", &ieee).unwrap();
        assert_eq!(num(&m.output(&ieee)), vec![0.0]);
        m.delete("nomatch", &ieee).unwrap();
        assert!(m.is_empty());
        assert_eq!(num(&m.output(&ieee)), vec![0.0]);
    }
}

#[test]
fn in_the_uniform_limit_every_record_has_weight_one() {
    let mut m = IncrementalMemory::new(1, Eps::inf(), 1, Sim::Indicator);
    insert(&mut m, &[1.0], "nomatch", &[0.0], &[30.0]).unwrap();
    assert_eq!(num(&m.output(&ieee)), vec![30.0]);
    insert(&mut m, &[1.0], "match1", &[1.0], &[10.0]).unwrap();
    assert_eq!(num(&m.output(&ieee)), vec![20.0]);
    m.delete("match1", &ieee).unwrap();
    assert_eq!(num(&m.output(&ieee)), vec![30.0]);
    m.delete("nomatch", &ieee).unwrap();
    assert!(m.is_empty());
    assert_eq!(num(&m.output(&ieee)), vec![0.0]);
}

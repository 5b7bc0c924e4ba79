//! Partition and reduce.

use facetfold::arith::Op;
use facetfold::distributed::{combine, finalize, PartialTriple};
use facetfold::types::Eps;

/// Double-precision arithmetic on bit patterns.
fn ieee(op: Op, a: u64, b: u64) -> u64 {
    let (x, y) = (f64::from_bits(a), f64::from_bits(b));
    let z = match op {
        Op::Plus => x + y,
        Op::Minus => x - y,
        Op::Times => x * y,
        Op::Over => x / y,
        Op::Exp => x.exp(),
        Op::Ln => x.ln(),
        Op::Sqrt => x.sqrt(),
        Op::Whole => a as f64,
        Op::Widen => f32::from_bits(a as u32) as f64,
    };
    z.to_bits()
}

fn pat(v: &[f64]) -> Vec<u64> {
    v.iter().map(|x| x.to_bits()).collect()
}

fn num(v: &[u64]) -> Vec<f64> {
    v.iter().map(|x| f64::from_bits(*x)).collect()
}

fn close(a: f64, b: f64, tol: f64) {
    assert!((a - b).abs() <= tol, "{a} vs {b}");
}

#[test]
fn partition_reduce_matches_single_machine() {
    let n = 1000;
    let d_v = 4;
    let eps = Eps::one();
    let scores: Vec<f64> = (0..n).map(|i| (i as f64 * 0.001).sin()).collect();
    let values: Vec<Vec<f64>> = (0..n).map(|i| vec![i as f64; d_v]).collect();

    // single-machine reference
    let m = scores.iter().copied().fold(f64::NEG_INFINITY, f64::max);
    let mut num_ref = vec![0.0f64; d_v];
    let mut den = 0.0;
    for (s, v) in scores.iter().zip(&values) {
        let w = (s - m).exp();
        for c in 0..d_v {
            num_ref[c] += w * v[c];
        }
        den += w;
    }
    let ref_out: Vec<f64> = num_ref.iter().map(|x| x / den).collect();

    let sb = pat(&scores);
    let vb: Vec<Vec<u64>> = values.iter().map(|v| pat(v)).collect();
    for p in [2, 4, 8, 16, 64, 128] {
        let chunk = n / p;
        let partials: Vec<PartialTriple> = (0..p)
            .map(|i| {
                let lo = i * chunk;
                let hi = if i == p - 1 { n } else { (i + 1) * chunk };
                PartialTriple::from_pairs(&sb[lo..hi], &vb[lo..hi], eps, &ieee)
            })
            .collect();
        let out = num(&finalize(&combine(&partials, eps, &ieee), &ieee));
        let scale = ref_out[0].abs().max(1.0);
        for j in 0..d_v {
            close(out[j], ref_out[j], scale * 1e-12);
        }
    }
}

#[test]
fn tropical_partition_reduce_correct() {
    // eps = 0: only argmax contributes
    let scores = pat(&[1.0, 5.0, 2.0, 5.0, 3.0]);
    let values: Vec<Vec<u64>> = (0..5).map(|i| pat(&[i as f64])).collect();
    let p1 = PartialTriple::from_pairs(&scores[..2], &values[..2], Eps::zero(), &ieee);
    let p2 = PartialTriple::from_pairs(&scores[2..], &values[2..], Eps::zero(), &ieee);
    let combined = combine(&[p1, p2], Eps::zero(), &ieee);
    let out = num(&finalize(&combined, &ieee));
    // argmax at indices 1, 3: sum = 1 + 3 = 4; count = 2; mean = 2
    assert_eq!(out[0], 2.0);
}

#[test]
fn nothing_combines_to_zero() {
    let e = PartialTriple::empty(3);
    assert_eq!(num(&finalize(&e, &ieee)), vec![0.0; 3]);
    let c = combine(&[PartialTriple::empty(2), PartialTriple::empty(2)], Eps::one(), &ieee);
    assert_eq!(num(&finalize(&c, &ieee)), vec![0.0; 2]);
    assert_eq!(f64::from_bits(c.m_local), f64::NEG_INFINITY);
}

#[test]
fn any_partition_gives_the_whole_where_sums_do_not_round() {
    let scores: Vec<u64> = (0..30).map(|i| (((i * 7) % 5) as f64).to_bits()).collect();
    let values: Vec<Vec<u64>> = (0..30).map(|i| pat(&[i as f64, 1.0])).collect();
    for eps in [Eps::zero(), Eps::inf()] {
        let whole = PartialTriple::from_pairs(&scores, &values, eps, &ieee);
        for cut in [1usize, 7, 15, 29] {
            let a = PartialTriple::from_pairs(&scores[..cut], &values[..cut], eps, &ieee);
            let b = PartialTriple::from_pairs(&scores[cut..], &values[cut..], eps, &ieee);
            let c = combine(&[a, b], eps, &ieee);
            assert_eq!(
                (c.m_local, c.num_local.clone(), c.den_local),
                (whole.m_local, whole.num_local.clone(), whole.den_local)
            );
        }
    }
}

#[test]
fn an_empty_part_is_the_identity_at_every_temperature() {
    for eps in [Eps::zero(), Eps::quarter(), Eps::one(), Eps::inf()] {
        let part = || PartialTriple::from_pairs(&pat(&[2.0]), &[pat(&[7.0])], eps, &ieee);
        for parts in [
            vec![PartialTriple::empty(1), part()],
            vec![part(), PartialTriple::empty(1)],
        ] {
            let t = combine(&parts, eps, &ieee);
            assert_eq!(f64::from_bits(t.m_local), 2.0);
            assert_eq!(num(&t.num_local), vec![7.0]);
            assert_eq!(f64::from_bits(t.den_local), 1.0);
        }
    }
}

#[test]
fn a_key_that_does_not_match_has_no_share_but_in_the_uniform_limit() {
    let scores = pat(&[f64::NEG_INFINITY, 0.0, 0.0]);
    let values = vec![pat(&[50.0]), pat(&[10.0]), pat(&[30.0])];
    for (eps, want) in
        [(Eps::zero(), 20.0), (Eps::quarter(), 20.0), (Eps::one(), 20.0), (Eps::inf(), 30.0)]
    {
        let whole = PartialTriple::from_pairs(&scores, &values, eps, &ieee);
        assert_eq!(num(&finalize(&whole, &ieee)), vec![want]);
        let a = PartialTriple::from_pairs(&scores[..1], &values[..1], eps, &ieee);
        let b = PartialTriple::from_pairs(&scores[1..], &values[1..], eps, &ieee);
        let c = combine(&[a, PartialTriple::empty(1), b], eps, &ieee);
        assert_eq!(num(&finalize(&c, &ieee)), vec![want]);
    }
}

//! The folds as commutative monoids: neither the partition nor the order of
//! the records changes an average, the empty accumulator is the identity,
//! and deletes undo inserts up to rounding.
//!
//! At finite eps each absorb performs at most three rounded operations per
//! accumulator component; the weights are nonnegative and the values at
//! least 0.5, so a fold of n records carries a relative error of about
//! 3n * 1.1e-16. The ceilings below are 1e-12 for double-precision scores
//! and 1e-5 for single-precision ones.

use facetfold::arith::Op;
use facetfold::crud::IncrementalMemory;
use facetfold::error::BruceError;
use facetfold::mask;
use facetfold::matrix::{Matrix, Shape};
use facetfold::operator::Measure;
use facetfold::semiring;
use facetfold::types::{Eps, Sim};
use ndarray::{Array1, Array2, ArrayView1, ArrayView2};

/// Double-precision arithmetic on bit patterns.
fn ieee(op: Op, a: u64, b: u64) -> u64 {
    let (x, y) = (f64::from_bits(a), f64::from_bits(b));
    let z = match op {
        Op::Plus => x + y,
        Op::Minus => x - y,
        Op::Times => x * y,
        Op::Over => x / y,
        Op::Exp => x.exp(),
        Op::Ln => x.ln(),
        Op::Sqrt => x.sqrt(),
        Op::Whole => a as f64,
        Op::Widen => f32::from_bits(a as u32) as f64,
    };
    z.to_bits()
}

/// Single-precision arithmetic on bit patterns.
fn single(op: Op, a: u32, b: u32) -> u32 {
    let (x, y) = (f32::from_bits(a), f32::from_bits(b));
    let z = match op {
        Op::Plus => x + y,
        Op::Minus => x - y,
        Op::Times => x * y,
        Op::Over => x / y,
        _ => panic!("not an operation of a dot product"),
    };
    z.to_bits()
}

fn bits(m: &ArrayView2<f64>) -> Matrix<u64> {
    let rows = m.outer_iter().map(|r| r.iter().map(|x| x.to_bits()).collect()).collect();
    Matrix::new(rows, m.ncols()).unwrap()
}

fn bits32(m: &ArrayView2<f32>) -> Matrix<u32> {
    let rows = m.outer_iter().map(|r| r.iter().map(|x| x.to_bits()).collect()).collect();
    Matrix::new(rows, m.ncols()).unwrap()
}

fn numbers(m: &Matrix<u64>) -> Array2<f64> {
    Array2::from_shape_fn((m.nrows(), m.ncols()), |(i, c)| f64::from_bits(m.at(i, c)))
}

fn shape(m: &ArrayView2<f64>) -> Shape {
    Shape { rows: m.nrows(), cols: m.ncols() }
}

fn eps_of(e: f64) -> Eps {
    Eps(e.to_bits())
}

type Averages = Result<(Array2<f64>, Vec<bool>), BruceError>;

fn masked_attention(
    q: &ArrayView2<f64>,
    k: &ArrayView2<f64>,
    v: &ArrayView2<f64>,
    pairs: &[(usize, usize)],
    eps: Eps,
) -> Averages {
    let score = |i: usize, j: usize| q.row(i).dot(&k.row(j)).to_bits();
    let (m, c) = mask::masked_attention(shape(q), shape(k), &bits(v), pairs, eps, &score, &ieee)?;
    Ok((numbers(&m), c))
}

fn grouped_softavg(
    x: &ArrayView1<f64>,
    k: &ArrayView2<f64>,
    v: &ArrayView2<f64>,
    gid: &[u32],
    n_groups: usize,
    sel: Option<&[bool]>,
    eps: Eps,
) -> Averages {
    let score = |j: usize| x.dot(&k.row(j)).to_bits();
    let (m, c) = mask::grouped_softavg(
        x.len(),
        shape(k),
        &bits(v),
        gid,
        n_groups,
        sel,
        eps,
        &score,
        &ieee,
    )?;
    Ok((numbers(&m), c))
}

fn grouped_softavg_f32(
    x: &ArrayView1<f32>,
    k: &ArrayView2<f32>,
    v: &ArrayView2<f64>,
    gid: &[u32],
    n_groups: usize,
    sel: Option<&[bool]>,
    eps: Eps,
) -> Averages {
    let xb: Vec<u32> = x.iter().map(|a| a.to_bits()).collect();
    let (m, c) = mask::grouped_softavg_f32(
        &xb,
        &bits32(k),
        &bits(v),
        gid,
        n_groups,
        sel,
        eps,
        &single,
        &ieee,
    )?;
    Ok((numbers(&m), c))
}

fn softmax(scores: &[f64], eps: Eps) -> Vec<f64> {
    let s: Vec<u64> = scores.iter().map(|x| x.to_bits()).collect();
    semiring::softmax_eps(&s, eps, &ieee).into_iter().map(f64::from_bits).collect()
}

/// The four contracted temperatures: tropical, two finite, uniform.
fn eps_grid() -> [Eps; 4] {
    [Eps::zero(), eps_of(0.37), Eps::one(), Eps::inf()]
}

const REL_F64: f64 = 1e-12;
const REL_F32: f64 = 1e-5;

/// xorshift64*.
struct Rng(u64);

impl Rng {
    fn new(seed: u64) -> Self {
        Self(seed | 1)
    }

    fn next(&mut self) -> u64 {
        self.0 ^= self.0 << 13;
        self.0 ^= self.0 >> 7;
        self.0 ^= self.0 << 17;
        self.0
    }

    fn f64(&mut self) -> f64 {
        ((self.next() >> 11) as f64) / ((1u64 << 53) as f64)
    }

    fn below(&mut self, n: usize) -> usize {
        (self.next() % n as u64) as usize
    }
}

/// One generated instance: per-record (score, d_v values), a group id per
/// record, a shard id per record, and a shuffle seed.
struct Instance {
    scores: Vec<f64>,
    values: Vec<f64>, // n * d_v, row-major
    d_v: usize,
    gid: Vec<u32>,
    n_groups: usize,
    shard: Vec<u8>,
    n_shards: usize,
    shuffle_seed: u64,
}

fn instance(single_group: bool, seed: u64) -> Instance {
    let mut rng = Rng::new(seed.wrapping_mul(0x9E37_79B9_7F4A_7C15));
    for _ in 0..8 {
        rng.next();
    }
    let n = 2 + rng.below(62);
    let d_v = 1 + rng.below(3);
    let n_groups = if single_group { 1 } else { 1 + rng.below(5) };
    let n_shards = 1 + rng.below(8);
    Instance {
        scores: (0..n).map(|_| rng.f64() * 16.0 - 8.0).collect(),
        // values >= 0.5 keep the relative error well-conditioned
        values: (0..n * d_v).map(|_| rng.f64() * 4.5 + 0.5).collect(),
        d_v,
        gid: (0..n).map(|_| rng.below(n_groups) as u32).collect(),
        n_groups,
        shard: (0..n).map(|_| rng.below(n_shards) as u8).collect(),
        n_shards,
        shuffle_seed: rng.next(),
    }
}

/// Realise the shard structure as a permutation of record indices:
/// shuffle each shard's records, then concatenate the shards in a shuffled
/// shard order.
fn shard_permutation(inst: &Instance) -> Vec<usize> {
    let mut rng = Rng::new(inst.shuffle_seed);
    let mut shards: Vec<Vec<usize>> = vec![Vec::new(); inst.n_shards];
    for (r, &s) in inst.shard.iter().enumerate() {
        shards[s as usize].push(r);
    }
    for sh in shards.iter_mut() {
        for i in (1..sh.len()).rev() {
            let j = rng.below(i + 1);
            sh.swap(i, j);
        }
    }
    for i in (1..shards.len()).rev() {
        let j = rng.below(i + 1);
        shards.swap(i, j);
    }
    shards.into_iter().flatten().collect()
}

/// Scores injected via a one-column key and x = [1.0].
fn run_f64(
    scores: &[f64],
    values: &[f64],
    d_v: usize,
    gid: &[u32],
    n_groups: usize,
    sel: Option<&[bool]>,
    eps: Eps,
) -> (Array2<f64>, Vec<bool>) {
    let n = scores.len();
    let x = Array1::from_vec(vec![1.0f64]);
    let k = Array2::from_shape_vec((n, 1), scores.to_vec()).unwrap();
    let v = Array2::from_shape_vec((n, d_v), values.to_vec()).unwrap();
    grouped_softavg(&x.view(), &k.view(), &v.view(), gid, n_groups, sel, eps).unwrap()
}

/// The same with scores rounded to single precision first, so that every
/// permutation sees bit-identical scores.
fn run_f32(
    scores: &[f64],
    values: &[f64],
    d_v: usize,
    gid: &[u32],
    n_groups: usize,
    eps: Eps,
) -> (Array2<f64>, Vec<bool>) {
    let n = scores.len();
    let x = Array1::from_vec(vec![1.0f32]);
    let k = Array2::from_shape_vec((n, 1), scores.iter().map(|&s| s as f32).collect()).unwrap();
    let v = Array2::from_shape_vec((n, d_v), values.to_vec()).unwrap();
    grouped_softavg_f32(&x.view(), &k.view(), &v.view(), gid, n_groups, None, eps).unwrap()
}

fn run(inst: &Instance, f32_kernel: bool, eps: Eps) -> (Array2<f64>, Vec<bool>) {
    if f32_kernel {
        run_f32(&inst.scores, &inst.values, inst.d_v, &inst.gid, inst.n_groups, eps)
    } else {
        run_f64(&inst.scores, &inst.values, inst.d_v, &inst.gid, inst.n_groups, None, eps)
    }
}

fn assert_close(a: &Array2<f64>, b: &Array2<f64>, rel: f64, ctx: &str) {
    for (x, y) in a.iter().zip(b.iter()) {
        let denom = x.abs().max(y.abs()).max(1.0);
        let d = (x - y).abs() / denom;
        assert!(d <= rel, "{ctx}: {x} vs {y} (rel {d:e} > {rel:e})");
    }
}

fn permute<T: Copy>(xs: &[T], perm: &[usize], width: usize) -> Vec<T> {
    let mut out = Vec::with_capacity(xs.len());
    for &r in perm {
        out.extend_from_slice(&xs[r * width..(r + 1) * width]);
    }
    out
}

fn check_partition_invariance(inst: &Instance, f32_kernel: bool) {
    let perm = shard_permutation(inst);
    let permuted = Instance {
        scores: permute(&inst.scores, &perm, 1),
        values: permute(&inst.values, &perm, inst.d_v),
        gid: permute(&inst.gid, &perm, 1),
        shard: inst.shard.clone(),
        ..*inst
    };
    let rel = if f32_kernel { REL_F32 } else { REL_F64 };
    for eps in eps_grid() {
        let (a, cov_a) = run(inst, f32_kernel, eps);
        let (b, cov_b) = run(&permuted, f32_kernel, eps);
        assert_eq!(cov_a, cov_b, "coverage changed under partition, eps={eps:?}");
        assert_close(&a, &b, rel, &format!("partition invariance eps={eps:?}"));
    }
}

#[test]
fn f64_multi_group_partition_invariance() {
    for seed in 1..=192 {
        check_partition_invariance(&instance(false, seed), false);
    }
}

#[test]
fn f64_single_group_partition_invariance() {
    for seed in 1..=192 {
        check_partition_invariance(&instance(true, seed), false);
    }
}

#[test]
fn f32_multi_group_partition_invariance() {
    for seed in 1..=192 {
        check_partition_invariance(&instance(false, seed), true);
    }
}

#[test]
fn f32_single_group_partition_invariance() {
    for seed in 1..=192 {
        check_partition_invariance(&instance(true, seed), true);
    }
}

/// A large deterministic workload, above the parallel threshold of 2^15
/// pairs, so that the chunks are merged.
fn big_workload(n: usize, d_v: usize, n_groups: usize, seed: u64) -> Instance {
    let mut rng = Rng::new(seed);
    Instance {
        scores: (0..n).map(|_| rng.f64() * 16.0 - 8.0).collect(),
        values: (0..n * d_v).map(|_| rng.f64() * 4.5 + 0.5).collect(),
        d_v,
        gid: (0..n).map(|_| rng.below(n_groups) as u32).collect(),
        n_groups,
        shard: vec![0; n],
        n_shards: 1,
        shuffle_seed: seed,
    }
}

fn pool(threads: usize) -> rayon::ThreadPool {
    rayon::ThreadPoolBuilder::new().num_threads(threads).build().unwrap()
}

/// For every shard count 1..8, run the kernel inside a pool of exactly that
/// many threads (the kernel chunks by the number of threads) and compare to
/// the 1-thread run.
#[test]
fn merge_of_1_to_8_shards_equals_sequential_fold() {
    let inst = big_workload((1 << 15) + 4097, 2, 16, 0xB0B5);
    for f32_kernel in [false, true] {
        let rel = if f32_kernel { REL_F32 } else { REL_F64 };
        for eps in eps_grid() {
            let (base, cov_base) = pool(1).install(|| run(&inst, f32_kernel, eps));
            for threads in 2..=8usize {
                let (out, cov) = pool(threads).install(|| run(&inst, f32_kernel, eps));
                assert_eq!(cov, cov_base, "coverage, {threads} shards, eps={eps:?}");
                assert_close(
                    &out,
                    &base,
                    rel,
                    &format!("merge f32={f32_kernel} shards={threads} eps={eps:?}"),
                );
            }
        }
    }
}

/// A shard whose every record is deselected produces the empty accumulator
/// for every group; merging it must be the identity. The third of five
/// chunks is deselected and the answer compared against (a) the same input
/// on one thread and (b) the physically-shrunk input.
#[test]
fn merge_with_empty_shard_is_identity() {
    let chunk = 8192usize;
    let n = 5 * chunk; // 40960 >= 2^15 -> parallel path
    let inst = big_workload(n, 2, 8, 0x1DE47);
    let mut sel = vec![true; n];
    for s in sel.iter_mut().take(3 * chunk).skip(2 * chunk) {
        *s = false; // chunk #3 of 5 is entirely empty
    }
    let keep: Vec<usize> = (0..n).filter(|&r| sel[r]).collect();
    let scores_b = permute(&inst.scores, &keep, 1);
    let values_b = permute(&inst.values, &keep, inst.d_v);
    let gid_b = permute(&inst.gid, &keep, 1);
    for eps in eps_grid() {
        let masked = || {
            run_f64(
                &inst.scores,
                &inst.values,
                inst.d_v,
                &inst.gid,
                inst.n_groups,
                Some(&sel),
                eps,
            )
        };
        let (out, cov) = pool(5).install(masked);
        // (a) same masked input, single thread (no merge at all)
        let (seq, cov_seq) = pool(1).install(masked);
        assert_eq!(cov, cov_seq);
        assert_close(&out, &seq, REL_F64, &format!("empty-shard (a) eps={eps:?}"));
        // (b) shrunk input
        let (shrunk, cov_shrunk) =
            run_f64(&scores_b, &values_b, inst.d_v, &gid_b, inst.n_groups, None, eps);
        assert_eq!(cov, cov_shrunk);
        assert_close(&out, &shrunk, REL_F64, &format!("empty-shard (b) eps={eps:?}"));
    }
}

/// A small masked instance: queries, keys, values and a duplicate-free set
/// of pairs.
struct Masked {
    q: Array2<f64>,
    k: Array2<f64>,
    v: Array2<f64>,
    pairs: Vec<(usize, usize)>,
    eps: Eps,
}

fn masked(seed: u64) -> Masked {
    let mut rng = Rng::new(seed.wrapping_mul(0xD134_2543_DE82_EF95));
    for _ in 0..8 {
        rng.next();
    }
    let (n_q, n_k) = (2 + rng.below(6), 2 + rng.below(6));
    let (d_k, d_v) = (1 + rng.below(3), 1 + rng.below(3));
    let q = Array2::from_shape_fn((n_q, d_k), |_| rng.f64() * 6.0 - 3.0);
    let k = Array2::from_shape_fn((n_k, d_k), |_| rng.f64() * 6.0 - 3.0);
    let v = Array2::from_shape_fn((n_k, d_v), |_| rng.f64() * 10.0 - 5.0);
    let mut pairs: Vec<(usize, usize)> = Vec::new();
    for i in 0..n_q {
        for j in 0..n_k {
            if rng.below(2) == 0 || (i == 0 && j == 0) {
                pairs.push((i, j));
            }
        }
    }
    let eps = match rng.below(3) {
        0 => Eps::zero(),
        1 => eps_of(0.05 + 3.95 * rng.f64()),
        _ => Eps::inf(),
    };
    Masked { q, k, v, pairs, eps }
}

/// Any permutation of the pair stream yields the same output.
#[test]
fn order_invariance() {
    for seed in 1..=256 {
        let m = masked(seed);
        let (a, cov_a) =
            masked_attention(&m.q.view(), &m.k.view(), &m.v.view(), &m.pairs, m.eps).unwrap();
        let mut rev = m.pairs.clone();
        rev.reverse();
        // a second, interleaved order
        let mut inter: Vec<(usize, usize)> = m.pairs.iter().copied().step_by(2).collect();
        inter.extend(m.pairs.iter().copied().skip(1).step_by(2));
        for other in [rev, inter] {
            let (b, cov_b) =
                masked_attention(&m.q.view(), &m.k.view(), &m.v.view(), &other, m.eps).unwrap();
            assert_eq!(cov_a, cov_b);
            for (x, y) in a.iter().zip(b.iter()) {
                assert!((x - y).abs() <= 1e-9, "order changed result: {x} vs {y}");
            }
        }
    }
}

/// The fold agrees with the direct per-row reference in all regimes.
#[test]
fn matches_reference() {
    for seed in 1..=256 {
        let m = masked(seed);
        let (out, covered) =
            masked_attention(&m.q.view(), &m.k.view(), &m.v.view(), &m.pairs, m.eps).unwrap();
        for i in 0..m.q.nrows() {
            let js: Vec<usize> = m.pairs.iter().filter(|p| p.0 == i).map(|p| p.1).collect();
            assert_eq!(covered[i], !js.is_empty());
            let scores: Vec<f64> = js.iter().map(|&j| m.q.row(i).dot(&m.k.row(j))).collect();
            let weights: Vec<f64> = if m.eps.is_inf() {
                vec![1.0 / js.len() as f64; js.len()]
            } else {
                softmax(&scores, m.eps)
            };
            for c in 0..m.v.ncols() {
                let want: f64 = js.iter().zip(&weights).map(|(&j, w)| w * m.v[(j, c)]).sum();
                assert!((out[(i, c)] - want).abs() <= 1e-9, "row {i} col {c}: {want}");
            }
        }
    }
}

const D_K: usize = 4;
const D_V: usize = 2;
const TARGET_LIVE: usize = 256;
const DRIFT_BOUND: f64 = 1e-9;

struct LiveRow {
    id: String,
    k: Array1<f64>,
    v: Array1<f64>,
}

fn put(mem: &mut IncrementalMemory, x: &Array1<f64>, r: &LiveRow) {
    let measure = |_: Measure, _: usize| x.dot(&r.k).to_bits();
    let v: Vec<u64> = r.v.iter().map(|a| a.to_bits()).collect();
    mem.insert(&r.id, r.k.len(), &v, &measure, &ieee).unwrap();
}

fn rel_diff(a: &[u64], b: &[f64]) -> f64 {
    a.iter()
        .zip(b.iter())
        .map(|(x, y)| {
            let x = f64::from_bits(*x);
            (x - y).abs() / x.abs().max(y.abs()).max(1e-30)
        })
        .fold(0.0, f64::max)
}

/// Run `cycles` insert/delete operations; compare ten times against a
/// rebuild and against the grouped fold; return the largest relative drift
/// and the number of rescales.
fn soak(cycles: usize, seed: u64) -> (f64, u64) {
    let mut rng = Rng::new(seed);
    let x = Array1::from_iter((0..D_K).map(|_| rng.f64() * 2.0 - 1.0));
    let eps = Eps::one();
    let mut mem = IncrementalMemory::new(D_K, eps, D_V, Sim::Dot);
    let mut live: Vec<LiveRow> = Vec::new();
    let mut next_id = 0u64;
    let checkpoint_every = (cycles / 10).max(1);
    let mut max_drift = 0.0f64;

    for cycle in 1..=cycles {
        let insert =
            live.len() < TARGET_LIVE / 4 || (rng.next() & 1 == 0 && live.len() < 4 * TARGET_LIVE);
        if insert {
            let id = format!("k{next_id}");
            next_id += 1;
            let k = Array1::from_iter((0..D_K).map(|_| rng.f64() * 2.0 - 1.0));
            let v = Array1::from_iter((0..D_V).map(|_| rng.f64() * 4.5 + 0.5));
            let row = LiveRow { id, k, v };
            put(&mut mem, &x, &row);
            live.push(row);
        } else {
            let idx = rng.below(live.len());
            let row = live.swap_remove(idx);
            mem.delete(&row.id, &ieee).unwrap();
        }

        if cycle % checkpoint_every == 0 && !live.is_empty() {
            let got = mem.output(&ieee);
            let mut fresh = IncrementalMemory::new(D_K, eps, D_V, Sim::Dot);
            for r in &live {
                put(&mut fresh, &x, r);
            }
            let rebuilt: Vec<f64> = fresh.output(&ieee).into_iter().map(f64::from_bits).collect();

            let n = live.len();
            let k_mat = Array2::from_shape_fn((n, D_K), |(i, c)| live[i].k[c]);
            let v_mat = Array2::from_shape_fn((n, D_V), |(i, c)| live[i].v[c]);
            let gid = vec![0u32; n];
            let (grouped, covered) =
                grouped_softavg(&x.view(), &k_mat.view(), &v_mat.view(), &gid, 1, None, eps)
                    .unwrap();
            assert!(covered[0], "cycle {cycle}: uncovered with {n} live rows");
            let grouped_row: Vec<f64> = grouped.row(0).to_vec();

            let d1 = rel_diff(&got, &rebuilt);
            let d2 = rel_diff(&got, &grouped_row);
            max_drift = max_drift.max(d1).max(d2);
            assert!(
                d1 < DRIFT_BOUND && d2 < DRIFT_BOUND,
                "cycle {cycle}: drift rebuild={d1:e} grouped={d2:e} (n_live={n}, n_rescales={})",
                mem.n_rescales()
            );
        }
    }
    (max_drift, mem.n_rescales())
}

#[test]
fn drift_after_50k_insert_delete_cycles_below_1e9() {
    let (max_drift, rescales) = soak(50_000, 0x5EED);
    println!("drift soak 50k cycles: max rel drift = {max_drift:.3e}, rescales = {rescales}");
    assert!(max_drift < DRIFT_BOUND);
    // the delete-of-max re-anchor path must actually have run
    assert!(rescales > 0, "no rescale ever triggered: workload too tame");
}

/// Whole-number records: their sums do not round in the tropical and the
/// uniform limit.
fn whole_numbers(n: usize, seed: u64) -> Instance {
    let mut rng = Rng::new(seed);
    Instance {
        scores: (0..n).map(|_| rng.below(9) as f64 - 4.0).collect(),
        values: (0..n).map(|_| rng.below(1000) as f64).collect(),
        d_v: 1,
        gid: (0..n).map(|_| rng.below(6) as u32).collect(),
        n_groups: 6,
        shard: (0..n).map(|_| rng.below(5) as u8).collect(),
        n_shards: 5,
        shuffle_seed: rng.next(),
    }
}

#[test]
fn cut_and_order_change_nothing_where_sums_do_not_round() {
    let inst = whole_numbers((1 << 15) + 77, 0xABCD);
    let perm = shard_permutation(&inst);
    let permuted = Instance {
        scores: permute(&inst.scores, &perm, 1),
        values: permute(&inst.values, &perm, 1),
        gid: permute(&inst.gid, &perm, 1),
        shard: inst.shard.clone(),
        ..inst
    };
    for eps in [Eps::zero(), Eps::inf()] {
        let (one, cov) = pool(1).install(|| run(&inst, false, eps));
        for threads in [3, 8] {
            assert_eq!(pool(threads).install(|| run(&inst, false, eps)), (one.clone(), cov.clone()));
            assert_eq!(
                pool(threads).install(|| run(&permuted, false, eps)),
                (one.clone(), cov.clone())
            );
        }
    }
}

#[test]
fn deletes_leave_no_trace_where_sums_do_not_round() {
    for eps in [Eps::zero(), Eps::inf()] {
        let mut rng = Rng::new(0x77);
        let x = Array1::from_vec(vec![1.0]);
        let mut mem = IncrementalMemory::new(1, eps, 1, Sim::Dot);
        let mut live: Vec<LiveRow> = Vec::new();
        for step in 0..400 {
            if live.is_empty() || rng.below(5) < 3 {
                let row = LiveRow {
                    id: format!("k{step}"),
                    k: Array1::from_vec(vec![rng.below(7) as f64 - 3.0]),
                    v: Array1::from_vec(vec![rng.below(100) as f64]),
                };
                put(&mut mem, &x, &row);
                live.push(row);
            } else {
                let row = live.swap_remove(rng.below(live.len()));
                mem.delete(&row.id, &ieee).unwrap();
            }
            let mut fresh = IncrementalMemory::new(1, eps, 1, Sim::Dot);
            for r in &live {
                put(&mut fresh, &x, r);
            }
            assert_eq!(mem.output(&ieee), fresh.output(&ieee), "step {step}");
        }
    }
}

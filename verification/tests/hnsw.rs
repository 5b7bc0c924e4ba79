//! The navigable graph over unit vectors.

use facetfold::arith::Op;
use facetfold::beam::Cand;
use facetfold::error::BruceError;
use facetfold::hnsw;
use facetfold::footprint::{total_bytes, NodeReserved, Reserved};
use facetfold::hnsw::{level_for, splitmix64, HnswIndex, NeighborSelection};

/// Double-precision arithmetic on bit patterns.
fn ieee(op: Op, a: u64, b: u64) -> u64 {
    let (x, y) = (f64::from_bits(a), f64::from_bits(b));
    let z = match op {
        Op::Plus => x + y,
        Op::Minus => x - y,
        Op::Times => x * y,
        Op::Over => x / y,
        Op::Exp => x.exp(),
        Op::Ln => x.ln(),
        Op::Sqrt => x.sqrt(),
        Op::Whole => a as f64,
        Op::Widen => f32::from_bits(a as u32) as f64,
    };
    z.to_bits()
}

/// Single-precision arithmetic on bit patterns.
fn single(op: Op, a: u32, b: u32) -> u32 {
    let (x, y) = (f32::from_bits(a), f32::from_bits(b));
    let z = match op {
        Op::Plus => x + y,
        Op::Minus => x - y,
        Op::Times => x * y,
        Op::Over => x / y,
        _ => panic!("not an operation of a dot product"),
    };
    z.to_bits()
}

fn pat(v: &[f32]) -> Vec<u32> {
    v.iter().map(|x| x.to_bits()).collect()
}

fn dot(a: &[f32], b: &[f32]) -> f32 {
    f32::from_bits(hnsw::dot(&pat(a), &pat(b), &single))
}

fn put(ix: &mut HnswIndex, id: u32, key: &[f32]) -> Result<(), BruceError> {
    ix.insert(id, &pat(key), &single, &ieee)
}

fn find(ix: &HnswIndex, q: &[f32], k: usize, ef: usize) -> Vec<(u32, u32)> {
    ix.search(&pat(q), k, ef, None::<&fn(u32) -> bool>, &single).unwrap()
}

fn unit(v: [f32; 3]) -> [f32; 3] {
    let n = (v[0] * v[0] + v[1] * v[1] + v[2] * v[2]).sqrt();
    [v[0] / n, v[1] / n, v[2] / n]
}

/// xorshift64* in [-0.5, 0.5).
struct Rng(u64);

impl Rng {
    fn next_f32(&mut self) -> f32 {
        self.0 ^= self.0 << 13;
        self.0 ^= self.0 >> 7;
        self.0 ^= self.0 << 17;
        ((self.0 >> 11) as f64 / (1u64 << 53) as f64) as f32 - 0.5
    }
}

fn random_unit(rng: &mut Rng, d: usize) -> Vec<f32> {
    let mut v: Vec<f32> = (0..d).map(|_| rng.next_f32()).collect();
    let n = v.iter().map(|x| x * x).sum::<f32>().sqrt().max(1e-12);
    for x in v.iter_mut() {
        *x /= n;
    }
    v
}

/// A candidate closer to an already admitted neighbour than to the base is
/// pruned, so the degree budget buys directions instead of a cluster of
/// near-duplicates. Same candidate set, same cap, two policies, two answers.
#[test]
fn diversity_prunes_near_duplicates_where_keep_best_does_not() {
    let base = unit([1.0, 0.0, 0.0]);
    let c1 = unit([0.92, 0.3919, 0.0]);
    let c2 = unit([0.91, 0.4146, 0.0]); // near-duplicate of c1
    let c3 = unit([0.90, -0.4359, 0.0]); // the opposite direction
    let build = |sel: NeighborSelection| {
        let mut ix = HnswIndex::new(3, 16, 32);
        ix.set_selection(sel).expect("empty index");
        for (i, k) in [base, c1, c2, c3].iter().enumerate() {
            put(&mut ix, i as u32, k).expect("insert");
        }
        ix
    };
    for sel in [NeighborSelection::KeepBest, NeighborSelection::Diversity] {
        let ix = build(sel);
        // candidates for base (node 0), already best-first
        let cands: Vec<Cand> = [1u32, 2, 3]
            .iter()
            .map(|&n| Cand { score: ix.score(&pat(&base), n, &single), node: n })
            .collect();
        let s: Vec<f32> = cands.iter().map(|c| f32::from_bits(c.score)).collect();
        assert!(s[0] > s[1] && s[1] > s[2], "fixture must be strictly ordered: {s:?}");
        let got = ix.select_neighbors(&cands, 0, 2, &single);
        match sel {
            // pure top-2 by score: the near-duplicate survives
            NeighborSelection::KeepBest => assert_eq!(got, vec![1, 2]),
            // c2 is closer to c1 than to the base: pruned; c3 is not, so the
            // second slot goes to the other direction
            NeighborSelection::Diversity => assert_eq!(got, vec![1, 3]),
        }
    }
}

/// Under-full candidate sets are returned whole by both policies.
#[test]
fn selection_returns_everything_when_under_cap() {
    let mut ix = HnswIndex::new(3, 16, 32);
    ix.set_selection(NeighborSelection::Diversity).unwrap();
    for (i, k) in [unit([1.0, 0.0, 0.0]), unit([0.99, 0.14, 0.0])].iter().enumerate() {
        put(&mut ix, i as u32, k).unwrap();
    }
    let cands = vec![Cand { score: 0.99f32.to_bits(), node: 1 }];
    assert_eq!(ix.select_neighbors(&cands, 0, 8, &single), vec![1]);
}

/// The policy shapes the graph as it is built, so it cannot change after
/// the first insert.
#[test]
fn selection_cannot_change_after_the_first_insert() {
    let mut ix = HnswIndex::new(4, 16, 32);
    assert_eq!(ix.selection(), NeighborSelection::KeepBest);
    put(&mut ix, 0, &[1.0, 0.0, 0.0, 0.0]).unwrap();
    let err =
        ix.set_selection(NeighborSelection::Diversity).expect_err("must refuse after an insert");
    assert!(matches!(err, BruceError::InvalidArgument(_)), "{err:?}");
    assert_eq!(ix.selection(), NeighborSelection::KeepBest);
}

/// Two builds of the same sequence give bit-identical search results.
#[test]
fn diversity_build_is_deterministic() {
    let mut rng = Rng(0x9E3779B97F4A7C15);
    let vecs: Vec<Vec<f32>> = (0..600).map(|_| random_unit(&mut rng, 16)).collect();
    let build = || {
        let mut ix = HnswIndex::new(16, 8, 64);
        ix.set_selection(NeighborSelection::Diversity).unwrap();
        for (i, v) in vecs.iter().enumerate() {
            put(&mut ix, i as u32, v).unwrap();
        }
        ix
    };
    let (a, b) = (build(), build());
    for qi in 0..20 {
        let q = &vecs[qi * 7 % vecs.len()];
        let ra = find(&a, q, 10, 64);
        let rb = find(&b, q, 10, 64);
        assert_eq!(ra.len(), 10);
        assert_eq!(ra, rb, "query {qi}: ids or scores differ between builds");
    }
}

/// With a beam as wide as the graph the top-1 must be the brute-force
/// argmax.
#[test]
fn diversity_graph_is_exact_at_a_wide_beam() {
    let mut rng = Rng(0xDEADBEEF12345678);
    let vecs: Vec<Vec<f32>> = (0..400).map(|_| random_unit(&mut rng, 12)).collect();
    let mut ix = HnswIndex::new(12, 8, 64);
    ix.set_selection(NeighborSelection::Diversity).unwrap();
    for (i, v) in vecs.iter().enumerate() {
        put(&mut ix, i as u32, v).unwrap();
    }
    for qi in 0..15 {
        let q = &vecs[qi * 13 % vecs.len()];
        let want = vecs
            .iter()
            .enumerate()
            .map(|(i, v)| (dot(q, v), i as u32))
            .fold((f32::NEG_INFINITY, u32::MAX), |acc, x| {
                if x.0 > acc.0 || (x.0 == acc.0 && x.1 < acc.1) {
                    x
                } else {
                    acc
                }
            });
        let got = find(&ix, q, 1, vecs.len());
        assert_eq!(got[0].0, want.1, "query {qi}: top-1 must be exact");
    }
}

fn small_index() -> (HnswIndex, Vec<Vec<f32>>) {
    let mut rng = Rng(0x1234_5678_9ABC_DEF1);
    let vecs: Vec<Vec<f32>> = (0..120).map(|_| random_unit(&mut rng, 8)).collect();
    let mut ix = HnswIndex::with_defaults(8);
    for (i, v) in vecs.iter().enumerate() {
        put(&mut ix, 1000 + i as u32, v).unwrap();
    }
    (ix, vecs)
}

#[test]
fn deleted_ids_are_never_returned() {
    let (mut ix, vecs) = small_index();
    assert_eq!((ix.dim(), ix.len(), ix.is_empty()), (8, 120, false));
    for i in 0..60u32 {
        ix.delete(1000 + i).unwrap();
    }
    assert_eq!(ix.len(), 60);
    assert_eq!(f64::from_bits(ix.tombstone_fraction(&ieee)), 0.5);
    for v in vecs.iter().take(20) {
        let got = find(&ix, v, 10, 200);
        assert_eq!(got.len(), 10);
        assert!(got.iter().all(|r| r.0 >= 1060));
        // best first
        assert!(got.windows(2).all(|w| f32::from_bits(w[0].1) >= f32::from_bits(w[1].1)));
    }
    match ix.delete(1000) {
        Err(BruceError::KeyNotFound(k)) => assert_eq!(k, "1000"),
        _ => panic!("a second delete must be refused"),
    }
}

#[test]
fn a_filter_that_lets_enough_through_fills_the_answer() {
    let (ix, vecs) = small_index();
    let even = |id: u32| id % 2 == 0;
    for v in vecs.iter().take(10) {
        let got = ix.search(&pat(v), 15, 4, Some(&even), &single).unwrap();
        assert_eq!(got.len(), 15);
        assert!(got.iter().all(|r| even(r.0)));
    }
    let none = |_: u32| false;
    assert_eq!(ix.search(&pat(&vecs[0]), 5, 10, Some(&none), &single).unwrap(), vec![]);
}

#[test]
fn refused_inserts_and_searches() {
    let (mut ix, vecs) = small_index();
    assert!(put(&mut ix, 1000, &vecs[0]).is_err());
    assert!(matches!(
        put(&mut ix, 7, &vecs[0][..4]),
        Err(BruceError::DimensionMismatch { expected: 8, got: 4 })
    ));
    let r = ix.search(&pat(&vecs[0][..4]), 1, 10, None::<&fn(u32) -> bool>, &single);
    assert!(matches!(r, Err(BruceError::DimensionMismatch { expected: 8, got: 4 })));
    assert_eq!(ix.len(), 120);
    let empty = HnswIndex::with_defaults(8);
    assert!(empty.is_empty());
    assert_eq!(find(&empty, &vecs[0], 3, 10), vec![]);
}

#[test]
fn levels_thin_out_geometrically() {
    // published first value of the generator
    assert_eq!(splitmix64(0), 0xE220_A839_7B1D_CDAF);
    let levels: Vec<usize> = (0..4000u32).map(|id| level_for(id, &ieee)).collect();
    let above = |l: usize| levels.iter().filter(|x| **x >= l).count();
    // each level keeps a share of about 1/e: 1472 and 541 of 4000
    assert!(above(1) > 1350 && above(1) < 1600, "{}", above(1));
    assert!(above(2) > 450 && above(2) < 640, "{}", above(2));
}

#[test]
fn memory_is_at_least_what_is_stored() {
    let (ix, _) = small_index();
    // 120 nodes: id, map entry, tombstone and an eight-number key each
    assert!(ix.memory_bytes() >= 120 * (20 + 1 + 32 + 24));
    let mut more = HnswIndex::with_defaults(8);
    let before = more.memory_bytes();
    put(&mut more, 1, &[0.0; 8]).unwrap();
    assert!(more.memory_bytes() > before);
}

#[test]
fn room_is_counted_by_the_formula() {
    let r = Reserved {
        keys: 10,
        ids: 3,
        deleted: 5,
        nodes: vec![
            NodeReserved { layers: 2, lists: vec![4, 0] },
            NodeReserved { layers: 1, lists: vec![7] },
        ],
    };
    // 40 + 12 + 5 + 48, then 24 + 48 + 16, then 24 + 24 + 28
    assert_eq!(total_bytes(&r, 3), 269);
    let huge = Reserved { keys: usize::MAX, ids: 0, deleted: 0, nodes: vec![] };
    assert_eq!(total_bytes(&huge, 0), usize::MAX);
    assert_eq!(HnswIndex::with_defaults(8).memory_bytes(), 0);
}

#[test]
fn a_clone_answers_alike_and_goes_its_own_way() {
    let (mut ix, _) = small_index();
    let twin = ix.clone();
    ix.delete(1003).unwrap();
    assert_eq!(ix.len() + 1, twin.len());
    assert!(ix.delete(1003).is_err());
    assert!(twin.clone().delete(1003).is_ok());
}

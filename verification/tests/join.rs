//! Equality joins, whole and streamed.

use facetfold::join::{
    hash_join, lftj_three, sort_merge_join, PROBE_PARALLEL_THRESHOLD,
};
use facetfold::streaming::StreamingChainJoin;

#[test]
fn hash_join_basic() {
    let l = vec![1, 2, 3, 4];
    let r = vec![2, 4, 6, 8];
    let mut pairs = hash_join(&l, &r);
    pairs.sort();
    assert_eq!(pairs, vec![(1, 0), (3, 1)]);
}

#[test]
fn sort_merge_join_basic() {
    let l = vec![1, 2, 3, 4];
    let r = vec![2, 4, 6, 8];
    let pairs = sort_merge_join(&l, &r);
    assert_eq!(pairs, vec![(1, 0), (3, 1)]);
}

#[test]
fn sort_merge_with_duplicates() {
    let l = vec![1, 2, 2, 3];
    let r = vec![2, 2, 4];
    let mut pairs = sort_merge_join(&l, &r);
    pairs.sort();
    // (1,0) (1,1) (2,0) (2,1)
    assert_eq!(pairs.len(), 4);
}

/// Every pair of positions with equal keys, left by left.
fn nested_loop(l: &[i64], r: &[i64]) -> Vec<(usize, usize)> {
    let mut out = Vec::new();
    for (i, a) in l.iter().enumerate() {
        for (j, b) in r.iter().enumerate() {
            if a == b {
                out.push((i, j));
            }
        }
    }
    out
}

#[test]
fn hash_join_parallel_path_correctness() {
    // above PROBE_PARALLEL_THRESHOLD the left side is probed in parallel
    let n_left = 10_000;
    let n_right = 100;
    let left: Vec<i64> = (0..n_left as i64).map(|i| i % 200).collect();
    let right: Vec<i64> = (0..n_right as i64).map(|i| i % 200).collect();
    assert!(
        left.len() >= PROBE_PARALLEL_THRESHOLD,
        "test relies on left exceeding parallel threshold"
    );
    let mut par_pairs = hash_join(&left, &right);
    par_pairs.sort();
    let mut ser_pairs = nested_loop(&left, &right);
    ser_pairs.sort();
    assert_eq!(par_pairs.len(), ser_pairs.len(), "parallel path returns wrong pair count");
    assert_eq!(par_pairs, ser_pairs, "parallel and serial paths disagree on pair set");
}

#[test]
fn lftj_three_triangle() {
    // simple triangle: every k = 5 in all three
    let a = vec![1, 3, 5, 5, 7];
    let b = vec![2, 5, 6];
    let c = vec![5, 5, 9];
    let trips = lftj_three(&a, &b, &c);
    // a has 5 at i=2,3; b has 5 at j=1; c has 5 at k=0,1
    // expected pairs: 2 x 1 x 2 = 4 triples
    assert_eq!(trips.len(), 4);
    for (i, j, k) in trips {
        assert_eq!(a[i], 5);
        assert_eq!(b[j], 5);
        assert_eq!(c[k], 5);
    }
}

#[test]
fn both_joins_find_the_same_pairs_on_unordered_keys() {
    let l = vec![7, -3, 7, 0, i64::MIN, 5];
    let r = vec![5, 7, i64::MIN, 7, 9];
    let mut want = nested_loop(&l, &r);
    want.sort();
    let mut a = hash_join(&l, &r);
    a.sort();
    assert_eq!(a, want);
    // the merge takes ascending keys
    let (mut ls, mut rs) = (l.clone(), r.clone());
    ls.sort();
    rs.sort();
    assert_eq!(sort_merge_join(&ls, &rs), nested_loop(&ls, &rs));
    assert_eq!(hash_join(&[], &r), vec![]);
    assert_eq!(sort_merge_join(&ls, &[]), vec![]);
    assert_eq!(lftj_three(&[1], &[], &[1]), vec![]);
}

#[test]
fn sorted_columns_of_texts_join_too() {
    let t = |v: &[&str]| -> Vec<String> { v.iter().map(|s| s.to_string()).collect() };
    let (l, r) = (t(&["a", "b", "b", "d"]), t(&["b", "b", "c", "d"]));
    assert_eq!(sort_merge_join(&l, &r), vec![(1, 0), (1, 1), (2, 0), (2, 1), (3, 3)]);
    assert_eq!(
        lftj_three(&l, &r, &t(&["a", "b", "d", "d"])),
        vec![(1, 0, 1), (1, 1, 1), (2, 0, 1), (2, 1, 1), (3, 3, 2), (3, 3, 3)]
    );
    assert_eq!(lftj_three(&[(1, 'x'), (2, 'y')], &[(2, 'y')], &[(2, 'y')]), vec![(1, 0, 0)]);
}

#[test]
fn parallel_probe_keeps_the_order_of_the_left_side() {
    let left: Vec<i64> = (0..20_000).map(|i| (i * 7) % 50).collect();
    let right: Vec<i64> = vec![3, 3, 49];
    let pairs = hash_join(&left, &right);
    assert_eq!(pairs, nested_loop(&left, &right));
}

const A1: i64 = 1;
const A2: i64 = 2;
const B1: i64 = 11;
const C1: i64 = 21;
const D1: i64 = 31;

#[test]
fn streaming_chain_join_emits_correctly() {
    // R = {(a1, b1), (a2, b1)}, S = {(b1, c1)}, T = {(c1, d1)}
    // expected join answers = 2 (one per R-tuple)
    let mut s = StreamingChainJoin::new();
    s.arrive_r(A1, B1);
    s.arrive_r(A2, B1);
    // S(b1, c1) arrives: joins with 2 R rows x 0 T rows = 0
    s.arrive_s(B1, C1);
    assert_eq!(s.n_emitted(), 0);
    // T(c1, d1) arrives: joins with 1 S x 2 R = 2
    s.arrive_t(C1, D1);
    assert_eq!(s.n_emitted(), 2);
}

#[test]
fn order_of_arrival_doesnt_change_total() {
    // same tuples in different orders should give same total
    let total_a = {
        let mut s = StreamingChainJoin::new();
        s.arrive_r(A1, B1);
        s.arrive_s(B1, C1);
        s.arrive_t(C1, D1);
        s.n_emitted()
    };
    let total_b = {
        let mut s = StreamingChainJoin::new();
        s.arrive_t(C1, D1);
        s.arrive_r(A1, B1);
        s.arrive_s(B1, C1);
        s.n_emitted()
    };
    assert_eq!(total_a, total_b);
    assert_eq!(total_a, 1);
}

#[test]
fn streaming_grows_linearly() {
    // all sides have n tuples joined on the same key
    for n in [10, 50, 200] {
        let mut s = StreamingChainJoin::new();
        for _ in 0..n {
            s.arrive_r(1, 2);
        }
        for _ in 0..n {
            s.arrive_s(2, 3);
        }
        for _ in 0..n {
            s.arrive_t(3, 4);
        }
        // total join = n x n x n = n^3 (every triple matches)
        assert_eq!(s.n_emitted(), (n as u64).pow(3));
    }
}

#[test]
fn each_arrival_reports_what_it_completes() {
    let mut s = StreamingChainJoin::new();
    assert_eq!(s.arrive_t(3, 9), 0);
    assert_eq!(s.arrive_s(2, 3), 0);
    assert_eq!(s.arrive_r(1, 2), 1);
    assert_eq!(s.arrive_r(1, 7), 0);
    assert_eq!(s.arrive_s(7, 3), 1);
    assert_eq!(s.arrive_t(3, 8), 2);
    assert_eq!(s.n_emitted(), 4);
}

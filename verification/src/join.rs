//! Equi-join primitives:
//!
//! * `hash_join` — O(N + M) two-table inner join over integer keys
//! * `sort_merge_join` — O(N + M) join when both sides are sorted
//! * `lftj_three` — leapfrog join of three sorted columns

use vstd::prelude::*;

use rayon::iter::{IndexedParallelIterator, IntoParallelRefIterator, ParallelIterator};

use crate::maps;
use crate::maps::{new_rows_map, rows_map_get, rows_map_push};
use crate::order;
use crate::order::{below, is_below, is_same, place_of, same, sorted, Place};

verus! {

/// From this many left keys on, the probe phase runs in parallel.
pub const PROBE_PARALLEL_THRESHOLD: usize = 4096;

/// The rows at which `keys` holds `key`, in order.
pub open spec fn places<K: PartialEq>(keys: Seq<K>, key: K) -> Seq<usize>
    decreases keys.len(),
{
    if keys.len() == 0 {
        Seq::empty()
    } else {
        let r = places(keys.drop_last(), key);
        if same(keys.last(), key) {
            r.push((keys.len() - 1) as usize)
        } else {
            r
        }
    }
}

/// Row `i` paired with each of `rows`.
pub open spec fn paired(i: usize, rows: Seq<usize>) -> Seq<(usize, usize)> {
    Seq::new(rows.len(), |t: int| (i, rows[t]))
}

/// Every left row paired with the rows that the index gives for its key,
/// left rows in order.
pub open spec fn probed(index: Map<i64, Seq<usize>>, left: Seq<i64>) -> Seq<(usize, usize)>
    decreases left.len(),
{
    if left.len() == 0 {
        Seq::empty()
    } else {
        probed(index, left.drop_last()) + paired(
            (left.len() - 1) as usize,
            maps::rows_at(index, left.last()),
        )
    }
}

/// The inner join of two key columns: every pair of rows with equal keys,
/// left rows in order, and right rows in order for each.
pub open spec fn joined<K: PartialEq>(left: Seq<K>, right: Seq<K>) -> Seq<(usize, usize)>
    decreases left.len(),
{
    if left.len() == 0 {
        Seq::empty()
    } else {
        joined(left.drop_last(), right) + paired(
            (left.len() - 1) as usize,
            places(right, left.last()),
        )
    }
}

/// The pairs of left row `i` with key `key`.
pub fn probe(index: &ahash::AHashMap<i64, Vec<usize>>, i: usize, key: i64) -> (out: Vec<
    (usize, usize),
>)
    ensures
        out@ == paired(i, maps::rows_at(maps::rows_map(*index), key)),
{
    let mut out: Vec<(usize, usize)> = Vec::new();
    if let Some(rows) = rows_map_get(index, key) {
        let mut t: usize = 0;
        while t < rows.len()
            invariant
                t <= rows@.len(),
                out@ == paired(i, rows@.take(t as int)),
            decreases rows.len() - t,
        {
            out.push((i, rows[t]));
            t += 1;
            assert(out@ =~= paired(i, rows@.take(t as int)));
        }
        assert(rows@.take(t as int) =~= rows@);
    }
    assert(out@ =~= paired(i, maps::rows_at(maps::rows_map(*index), key)));
    out
}

/// `rayon`'s parallel iterator over a slice, enumerated, mapped to several
/// items each and collected: as many threads as it likes, but the items
/// come out in the order of the slice.
#[verifier::external_body]
fn probe_parallel(index: &ahash::AHashMap<i64, Vec<usize>>, left: &[i64]) -> (out: Vec<
    (usize, usize),
>)
    ensures
        out@ == probed(maps::rows_map(*index), left@),
{
    left.par_iter().enumerate().flat_map_iter(|(i, k)| probe(index, i, *k)).collect()
}

/// Inner hash join over two key columns. Returns `(left_idx, right_idx)`
/// pairs. O(|L| + |R|). The probe phase is parallel when `|L| >=
/// PROBE_PARALLEL_THRESHOLD`.
pub fn hash_join(left_keys: &[i64], right_keys: &[i64]) -> (out: Vec<(usize, usize)>)
    ensures
        out@ == joined(left_keys@, right_keys@),
{
    let mut index = new_rows_map();
    let mut j: usize = 0;
    while j < right_keys.len()
        invariant
            j <= right_keys@.len(),
            forall|key: i64| #[trigger]
                maps::rows_at(maps::rows_map(index), key) == places(right_keys@.take(j as int), key),
        decreases right_keys.len() - j,
    {
        let ghost before = index;
        rows_map_push(&mut index, right_keys[j], j);
        proof {
            assert(right_keys@.take(j + 1).drop_last() =~= right_keys@.take(j as int));
            assert forall|key: i64| #[trigger] maps::rows_at(maps::rows_map(index), key) == places(
                right_keys@.take(j + 1),
                key,
            ) by {
                assert(maps::rows_at(maps::rows_map(before), key) == places(right_keys@.take(j as int), key));
            }
        }
        j += 1;
    }
    assert(right_keys@.take(j as int) =~= right_keys@);
    proof {
        lemma_probed(maps::rows_map(index), left_keys@, right_keys@);
    }
    if left_keys.len() < PROBE_PARALLEL_THRESHOLD {
        let mut out: Vec<(usize, usize)> = Vec::new();
        let mut i: usize = 0;
        while i < left_keys.len()
            invariant
                i <= left_keys@.len(),
                out@ == probed(maps::rows_map(index), left_keys@.take(i as int)),
            decreases left_keys.len() - i,
        {
            let mut more = probe(&index, i, left_keys[i]);
            out.append(&mut more);
            assert(left_keys@.take(i + 1).drop_last() =~= left_keys@.take(i as int));
            i += 1;
        }
        assert(left_keys@.take(i as int) =~= left_keys@);
        out
    } else {
        probe_parallel(&index, left_keys)
    }
}

proof fn lemma_probed(index: Map<i64, Seq<usize>>, left: Seq<i64>, right: Seq<i64>)
    requires
        forall|key: i64| #[trigger] maps::rows_at(index, key) == places(right, key),
    ensures
        probed(index, left) == joined(left, right),
    decreases left.len(),
{
    if left.len() > 0 {
        lemma_probed(index, left.drop_last(), right);
    }
}

/// Both rows of a pair exist, and their keys are equal.
pub open spec fn pair_matches<K: PartialEq>(p: (usize, usize), left: Seq<K>, right: Seq<K>) -> bool {
    p.0 < left.len() && p.1 < right.len() && same(right[p.1 as int], left[p.0 as int])
}

/// Sort-merge join over pre-sorted key columns. O(|L| + |R|). Both inputs
/// must be sorted ascending for the join to be complete, and the order of
/// the keys must be one.
pub fn sort_merge_join<K: Ord + Clone>(left_keys: &[K], right_keys: &[K]) -> (out: Vec<
    (usize, usize),
>)
    ensures
        order::lawful::<K>() && sorted(left_keys@) && sorted(right_keys@) ==> out@ == joined(
            left_keys@,
            right_keys@,
        ),
        order::lawful::<K>() ==> forall|t: int|
            0 <= t < out@.len() ==> pair_matches(#[trigger] out@[t], left_keys@, right_keys@),
        forall|t: int|
            0 <= t < out@.len() ==> (#[trigger] out@[t]).0 < left_keys@.len() && out@[t].1
                < right_keys@.len(),
{
    let mut out: Vec<(usize, usize)> = Vec::new();
    let mut i: usize = 0;
    let mut j: usize = 0;
    let ghost lawful = order::lawful::<K>();
    let ghost ok = lawful && sorted(left_keys@) && sorted(right_keys@);
    proof {
        if lawful {
            order::lemma_order::<K>();
        }
    }
    while i < left_keys.len() && j < right_keys.len()
        invariant
            i <= left_keys@.len(),
            j <= right_keys@.len(),
            lawful == order::lawful::<K>(),
            ok == (lawful && sorted(left_keys@) && sorted(right_keys@)),
            ok ==> out@ == joined(left_keys@.take(i as int), right_keys@),
            // every right row before `j` is below every left row from `i` on
            ok && 0 < j && i < left_keys@.len() ==> below(right_keys@[j - 1], left_keys@[i as int]),
            lawful ==> forall|t: int|
                0 <= t < out@.len() ==> pair_matches(#[trigger] out@[t], left_keys@, right_keys@),
            forall|t: int|
                0 <= t < out@.len() ==> (#[trigger] out@[t]).0 < left_keys@.len() && out@[t].1
                    < right_keys@.len(),
        decreases left_keys.len() - i + right_keys.len() - j,
    {
        let a = &left_keys[i];
        match place_of(a, &right_keys[j]) {
            Place::Before => {
                proof {
                    if ok {
                        lemma_no_places(right_keys@, *a, j as int);
                        lemma_joined_step(left_keys@, right_keys@, i as int);
                        assert(joined(left_keys@.take(i + 1), right_keys@) =~= joined(
                            left_keys@.take(i as int),
                            right_keys@,
                        ));
                        lemma_above(left_keys@, right_keys@, i as int, j as int);
                    }
                }
                i += 1;
            },
            Place::Behind => {
                j += 1;
            },
            Place::Level => {
                // emit all (i, j2) with right_keys[j2] equal to the current key
                let ghost before = out@;
                let mut j2: usize = j;
                while j2 < right_keys.len() && is_same(&right_keys[j2], a)
                    invariant
                        i < left_keys@.len(),
                        j <= j2 <= right_keys@.len(),
                        *a == left_keys@[i as int],
                        lawful == order::lawful::<K>(),
                        lawful ==> forall|t: int| j <= t < j2 ==> same(#[trigger] right_keys@[t], *a),
                        out@ == before + Seq::new((j2 - j) as nat, |t: int| (i, (j + t) as usize)),
                    ensures
                        j <= j2 <= right_keys@.len(),
                        lawful && j2 < right_keys@.len() ==> !same(right_keys@[j2 as int], *a),
                        lawful ==> forall|t: int| j <= t < j2 ==> same(#[trigger] right_keys@[t], *a),
                        out@ == before + Seq::new((j2 - j) as nat, |t: int| (i, (j + t) as usize)),
                    decreases right_keys.len() - j2,
                {
                    out.push((i, j2));
                    j2 += 1;
                    assert(out@ =~= before + Seq::new(
                        (j2 - j) as nat,
                        |t: int| (i, (j + t) as usize),
                    ));
                }
                proof {
                    if ok {
                        order::lemma_order::<K>();
                        if j2 < right_keys@.len() {
                            assert(!below(right_keys@[j2 as int], right_keys@[j as int]));
                            assert(below(*a, right_keys@[j2 as int]));
                        }
                        lemma_run_places(right_keys@, *a, j as int, j2 as int);
                        lemma_joined_step(left_keys@, right_keys@, i as int);
                        assert(out@ =~= joined(left_keys@.take(i + 1), right_keys@));
                        lemma_above(left_keys@, right_keys@, i as int, j as int);
                    }
                    assert forall|t: int| 0 <= t < out@.len() implies (#[trigger] out@[t]).0
                        < left_keys@.len() && out@[t].1 < right_keys@.len() && (lawful
                        ==> pair_matches(out@[t], left_keys@, right_keys@)) by {
                        if t < before.len() {
                            assert(out@[t] == before[t]);
                        } else {
                            let u = j + (t - before.len());
                            assert(out@[t] == (i, u as usize));
                            assert(lawful ==> same(right_keys@[u], *a));
                        }
                    }
                }
                i += 1;
            },
        }
    }
    proof {
        if ok {
            lemma_rest_empty(left_keys@, right_keys@, i as int, j as int);
        }
    }
    out
}

proof fn lemma_joined_step<K: PartialEq>(left: Seq<K>, right: Seq<K>, i: int)
    requires
        0 <= i < left.len() <= usize::MAX,
    ensures
        joined(left.take(i + 1), right) == joined(left.take(i), right) + paired(
            i as usize,
            places(right, left[i]),
        ),
{
    assert(left.take(i + 1).drop_last() =~= left.take(i));
}

/// What is below a row of a sorted column is below the next row.
proof fn lemma_above<K: Ord>(left: Seq<K>, right: Seq<K>, i: int, j: int)
    requires
        order::lawful::<K>(),
        sorted(left),
        0 <= i < left.len(),
        0 <= j <= right.len(),
        0 < j ==> below(right[j - 1], left[i]),
    ensures
        0 < j && i + 1 < left.len() ==> below(right[j - 1], left[i + 1]),
{
    order::lemma_order::<K>();
    if 0 < j && i + 1 < left.len() {
        let (r, x, y) = (right[j - 1], left[i], left[i + 1]);
        assert(!below(y, x));
        assert(below(x, y) || same(x, y));
    }
}

/// A key below every row from `j` on and above every row before `j` is
/// nowhere.
proof fn lemma_no_places<K: Ord>(keys: Seq<K>, key: K, j: int)
    requires
        order::lawful::<K>(),
        sorted(keys),
        0 <= j <= keys.len(),
        j > 0 ==> below(keys[j - 1], key),
        j < keys.len() ==> below(key, keys[j]),
    ensures
        places(keys, key) == Seq::<usize>::empty(),
    decreases keys.len(),
{
    order::lemma_order::<K>();
    if keys.len() > 0 {
        let k = keys.drop_last();
        assert(sorted(k));
        let last = keys[keys.len() - 1];
        if j == keys.len() {
            if j > 1 {
                let (x, y) = (keys[j - 2], keys[j - 1]);
                assert(!below(y, x));
                assert(below(x, y) || same(x, y));
                assert(below(x, key));
            }
            lemma_no_places(k, key, j - 1);
        } else {
            assert(!below(last, keys[j]));
            assert(below(keys[j], last) || same(keys[j], last));
            assert(below(key, last));
            lemma_no_places(k, key, j);
        }
        assert(!same(last, key));
    }
}

/// The rows of a sorted column that hold `key` are one run.
proof fn lemma_run_places<K: Ord>(keys: Seq<K>, key: K, j: int, j2: int)
    requires
        order::lawful::<K>(),
        sorted(keys),
        keys.len() <= usize::MAX,
        0 <= j <= j2 <= keys.len(),
        forall|t: int| j <= t < j2 ==> same(#[trigger] keys[t], key),
        j > 0 ==> below(keys[j - 1], key),
        j2 < keys.len() ==> below(key, keys[j2]),
    ensures
        places(keys, key) == Seq::new((j2 - j) as nat, |t: int| (j + t) as usize),
    decreases keys.len(),
{
    order::lemma_order::<K>();
    if keys.len() == 0 {
        assert(places(keys, key) =~= Seq::new((j2 - j) as nat, |t: int| (j + t) as usize));
    } else {
        let k = keys.drop_last();
        assert(sorted(k));
        let last = keys[keys.len() - 1];
        if j2 == keys.len() {
            if j < j2 {
                assert(same(last, key));
                lemma_run_places(k, key, j, j2 - 1);
            } else {
                if j > 1 {
                    let (x, y) = (keys[j - 2], keys[j - 1]);
                    assert(!below(y, x));
                    assert(below(x, y) || same(x, y));
                    assert(below(x, key));
                }
                lemma_run_places(k, key, j - 1, j2 - 1);
                assert(!same(last, key));
            }
        } else {
            assert(!below(last, keys[j2]));
            assert(below(keys[j2], last) || same(keys[j2], last));
            assert(below(key, last));
            lemma_run_places(k, key, j, j2);
            assert(!same(last, key));
        }
        assert(places(keys, key) =~= Seq::new((j2 - j) as nat, |t: int| (j + t) as usize));
    }
}

proof fn lemma_rest_empty<K: Ord>(left: Seq<K>, right: Seq<K>, i: int, j: int)
    requires
        order::lawful::<K>(),
        sorted(left),
        sorted(right),
        left.len() <= usize::MAX,
        0 <= i <= left.len(),
        0 <= j <= right.len(),
        i == left.len() || j == right.len(),
        0 < j && i < left.len() ==> below(right[j - 1], left[i]),
    ensures
        joined(left, right) == joined(left.take(i), right),
    decreases left.len() - i,
{
    if i < left.len() {
        lemma_no_places(right, left[i], right.len() as int);
        lemma_joined_step(left, right, i);
        lemma_above(left, right, i, j);
        lemma_rest_empty(left, right, i + 1, j);
        assert(joined(left.take(i + 1), right) =~= joined(left.take(i), right));
    } else {
        assert(left.take(i) =~= left);
    }
}

/// The numbers from `lo` up to `hi`, without `hi`.
pub open spec fn span(lo: int, hi: int) -> Seq<usize> {
    Seq::new((hi - lo) as nat, |t: int| (lo + t) as usize)
}

/// Row `i` with every pair of a row of `js` and a row of `ks`.
pub open spec fn tripled(i: usize, js: Seq<usize>, ks: Seq<usize>) -> Seq<(usize, usize, usize)>
    decreases js.len(),
{
    if js.len() == 0 {
        Seq::empty()
    } else {
        tripled(i, js.drop_last(), ks) + Seq::new(ks.len(), |t: int| (i, js.last(), ks[t]))
    }
}

/// The inner join of three key columns: every triple of rows with equal
/// keys, rows of `a` in order, then of `b`, then of `c`.
pub open spec fn joined_three<K: PartialEq>(a: Seq<K>, b: Seq<K>, c: Seq<K>) -> Seq<
    (usize, usize, usize),
>
    decreases a.len(),
{
    if a.len() == 0 {
        Seq::empty()
    } else {
        joined_three(a.drop_last(), b, c) + tripled(
            (a.len() - 1) as usize,
            places(b, a.last()),
            places(c, a.last()),
        )
    }
}

/// The end of the run of keys equal to `key` that starts at `from`.
fn run_end<K: Ord>(keys: &[K], from: usize, key: &K) -> (end: usize)
    requires
        from <= keys@.len(),
    ensures
        from <= end <= keys@.len(),
        order::lawful::<K>() ==> forall|t: int| from <= t < end ==> same(#[trigger] keys@[t], *key),
        order::lawful::<K>() && end < keys@.len() ==> !same(keys@[end as int], *key),
{
    let n: usize = keys.len();
    let mut end: usize = from;
    while end < n
        invariant
            n == keys@.len(),
            from <= end <= keys@.len(),
            order::lawful::<K>() ==> forall|t: int|
                from <= t < end ==> same(#[trigger] keys@[t], *key),
        decreases n - end,
    {
        if !is_same(&keys[end], key) {
            return end;
        }
        end += 1;
    }
    end
}

/// The first row from `from` on whose key is not below `key`.
fn seek<K: Ord>(keys: &[K], from: usize, key: &K) -> (to: usize)
    requires
        from <= keys@.len(),
    ensures
        from <= to <= keys@.len(),
        order::lawful::<K>() ==> forall|t: int| from <= t < to ==> below(#[trigger] keys@[t], *key),
        order::lawful::<K>() && to < keys@.len() ==> !below(keys@[to as int], *key),
{
    let n: usize = keys.len();
    let mut to: usize = from;
    while to < n
        invariant
            n == keys@.len(),
            from <= to <= keys@.len(),
            order::lawful::<K>() ==> forall|t: int|
                from <= t < to ==> below(#[trigger] keys@[t], *key),
        decreases n - to,
    {
        if !is_below(&keys[to], key) {
            return to;
        }
        to += 1;
    }
    to
}

/// The larger of two keys; the second where they are equal.
fn larger_of<'a, K: Ord>(a: &'a K, b: &'a K) -> (r: &'a K)
    ensures
        *r == *a || *r == *b,
        order::lawful::<K>() ==> !below(*r, *a) && !below(*r, *b),
{
    proof {
        if order::lawful::<K>() {
            order::lemma_order::<K>();
            assert(below(*b, *a) ==> !below(*a, *b));
            assert(below(*a, *a) ==> !below(*a, *a));
            assert(below(*b, *b) ==> !below(*b, *b));
        }
    }
    if is_below(b, a) {
        a
    } else {
        b
    }
}

/// Appends row `i` with every pair of the two spans.
fn push_triples(
    out: &mut Vec<(usize, usize, usize)>,
    i: usize,
    j: usize,
    j2: usize,
    k: usize,
    k2: usize,
)
    requires
        j <= j2,
        k <= k2,
    ensures
        final(out)@ == old(out)@ + tripled(i, span(j as int, j2 as int), span(k as int, k2 as int)),
{
    let ghost ks = span(k as int, k2 as int);
    let mut jj: usize = j;
    while jj < j2
        invariant
            j <= jj <= j2,
            k <= k2,
            ks == span(k as int, k2 as int),
            out@ == old(out)@ + tripled(i, span(j as int, jj as int), ks),
        decreases j2 - jj,
    {
        let ghost before = out@;
        let mut kk: usize = k;
        while kk < k2
            invariant
                k <= kk <= k2,
                jj < j2,
                ks == span(k as int, k2 as int),
                out@ == before + Seq::new((kk - k) as nat, |t: int| (i, jj, ks[t])),
            decreases k2 - kk,
        {
            out.push((i, jj, kk));
            kk += 1;
            assert(out@ =~= before + Seq::new((kk - k) as nat, |t: int| (i, jj, ks[t])));
        }
        assert(span(j as int, jj + 1).drop_last() =~= span(j as int, jj as int));
        jj += 1;
        assert(out@ =~= old(out)@ + tripled(i, span(j as int, jj as int), ks));
    }
}

/// Three-way leapfrog join over sorted columns. Returns triples of rows
/// `(i, j, k)` such that `a[i] == b[j] == c[k]`. All three inputs must be
/// sorted ascending for the join to be complete, and the order of the keys
/// must be one.
pub fn lftj_three<K: Ord + Clone>(a: &[K], b: &[K], c: &[K]) -> (out: Vec<(usize, usize, usize)>)
    ensures
        order::lawful::<K>() && sorted(a@) && sorted(b@) && sorted(c@) ==> out@ == joined_three(
            a@,
            b@,
            c@,
        ),
        order::lawful::<K>() ==> all_match(out@, a@, b@, c@),
        all_within(out@, a@.len(), b@.len(), c@.len()),
{
    let mut out: Vec<(usize, usize, usize)> = Vec::new();
    let mut i: usize = 0;
    let mut j: usize = 0;
    let mut k: usize = 0;
    let n: usize = a.len();
    let ghost lawful = order::lawful::<K>();
    let ghost ok = lawful && sorted(a@) && sorted(b@) && sorted(c@);
    while i < n && j < b.len() && k < c.len()
        invariant
            n == a@.len(),
            i <= a@.len(),
            j <= b@.len(),
            k <= c@.len(),
            lawful == order::lawful::<K>(),
            ok == (lawful && sorted(a@) && sorted(b@) && sorted(c@)),
            ok ==> out@ == joined_three(a@.take(i as int), b@, c@),
            ok && 0 < j && i < a@.len() ==> below(b@[j - 1], a@[i as int]),
            ok && 0 < k && i < a@.len() ==> below(c@[k - 1], a@[i as int]),
            lawful ==> all_match(out@, a@, b@, c@),
            all_within(out@, a@.len(), b@.len(), c@.len()),
        decreases n - i + b.len() - j + c.len() - k,
    {
        proof {
            if lawful {
                order::lemma_order::<K>();
            }
        }
        let ka = &a[i];
        let kb = &b[j];
        let kc = &c[k];
        if is_same(ka, kb) && is_same(kb, kc) {
            let i2: usize = run_end(a, i, ka);
            let j2: usize = run_end(b, j, ka);
            let k2: usize = run_end(c, k, ka);
            proof {
                if ok {
                    lemma_run_stops(b@, *ka, j as int, j2 as int);
                    lemma_run_stops(c@, *ka, k as int, k2 as int);
                    lemma_run_places(b@, *ka, j as int, j2 as int);
                    lemma_run_places(c@, *ka, k as int, k2 as int);
                    assert(places(b@, *ka) =~= span(j as int, j2 as int));
                    assert(places(c@, *ka) =~= span(k as int, k2 as int));
                }
            }
            let mut ii: usize = i;
            while ii < i2
                invariant
                    i <= ii <= i2 <= n,
                    n == a@.len(),
                    j <= j2 <= b@.len(),
                    k <= k2 <= c@.len(),
                    lawful == order::lawful::<K>(),
                    ok ==> lawful && sorted(b@) && sorted(c@),
                    lawful ==> forall|t: int| i <= t < i2 ==> same(#[trigger] a@[t], *ka),
                    lawful ==> forall|t: int| j <= t < j2 ==> same(#[trigger] b@[t], *ka),
                    lawful ==> forall|t: int| k <= t < k2 ==> same(#[trigger] c@[t], *ka),
                    ok ==> out@ == joined_three(a@.take(ii as int), b@, c@),
                    ok ==> places(b@, *ka) == span(j as int, j2 as int),
                    ok ==> places(c@, *ka) == span(k as int, k2 as int),
                    lawful ==> all_match(out@, a@, b@, c@),
                    all_within(out@, a@.len(), b@.len(), c@.len()),
                decreases i2 - ii,
            {
                let ghost before = out@;
                push_triples(&mut out, ii, j, j2, k, k2);
                proof {
                    let (js, ks) = (span(j as int, j2 as int), span(k as int, k2 as int));
                    lemma_all_within(before, ii, js, ks, a@.len(), b@.len(), c@.len());
                    if lawful {
                        lemma_all_match(before, ii, js, ks, a@, b@, c@, *ka);
                    }
                    if ok {
                        lemma_same_places(b@, a@[ii as int], *ka);
                        lemma_same_places(c@, a@[ii as int], *ka);
                        lemma_joined_three_step(a@, b@, c@, ii as int);
                    }
                }
                ii += 1;
            }
            proof {
                if lawful {
                    assert(same(a@[i as int], *ka));
                }
                if ok && i2 < a@.len() {
                    let (x, y) = (a@[i2 - 1], a@[i2 as int]);
                    assert(!below(y, x));
                    assert(!same(y, *ka));
                    assert(same(x, *ka));
                    assert(below(x, y) || same(x, y));
                    if j2 > 0 {
                        lemma_passed(b@, *ka, j as int, j2 as int, y, x);
                    }
                    if k2 > 0 {
                        lemma_passed(c@, *ka, k as int, k2 as int, y, x);
                    }
                }
            }
            if i2 == i {
                // only where a key does not equal itself
                return out;
            }
            i = i2;
            j = j2;
            k = k2;
        } else {
            // advance every cursor to the largest of the three keys
            let top = larger_of(larger_of(ka, kb), kc);
            let i2: usize = seek(a, i, top);
            let j2: usize = seek(b, j, top);
            let k2: usize = seek(c, k, top);
            proof {
                if lawful {
                    lemma_some_below(*ka, *kb, *kc, *top);
                }
                if ok {
                    lemma_skip(a@, b@, c@, i as int, i2 as int, j as int, k as int, *top);
                    if i2 < a@.len() {
                        let y = a@[i2 as int];
                        assert(!below(y, *top));
                        lemma_sought(a@, b@, i as int, i2 as int, j as int, j2 as int, *top);
                        lemma_sought(a@, c@, i as int, i2 as int, k as int, k2 as int, *top);
                    }
                }
            }
            if i2 == i && j2 == j && k2 == k {
                // only where the keys have no order
                return out;
            }
            i = i2;
            j = j2;
            k = k2;
        }
    }
    proof {
        if ok {
            lemma_rest_empty_three(a@, b@, c@, i as int, j as int, k as int);
        }
    }
    out
}

/// Every triple has equal keys.
pub open spec fn all_match<K: PartialEq>(
    out: Seq<(usize, usize, usize)>,
    a: Seq<K>,
    b: Seq<K>,
    c: Seq<K>,
) -> bool {
    forall|t: int|
        0 <= t < out.len() ==> (#[trigger] out[t]).0 < a.len() && out[t].1 < b.len() && out[t].2
            < c.len() && same(a[out[t].0 as int], b[out[t].1 as int]) && same(
            b[out[t].1 as int],
            c[out[t].2 as int],
        )
}

/// Every triple is of rows that exist.
pub open spec fn all_within(out: Seq<(usize, usize, usize)>, la: nat, lb: nat, lc: nat) -> bool {
    forall|t: int|
        0 <= t < out.len() ==> (#[trigger] out[t]).0 < la && out[t].1 < lb && out[t].2 < lc
}

proof fn lemma_all_within(
    before: Seq<(usize, usize, usize)>,
    i: usize,
    js: Seq<usize>,
    ks: Seq<usize>,
    la: nat,
    lb: nat,
    lc: nat,
)
    requires
        all_within(before, la, lb, lc),
        i < la,
        forall|t: int| 0 <= t < js.len() ==> #[trigger] js[t] < lb,
        forall|t: int| 0 <= t < ks.len() ==> #[trigger] ks[t] < lc,
    ensures
        all_within(before + tripled(i, js, ks), la, lb, lc),
    decreases js.len(),
{
    if js.len() == 0 {
        assert(before + tripled(i, js, ks) =~= before);
    } else {
        lemma_all_within(before, i, js.drop_last(), ks, la, lb, lc);
        let rest = tripled(i, js.drop_last(), ks);
        let whole = before + tripled(i, js, ks);
        assert forall|t: int| 0 <= t < whole.len() implies (#[trigger] whole[t]).0 < la
            && whole[t].1 < lb && whole[t].2 < lc by {
            if t < before.len() + rest.len() {
                assert(whole[t] == (before + rest)[t]);
            } else {
                let u = t - before.len() - rest.len();
                assert(whole[t] == (i, js.last(), ks[u]));
                assert(js[js.len() - 1] < lb);
            }
        }
    }
}

proof fn lemma_all_match<K: Ord>(
    before: Seq<(usize, usize, usize)>,
    i: usize,
    js: Seq<usize>,
    ks: Seq<usize>,
    a: Seq<K>,
    b: Seq<K>,
    c: Seq<K>,
    key: K,
)
    requires
        order::lawful::<K>(),
        all_match(before, a, b, c),
        i < a.len(),
        same(a[i as int], key),
        forall|t: int|
            0 <= t < js.len() ==> #[trigger] js[t] < b.len() && same(b[js[t] as int], key),
        forall|t: int|
            0 <= t < ks.len() ==> #[trigger] ks[t] < c.len() && same(c[ks[t] as int], key),
    ensures
        all_match(before + tripled(i, js, ks), a, b, c),
    decreases js.len(),
{
    order::lemma_order::<K>();
    if js.len() == 0 {
        assert(before + tripled(i, js, ks) =~= before);
    } else {
        lemma_all_match(before, i, js.drop_last(), ks, a, b, c, key);
        let rest = tripled(i, js.drop_last(), ks);
        let whole = before + tripled(i, js, ks);
        assert forall|t: int| 0 <= t < whole.len() implies (#[trigger] whole[t]).0 < a.len()
            && whole[t].1 < b.len() && whole[t].2 < c.len() && same(
            a[whole[t].0 as int],
            b[whole[t].1 as int],
        ) && same(b[whole[t].1 as int], c[whole[t].2 as int]) by {
            if t < before.len() + rest.len() {
                assert(whole[t] == (before + rest)[t]);
            } else {
                let u = t - before.len() - rest.len();
                assert(whole[t] == (i, js.last(), ks[u]));
                assert(js[js.len() - 1] < b.len());
                let (x, y, z) = (a[i as int], b[js.last() as int], c[ks[u] as int]);
                assert(same(x, key) && same(y, key) && same(z, key));
                assert(same(key, y) && same(key, z));
            }
        }
    }
}

/// Where a run of equal keys stops in a sorted column, a larger key stands.
proof fn lemma_run_stops<K: Ord>(keys: Seq<K>, key: K, j: int, j2: int)
    requires
        order::lawful::<K>(),
        sorted(keys),
        0 <= j < keys.len(),
        j <= j2 <= keys.len(),
        same(key, keys[j]),
        j2 < keys.len() ==> !same(keys[j2], key),
    ensures
        j2 < keys.len() ==> below(key, keys[j2]),
        j < j2,
{
    order::lemma_order::<K>();
    assert(same(keys[j], key));
    if j2 < keys.len() {
        assert(!below(keys[j2], keys[j]));
        assert(below(keys[j], keys[j2]) || same(keys[j], keys[j2]));
        if same(keys[j], keys[j2]) {
            assert(same(keys[j2], keys[j]));
            assert(same(keys[j2], key));
        }
    }
}

/// Equal keys are in the same places.
proof fn lemma_same_places<K: Ord>(keys: Seq<K>, x: K, y: K)
    requires
        order::lawful::<K>(),
        same(x, y),
    ensures
        places(keys, x) == places(keys, y),
    decreases keys.len(),
{
    order::lemma_order::<K>();
    if keys.len() > 0 {
        lemma_same_places(keys.drop_last(), x, y);
        let z = keys.last();
        assert(same(y, x));
        assert(same(z, x) ==> same(z, y));
        assert(same(z, y) ==> same(z, x));
    }
}

/// The last key of a run is below what comes behind an equal run.
proof fn lemma_passed<K: Ord>(keys: Seq<K>, key: K, j: int, j2: int, y: K, x: K)
    requires
        order::lawful::<K>(),
        0 <= j < j2 <= keys.len(),
        forall|t: int| j <= t < j2 ==> same(#[trigger] keys[t], key),
        same(x, key),
        !same(y, key),
        !below(y, x),
    ensures
        below(keys[j2 - 1], y),
{
    order::lemma_order::<K>();
    let z = keys[j2 - 1];
    assert(same(z, key));
    assert(same(key, x) && same(z, x));
    assert(below(x, y) || same(x, y));
    if same(x, y) {
        assert(same(y, x));
        assert(same(y, key));
    }
}

/// Of three keys that are not all equal, one is below the largest.
proof fn lemma_some_below<K: Ord>(x: K, y: K, z: K, top: K)
    requires
        order::lawful::<K>(),
        !(same(x, y) && same(y, z)),
        !below(top, x) && !below(top, y) && !below(top, z),
    ensures
        below(x, top) || below(y, top) || below(z, top),
{
    order::lemma_order::<K>();
    if !below(x, top) && !below(y, top) && !below(z, top) {
        assert(same(x, top) && same(y, top) && same(z, top));
        assert(same(top, y) && same(top, z));
        assert(same(x, y) && same(y, z));
    }
}

/// What a seek passed over is below what the other seek found.
proof fn lemma_sought<K: Ord>(a: Seq<K>, b: Seq<K>, i: int, i2: int, j: int, j2: int, top: K)
    requires
        order::lawful::<K>(),
        sorted(a),
        0 <= i <= i2 < a.len(),
        0 <= j <= j2 <= b.len(),
        !below(a[i2], top),
        forall|t: int| j <= t < j2 ==> below(#[trigger] b[t], top),
        0 < j ==> below(b[j - 1], a[i]),
    ensures
        0 < j2 ==> below(b[j2 - 1], a[i2]),
{
    order::lemma_order::<K>();
    if 0 < j2 {
        let (x, y) = (b[j2 - 1], a[i2]);
        if j < j2 {
            assert(below(x, top));
            assert(below(top, y) || same(top, y));
        } else {
            assert(!below(y, a[i]));
            assert(below(a[i], y) || same(a[i], y));
        }
    }
}

proof fn lemma_joined_three_step<K: PartialEq>(a: Seq<K>, b: Seq<K>, c: Seq<K>, i: int)
    requires
        0 <= i < a.len() <= usize::MAX,
    ensures
        joined_three(a.take(i + 1), b, c) == joined_three(a.take(i), b, c) + tripled(
            i as usize,
            places(b, a[i]),
            places(c, a[i]),
        ),
{
    assert(a.take(i + 1).drop_last() =~= a.take(i));
}

proof fn lemma_tripled_empty(i: usize, js: Seq<usize>, ks: Seq<usize>)
    requires
        js.len() == 0 || ks.len() == 0,
    ensures
        tripled(i, js, ks) == Seq::<(usize, usize, usize)>::empty(),
    decreases js.len(),
{
    if js.len() > 0 {
        lemma_tripled_empty(i, js.drop_last(), ks);
        assert(tripled(i, js, ks) =~= Seq::<(usize, usize, usize)>::empty());
    }
}

/// The rows of `a` that a seek passes over join with nothing.
proof fn lemma_skip<K: Ord>(
    a: Seq<K>,
    b: Seq<K>,
    c: Seq<K>,
    i: int,
    i2: int,
    j: int,
    k: int,
    top: K,
)
    requires
        order::lawful::<K>(),
        sorted(a),
        sorted(b),
        sorted(c),
        0 <= i <= i2 <= a.len() <= usize::MAX,
        i < a.len(),
        0 <= j < b.len(),
        0 <= k < c.len(),
        top == a[i] || top == b[j] || top == c[k],
        forall|t: int| i <= t < i2 ==> below(#[trigger] a[t], top),
        0 < j ==> below(b[j - 1], a[i]),
        0 < k ==> below(c[k - 1], a[i]),
    ensures
        joined_three(a.take(i2), b, c) == joined_three(a.take(i), b, c),
    decreases i2 - i,
{
    order::lemma_order::<K>();
    if i < i2 {
        let x = i2 - 1;
        assert(below(a[i], top));
        assert(below(a[x], top));
        assert(!below(a[x], a[i]));
        assert(below(a[i], a[x]) || same(a[i], a[x]));
        if top == b[j] {
            assert(0 < j ==> below(b[j - 1], a[x]));
            lemma_no_places(b, a[x], j);
        } else {
            assert(0 < k ==> below(c[k - 1], a[x]));
            lemma_no_places(c, a[x], k);
        }
        lemma_tripled_empty(x as usize, places(b, a[x]), places(c, a[x]));
        lemma_joined_three_step(a, b, c, x);
        lemma_skip(a, b, c, i, x, j, k, top);
        assert(joined_three(a.take(i2), b, c) =~= joined_three(a.take(x), b, c));
    }
}

proof fn lemma_rest_empty_three<K: Ord>(
    a: Seq<K>,
    b: Seq<K>,
    c: Seq<K>,
    i: int,
    j: int,
    k: int,
)
    requires
        order::lawful::<K>(),
        sorted(a),
        sorted(b),
        sorted(c),
        a.len() <= usize::MAX,
        0 <= i <= a.len(),
        0 <= j <= b.len(),
        0 <= k <= c.len(),
        i == a.len() || j == b.len() || k == c.len(),
        0 < j && i < a.len() ==> below(b[j - 1], a[i]),
        0 < k && i < a.len() ==> below(c[k - 1], a[i]),
    ensures
        joined_three(a, b, c) == joined_three(a.take(i), b, c),
    decreases a.len() - i,
{
    if i < a.len() {
        if j == b.len() {
            lemma_no_places(b, a[i], b.len() as int);
        } else {
            lemma_no_places(c, a[i], c.len() as int);
        }
        lemma_tripled_empty(i as usize, places(b, a[i]), places(c, a[i]));
        lemma_joined_three_step(a, b, c, i);
        lemma_above(a, b, i, j);
        lemma_above(a, c, i, k);
        lemma_rest_empty_three(a, b, c, i + 1, j, k);
        assert(joined_three(a.take(i + 1), b, c) =~= joined_three(a.take(i), b, c));
    } else {
        assert(a.take(i) =~= a);
    }
}

/// A row is among the places of a key just where it holds that key, and
/// places ascend.
proof fn lemma_places<K: PartialEq>(keys: Seq<K>, key: K)
    requires
        keys.len() <= usize::MAX,
    ensures
        forall|j: usize|
            #[trigger] places(keys, key).contains(j) <==> j < keys.len() && same(
                keys[j as int],
                key,
            ),
        forall|s: int, t: int|
            0 <= s < t < places(keys, key).len() ==> places(keys, key)[s] < places(keys, key)[t],
        forall|t: int|
            0 <= t < places(keys, key).len() ==> #[trigger] places(keys, key)[t] < keys.len(),
    decreases keys.len(),
{
    if keys.len() > 0 {
        let k = keys.drop_last();
        lemma_places(k, key);
        let p = places(k, key);
        let q = places(keys, key);
        let last = (keys.len() - 1) as usize;
        assert forall|j: usize| #[trigger] q.contains(j) <==> j < keys.len() && same(
            keys[j as int],
            key,
        ) by {
            if q.contains(j) {
                let t = q.index_of(j);
                if t < p.len() {
                    assert(p[t] == j);
                    assert(p.contains(j));
                }
            }
            if j < keys.len() && same(keys[j as int], key) {
                if j == last {
                    assert(q[q.len() - 1] == j);
                } else {
                    assert(same(k[j as int], key));
                    assert(p.contains(j));
                    let t = p.index_of(j);
                    assert(q[t] == j);
                }
            }
        }
        assert forall|t: int| 0 <= t < q.len() implies #[trigger] q[t] < keys.len() by {
            if t < p.len() {
                assert(q[t] == p[t]);
            }
        }
        assert forall|s: int, t: int| 0 <= s < t < q.len() implies q[s] < q[t] by {
            assert(q[s] == p[s]);
            if t < p.len() {
                assert(q[t] == p[t]);
            }
        }
    }
}

/// The join pairs up exactly the rows whose keys are equal.
pub proof fn joined_iff_equal_keys<K: PartialEq>(left: Seq<K>, right: Seq<K>, i: usize, j: usize)
    requires
        left.len() <= usize::MAX,
        right.len() <= usize::MAX,
    ensures
        joined(left, right).contains((i, j)) <==> pair_matches((i, j), left, right),
    decreases left.len(),
{
    if left.len() > 0 {
        let l = left.drop_last();
        let last = (left.len() - 1) as usize;
        joined_iff_equal_keys(l, right, i, j);
        lemma_places(right, left.last());
        let p = joined(l, right);
        let js = places(right, left.last());
        let q = joined(left, right);
        assert(q == p + paired(last, js));
        if q.contains((i, j)) {
            let t = q.index_of((i, j));
            if t < p.len() {
                assert(p[t] == (i, j));
                assert(p.contains((i, j)));
                assert(l[i as int] == left[i as int]);
            } else {
                assert(q[t] == (last, js[t - p.len()]));
                assert(js.contains(j));
            }
        }
        if pair_matches((i, j), left, right) {
            if i == last {
                assert(js.contains(j));
                let t = js.index_of(j);
                assert(q[p.len() + t] == (i, j));
            } else {
                assert(p.contains((i, j)));
                let t = p.index_of((i, j));
                assert(q[t] == (i, j));
            }
        }
    }
}

/// No pair comes twice.
pub proof fn joined_holds_no_pair_twice<K: PartialEq>(left: Seq<K>, right: Seq<K>)
    requires
        left.len() <= usize::MAX,
        right.len() <= usize::MAX,
    ensures
        joined(left, right).no_duplicates(),
    decreases left.len(),
{
    if left.len() > 0 {
        let l = left.drop_last();
        let last = (left.len() - 1) as usize;
        joined_holds_no_pair_twice(l, right);
        lemma_places(right, left.last());
        let p = joined(l, right);
        let js = places(right, left.last());
        let q = joined(left, right);
        assert forall|s: int, t: int| 0 <= s < q.len() && 0 <= t < q.len() && s != t implies q[s]
            != q[t] by {
            if s < p.len() {
                assert(p.contains(p[s]));
                joined_iff_equal_keys(l, right, p[s].0, p[s].1);
            } else {
                assert(q[s] == (last, js[s - p.len()]));
            }
            if t < p.len() {
                assert(p.contains(p[t]));
                joined_iff_equal_keys(l, right, p[t].0, p[t].1);
            } else {
                assert(q[t] == (last, js[t - p.len()]));
            }
        }
    }
}

proof fn lemma_tripled(i: usize, js: Seq<usize>, ks: Seq<usize>, x: (usize, usize, usize))
    ensures
        tripled(i, js, ks).contains(x) <==> x.0 == i && js.contains(x.1) && ks.contains(x.2),
    decreases js.len(),
{
    if js.len() > 0 {
        let r = js.drop_last();
        lemma_tripled(i, r, ks, x);
        let p = tripled(i, r, ks);
        let q = tripled(i, js, ks);
        if q.contains(x) {
            let t = q.index_of(x);
            if t < p.len() {
                assert(p[t] == x);
                assert(p.contains(x));
                assert(js[r.index_of(x.1)] == x.1);
            } else {
                assert(q[t] == (i, js.last(), ks[t - p.len()]));
                assert(js[js.len() - 1] == x.1);
            }
        }
        if x.0 == i && js.contains(x.1) && ks.contains(x.2) {
            let u = js.index_of(x.1);
            if u < r.len() {
                assert(r[u] == x.1);
                assert(p.contains(x));
                assert(q[p.index_of(x)] == x);
            } else {
                assert(q[p.len() + ks.index_of(x.2)] == x);
            }
        }
    }
}

/// The three-way join holds exactly the triples whose keys are equal.
pub proof fn joined_three_iff_equal_keys<K: PartialEq>(
    a: Seq<K>,
    b: Seq<K>,
    c: Seq<K>,
    i: usize,
    j: usize,
    k: usize,
)
    requires
        a.len() <= usize::MAX,
        b.len() <= usize::MAX,
        c.len() <= usize::MAX,
    ensures
        joined_three(a, b, c).contains((i, j, k)) <==> i < a.len() && j < b.len() && k < c.len()
            && same(b[j as int], a[i as int]) && same(c[k as int], a[i as int]),
    decreases a.len(),
{
    if a.len() > 0 {
        let l = a.drop_last();
        let last = (a.len() - 1) as usize;
        let x = (i, j, k);
        joined_three_iff_equal_keys(l, b, c, i, j, k);
        lemma_places(b, a.last());
        lemma_places(c, a.last());
        let js = places(b, a.last());
        let ks = places(c, a.last());
        lemma_tripled(last, js, ks, x);
        let p = joined_three(l, b, c);
        let m = tripled(last, js, ks);
        let q = joined_three(a, b, c);
        assert(q == p + m);
        assert(js.contains(j) <==> j < b.len() && same(b[j as int], a.last()));
        assert(ks.contains(k) <==> k < c.len() && same(c[k as int], a.last()));
        if q.contains(x) {
            let t = q.index_of(x);
            if t < p.len() {
                assert(p[t] == x);
                assert(p.contains(x));
            } else {
                assert(m[t - p.len()] == x);
                assert(m.contains(x));
            }
        }
        if p.contains(x) {
            assert(q[p.index_of(x)] == x);
        }
        if m.contains(x) {
            assert(q[p.len() + m.index_of(x)] == x);
        }
    }
}

proof fn lemma_places_ascend<K: PartialEq>(keys: Seq<K>, key: K)
    requires
        keys.len() <= usize::MAX,
    ensures
        forall|s: int, t: int|
            0 <= s < t < places(keys, key).len() ==> places(keys, key)[s] < places(keys, key)[t],
        forall|t: int| 0 <= t < places(keys, key).len() ==> #[trigger] places(keys, key)[t] < keys.len(),
    decreases keys.len(),
{
    if keys.len() > 0 {
        let f = keys.drop_last();
        lemma_places_ascend(f, key);
        let (p, q) = (places(f, key), places(keys, key));
        assert forall|t: int| 0 <= t < q.len() implies #[trigger] q[t] < keys.len() by {
            if t < p.len() {
                assert(q[t] == p[t]);
            }
        }
        assert forall|s: int, t: int| 0 <= s < t < q.len() implies q[s] < q[t] by {
            assert(q[s] == p[s]);
            if t < p.len() {
                assert(q[t] == p[t]);
            }
        }
    }
}

/// One triple of rows comes before another: by its first row, then its
/// second, then its third.
pub open spec fn earlier(x: (usize, usize, usize), y: (usize, usize, usize)) -> bool {
    x.0 < y.0 || (x.0 == y.0 && (x.1 < y.1 || (x.1 == y.1 && x.2 < y.2)))
}

proof fn lemma_tripled_ascend(i: usize, js: Seq<usize>, ks: Seq<usize>)
    requires
        forall|s: int, t: int| 0 <= s < t < js.len() ==> js[s] < js[t],
        forall|s: int, t: int| 0 <= s < t < ks.len() ==> ks[s] < ks[t],
    ensures
        forall|s: int, t: int|
            0 <= s < t < tripled(i, js, ks).len() ==> earlier(
                #[trigger] tripled(i, js, ks)[s],
                #[trigger] tripled(i, js, ks)[t],
            ),
        forall|s: int|
            0 <= s < tripled(i, js, ks).len() ==> (#[trigger] tripled(i, js, ks)[s]).0 == i
                && js.contains(tripled(i, js, ks)[s].1),
    decreases js.len(),
{
    if js.len() > 0 {
        let r = js.drop_last();
        lemma_tripled_ascend(i, r, ks);
        let (p, q) = (tripled(i, r, ks), tripled(i, js, ks));
        assert forall|s: int| 0 <= s < q.len() implies (#[trigger] q[s]).0 == i && js.contains(
            q[s].1,
        ) by {
            if s < p.len() {
                assert(q[s] == p[s]);
                let u = choose|u: int| 0 <= u < r.len() && r[u] == p[s].1;
                assert(js[u] == q[s].1);
            } else {
                assert(js[js.len() - 1] == q[s].1);
            }
        }
        assert forall|s: int, t: int| 0 <= s < t < q.len() implies earlier(
            #[trigger] q[s],
            #[trigger] q[t],
        ) by {
            if t < p.len() {
                assert(q[s] == p[s] && q[t] == p[t]);
            } else if s < p.len() {
                assert(q[s] == p[s]);
                let u = choose|u: int| 0 <= u < r.len() && r[u] == p[s].1;
                assert(js[u] < js[js.len() - 1]);
            }
        }
    }
}

/// The three-way join lists its triples in order, so none twice.
pub proof fn joined_three_is_in_order<K: PartialEq>(a: Seq<K>, b: Seq<K>, c: Seq<K>)
    requires
        a.len() <= usize::MAX,
        b.len() <= usize::MAX,
        c.len() <= usize::MAX,
    ensures
        forall|s: int, t: int|
            0 <= s < t < joined_three(a, b, c).len() ==> earlier(
                #[trigger] joined_three(a, b, c)[s],
                #[trigger] joined_three(a, b, c)[t],
            ),
        forall|s: int|
            0 <= s < joined_three(a, b, c).len() ==> (#[trigger] joined_three(a, b, c)[s]).0
                < a.len(),
    decreases a.len(),
{
    if a.len() > 0 {
        let l = a.drop_last();
        joined_three_is_in_order(l, b, c);
        lemma_places_ascend(b, a.last());
        lemma_places_ascend(c, a.last());
        let last = (a.len() - 1) as usize;
        lemma_tripled_ascend(last, places(b, a.last()), places(c, a.last()));
        let p = joined_three(l, b, c);
        let m = tripled(last, places(b, a.last()), places(c, a.last()));
        let q = joined_three(a, b, c);
        assert(q == p + m);
        assert forall|s: int| 0 <= s < q.len() implies (#[trigger] q[s]).0 < a.len() by {
            if s < p.len() {
                assert(q[s] == p[s]);
            } else {
                assert(q[s] == m[s - p.len()]);
            }
        }
        assert forall|s: int, t: int| 0 <= s < t < q.len() implies earlier(
            #[trigger] q[s],
            #[trigger] q[t],
        ) by {
            if t < p.len() {
                assert(q[s] == p[s] && q[t] == p[t]);
            } else {
                assert(q[t] == m[t - p.len()]);
                if s < p.len() {
                    assert(q[s] == p[s]);
                } else {
                    assert(q[s] == m[s - p.len()]);
                }
            }
        }
    }
}

/// The two-way join lists its pairs in order: by the left row, then by the
/// right one.
pub proof fn joined_is_in_order<K: PartialEq>(left: Seq<K>, right: Seq<K>)
    requires
        left.len() <= usize::MAX,
        right.len() <= usize::MAX,
    ensures
        forall|s: int, t: int|
            0 <= s < t < joined(left, right).len() ==> {
                let (x, y) = (#[trigger] joined(left, right)[s], #[trigger] joined(left, right)[t]);
                x.0 < y.0 || (x.0 == y.0 && x.1 < y.1)
            },
        forall|s: int|
            0 <= s < joined(left, right).len() ==> (#[trigger] joined(left, right)[s]).0
                < left.len(),
    decreases left.len(),
{
    if left.len() > 0 {
        let l = left.drop_last();
        joined_is_in_order(l, right);
        lemma_places_ascend(right, left.last());
        let last = (left.len() - 1) as usize;
        let p = joined(l, right);
        let m = paired(last, places(right, left.last()));
        let q = joined(left, right);
        assert(q == p + m);
        assert forall|s: int| 0 <= s < q.len() implies (#[trigger] q[s]).0 < left.len() by {
            if s < p.len() {
                assert(q[s] == p[s]);
            } else {
                assert(q[s] == m[s - p.len()]);
            }
        }
        assert forall|s: int, t: int| 0 <= s < t < q.len() implies ({
            let (x, y) = (#[trigger] q[s], #[trigger] q[t]);
            x.0 < y.0 || (x.0 == y.0 && x.1 < y.1)
        }) by {
            if t < p.len() {
                assert(q[s] == p[s] && q[t] == p[t]);
            } else {
                assert(q[t] == m[t - p.len()]);
                if s < p.len() {
                    assert(q[s] == p[s]);
                } else {
                    assert(q[s] == m[s - p.len()]);
                }
            }
        }
    }
}

} // verus!

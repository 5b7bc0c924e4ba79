//! Streaming chain join: the answers of `R(a, b)`, `S(b, c)`, `T(c, d)`
//! counted per arrival, in time that depends on the arrival's own matches
//! alone.

use vstd::prelude::*;

use crate::maps;
use crate::maps::{
    new_links_map, new_rows_map, links_map_get, links_map_push, rows_map_get, rows_map_push,
};

verus! {

/// How often `key` occurs.
pub open spec fn tally(s: Seq<i64>, key: i64) -> nat
    decreases s.len(),
{
    if s.len() == 0 {
        0
    } else {
        tally(s.drop_last(), key) + (if s.last() == key {
            1nat
        } else {
            0nat
        })
    }
}

/// The number of answers that the rows of `S` take part in: each joins
/// every row of `R` with its `b` to every row of `T` with its `c`.
pub open spec fn answers(r: Seq<i64>, s: Seq<(i64, i64)>, t: Seq<i64>) -> nat
    decreases s.len(),
{
    if s.len() == 0 {
        0
    } else {
        answers(r, s.drop_last(), t) + tally(r, s.last().0) * tally(t, s.last().1)
    }
}

/// The links of `S` under `b`: each row's `c` with its row number.
pub open spec fn links_from_b(s: Seq<(i64, i64)>, b: i64) -> Seq<(i64, usize)>
    decreases s.len(),
{
    if s.len() == 0 {
        Seq::empty()
    } else {
        let l = links_from_b(s.drop_last(), b);
        if s.last().0 == b {
            l.push((s.last().1, (s.len() - 1) as usize))
        } else {
            l
        }
    }
}

/// The links of `S` under `c`: each row's `b` with its row number.
pub open spec fn links_from_c(s: Seq<(i64, i64)>, c: i64) -> Seq<(i64, usize)>
    decreases s.len(),
{
    if s.len() == 0 {
        Seq::empty()
    } else {
        let l = links_from_c(s.drop_last(), c);
        if s.last().1 == c {
            l.push((s.last().0, (s.len() - 1) as usize))
        } else {
            l
        }
    }
}

/// The rows that occur in `keys` with any of the linked keys.
pub open spec fn linked(links: Seq<(i64, usize)>, keys: Seq<i64>) -> nat
    decreases links.len(),
{
    if links.len() == 0 {
        0
    } else {
        linked(links.drop_last(), keys) + tally(keys, links.last().0)
    }
}

/// What has arrived: the `b` of each row of `R`, the `(b, c)` of each row
/// of `S` and the `c` of each row of `T`.
pub struct Arrived {
    pub r: Seq<i64>,
    pub s: Seq<(i64, i64)>,
    pub t: Seq<i64>,
}

/// A stream of three-way join tuples.
///
/// Each arrival brings one tuple of one of the three relations and tells
/// how many new join answers it creates.
pub struct StreamingChainJoin {
    r_by_b: ahash::AHashMap<i64, Vec<usize>>,
    s_by_b: ahash::AHashMap<i64, Vec<(i64, usize)>>,
    s_by_c: ahash::AHashMap<i64, Vec<(i64, usize)>>,
    t_by_c: ahash::AHashMap<i64, Vec<usize>>,
    r_a_for_id: Vec<i64>,
    n_s: usize,
    n_t: usize,
    n_emit: u64,
    arrived: Ghost<Arrived>,
}

impl View for StreamingChainJoin {
    type V = Arrived;

    closed spec fn view(&self) -> Arrived {
        self.arrived@
    }
}

impl StreamingChainJoin {
    /// The indexes hold what has arrived, and the total is its answers.
    pub closed spec fn wf(&self) -> bool {
        let h = self.arrived@;
        &&& forall|b: i64| #[trigger]
            maps::rows_at(maps::rows_map(self.r_by_b), b).len() == tally(h.r, b)
        &&& forall|c: i64| #[trigger]
            maps::rows_at(maps::rows_map(self.t_by_c), c).len() == tally(h.t, c)
        &&& forall|b: i64| #[trigger]
            maps::links_at(maps::links_map(self.s_by_b), b) == links_from_b(h.s, b)
        &&& forall|c: i64| #[trigger]
            maps::links_at(maps::links_map(self.s_by_c), c) == links_from_c(h.s, c)
        &&& self.r_a_for_id@.len() == h.r.len()
        &&& self.n_s == h.s.len()
        &&& self.n_t == h.t.len()
        &&& self.n_emit == answers(h.r, h.s, h.t)
    }

    /// Start an empty streaming chain join.
    pub fn new() -> (j: Self)
        ensures
            j.wf(),
            j@ == (Arrived { r: Seq::empty(), s: Seq::empty(), t: Seq::empty() }),
    {
        StreamingChainJoin {
            r_by_b: new_rows_map(),
            s_by_b: new_links_map(),
            s_by_c: new_links_map(),
            t_by_c: new_rows_map(),
            r_a_for_id: Vec::new(),
            n_s: 0,
            n_t: 0,
            n_emit: 0,
            arrived: Ghost(Arrived { r: Seq::empty(), s: Seq::empty(), t: Seq::empty() }),
        }
    }

    /// Total number of join answers emitted so far.
    pub fn n_emitted(&self) -> (n: u64)
        requires
            self.wf(),
        ensures
            n == answers(self@.r, self@.s, self@.t),
    {
        self.n_emit
    }

    /// New R-tuple `(a, b)` arrives. Returns the number of new join answers
    /// that it creates.
    pub fn arrive_r(&mut self, a: i64, b: i64) -> (new: u64)
        requires
            old(self).wf(),
            answers(old(self)@.r.push(b), old(self)@.s, old(self)@.t) <= u64::MAX,
        ensures
            final(self).wf(),
            final(self)@ == (Arrived { r: old(self)@.r.push(b), ..old(self)@ }),
            new == answers(final(self)@.r, final(self)@.s, final(self)@.t) - answers(
                old(self)@.r,
                old(self)@.s,
                old(self)@.t,
            ),
    {
        let ghost h = self.arrived@;
        proof {
            lemma_answers_r(h.r, b, h.s, h.t);
            assert(h.r.push(b).drop_last() =~= h.r);
        }
        let r_id: usize = self.r_a_for_id.len();
        let ghost before = maps::rows_map(self.r_by_b);
        self.r_a_for_id.push(a);
        rows_map_push(&mut self.r_by_b, b, r_id);
        assert forall|x: i64| #[trigger]
            maps::rows_at(maps::rows_map(self.r_by_b), x).len() == tally(h.r.push(b), x) by {
            assert(maps::rows_at(before, x).len() == tally(h.r, x));
        }
        let mut new: u64 = 0;
        let ghost all = links_from_b(h.s, b);
        if let Some(s_rows) = links_map_get(&self.s_by_b, b) {
            assert(maps::links_at(maps::links_map(self.s_by_b), b) == all);
            let mut x: usize = 0;
            while x < s_rows.len()
                invariant
                    x <= s_rows@.len(),
                    s_rows@ == all,
                    new == linked(all.take(x as int), h.t),
                    linked(all, h.t) <= u64::MAX,
                    forall|c: i64| #[trigger]
                        maps::rows_at(maps::rows_map(self.t_by_c), c).len() == tally(h.t, c),
                decreases s_rows.len() - x,
            {
                let c: i64 = s_rows[x].0;
                assert(all.take(x + 1).drop_last() =~= all.take(x as int));
                assert(maps::rows_at(maps::rows_map(self.t_by_c), c).len() == tally(h.t, c));
                proof {
                    lemma_linked_grows(all, h.t, x + 1);
                }
                if let Some(t_rows) = rows_map_get(&self.t_by_c, c) {
                    new = new + t_rows.len() as u64;
                }
                x += 1;
            }
            assert(all.take(x as int) =~= all);
        } else {
            assert(maps::links_at(maps::links_map(self.s_by_b), b) == all);
        }
        self.n_emit = self.n_emit + new;
        self.arrived = Ghost(Arrived { r: h.r.push(b), s: h.s, t: h.t });
        new
    }

    /// New S-tuple `(b, c)` arrives. Returns the number of new join answers
    /// that it creates.
    pub fn arrive_s(&mut self, b: i64, c: i64) -> (new: u64)
        requires
            old(self).wf(),
            old(self)@.s.len() < usize::MAX,
            answers(old(self)@.r, old(self)@.s.push((b, c)), old(self)@.t) <= u64::MAX,
        ensures
            final(self).wf(),
            final(self)@ == (Arrived { s: old(self)@.s.push((b, c)), ..old(self)@ }),
            new == answers(final(self)@.r, final(self)@.s, final(self)@.t) - answers(
                old(self)@.r,
                old(self)@.s,
                old(self)@.t,
            ),
    {
        let ghost h = self.arrived@;
        assert(h.s.push((b, c)).drop_last() =~= h.s);
        assert(maps::rows_at(maps::rows_map(self.r_by_b), b).len() == tally(h.r, b));
        assert(maps::rows_at(maps::rows_map(self.t_by_c), c).len() == tally(h.t, c));
        let s_id: usize = self.n_s;
        let ghost by_b = maps::links_map(self.s_by_b);
        let ghost by_c = maps::links_map(self.s_by_c);
        links_map_push(&mut self.s_by_b, b, (c, s_id));
        links_map_push(&mut self.s_by_c, c, (b, s_id));
        assert forall|x: i64| #[trigger]
            maps::links_at(maps::links_map(self.s_by_b), x) == links_from_b(h.s.push((b, c)), x) by {
            assert(maps::links_at(by_b, x) == links_from_b(h.s, x));
        }
        assert forall|x: i64| #[trigger]
            maps::links_at(maps::links_map(self.s_by_c), x) == links_from_c(h.s.push((b, c)), x) by {
            assert(maps::links_at(by_c, x) == links_from_c(h.s, x));
        }
        self.n_s = self.n_s + 1;
        let n_r: u64 = match rows_map_get(&self.r_by_b, b) {
            Some(rows) => rows.len() as u64,
            None => 0,
        };
        let n_t: u64 = match rows_map_get(&self.t_by_c, c) {
            Some(rows) => rows.len() as u64,
            None => 0,
        };
        let new: u64 = n_r * n_t;
        self.n_emit = self.n_emit + new;
        self.arrived = Ghost(Arrived { r: h.r, s: h.s.push((b, c)), t: h.t });
        new
    }

    /// New T-tuple `(c, d)` arrives. Returns the number of new join answers
    /// that it creates.
    pub fn arrive_t(&mut self, c: i64, _d: i64) -> (new: u64)
        requires
            old(self).wf(),
            old(self)@.t.len() < usize::MAX,
            answers(old(self)@.r, old(self)@.s, old(self)@.t.push(c)) <= u64::MAX,
        ensures
            final(self).wf(),
            final(self)@ == (Arrived { t: old(self)@.t.push(c), ..old(self)@ }),
            new == answers(final(self)@.r, final(self)@.s, final(self)@.t) - answers(
                old(self)@.r,
                old(self)@.s,
                old(self)@.t,
            ),
    {
        let ghost h = self.arrived@;
        proof {
            lemma_answers_t(h.r, h.s, h.t, c);
            assert(h.t.push(c).drop_last() =~= h.t);
        }
        let t_id: usize = self.n_t;
        let ghost before = maps::rows_map(self.t_by_c);
        rows_map_push(&mut self.t_by_c, c, t_id);
        assert forall|x: i64| #[trigger]
            maps::rows_at(maps::rows_map(self.t_by_c), x).len() == tally(h.t.push(c), x) by {
            assert(maps::rows_at(before, x).len() == tally(h.t, x));
        }
        self.n_t = self.n_t + 1;
        let mut new: u64 = 0;
        let ghost all = links_from_c(h.s, c);
        if let Some(s_rows) = links_map_get(&self.s_by_c, c) {
            assert(maps::links_at(maps::links_map(self.s_by_c), c) == all);
            let mut x: usize = 0;
            while x < s_rows.len()
                invariant
                    x <= s_rows@.len(),
                    s_rows@ == all,
                    new == linked(all.take(x as int), h.r),
                    linked(all, h.r) <= u64::MAX,
                    forall|b: i64| #[trigger]
                        maps::rows_at(maps::rows_map(self.r_by_b), b).len() == tally(h.r, b),
                decreases s_rows.len() - x,
            {
                let b: i64 = s_rows[x].0;
                assert(all.take(x + 1).drop_last() =~= all.take(x as int));
                assert(maps::rows_at(maps::rows_map(self.r_by_b), b).len() == tally(h.r, b));
                proof {
                    lemma_linked_grows(all, h.r, x + 1);
                }
                if let Some(r_rows) = rows_map_get(&self.r_by_b, b) {
                    new = new + r_rows.len() as u64;
                }
                x += 1;
            }
            assert(all.take(x as int) =~= all);
        } else {
            assert(maps::links_at(maps::links_map(self.s_by_c), c) == all);
        }
        self.n_emit = self.n_emit + new;
        self.arrived = Ghost(Arrived { r: h.r, s: h.s, t: h.t.push(c) });
        new
    }
}

impl Default for StreamingChainJoin {
    fn default() -> (j: Self)
        ensures
            j.wf(),
            j@ == (Arrived { r: Seq::empty(), s: Seq::empty(), t: Seq::empty() }),
    {
        StreamingChainJoin::new()
    }
}

proof fn lemma_linked_grows(links: Seq<(i64, usize)>, keys: Seq<i64>, n: int)
    requires
        0 <= n <= links.len(),
    ensures
        linked(links.take(n), keys) <= linked(links, keys),
    decreases links.len(),
{
    if n == links.len() {
        assert(links.take(n) =~= links);
    } else {
        assert(links.drop_last().take(n) =~= links.take(n));
        lemma_linked_grows(links.drop_last(), keys, n);
    }
}

/// A new row of `R` adds the answers of the rows of `S` that link to it.
proof fn lemma_answers_r(r: Seq<i64>, b: i64, s: Seq<(i64, i64)>, t: Seq<i64>)
    ensures
        answers(r.push(b), s, t) == answers(r, s, t) + linked(links_from_b(s, b), t),
    decreases s.len(),
{
    if s.len() > 0 {
        let x = s.last();
        lemma_answers_r(r, b, s.drop_last(), t);
        assert(r.push(b).drop_last() =~= r);
        let l = links_from_b(s.drop_last(), b);
        if x.0 == b {
            assert(links_from_b(s, b).drop_last() =~= l);
            let n = tally(r, x.0);
            let m = tally(t, x.1);
            assert((n + 1) * m == n * m + m) by (nonlinear_arith);
        }
    }
}

/// A new row of `T` adds the answers of the rows of `S` that link to it.
proof fn lemma_answers_t(r: Seq<i64>, s: Seq<(i64, i64)>, t: Seq<i64>, c: i64)
    ensures
        answers(r, s, t.push(c)) == answers(r, s, t) + linked(links_from_c(s, c), r),
    decreases s.len(),
{
    if s.len() > 0 {
        let x = s.last();
        lemma_answers_t(r, s.drop_last(), t, c);
        assert(t.push(c).drop_last() =~= t);
        let l = links_from_c(s.drop_last(), c);
        if x.1 == c {
            assert(links_from_c(s, c).drop_last() =~= l);
            let n = tally(r, x.0);
            let m = tally(t, x.1);
            assert(n * (m + 1) == n * m + n) by (nonlinear_arith);
        }
    }
}

proof fn lemma_tally(s: Seq<i64>, key: i64)
    ensures
        tally(s, key) == s.to_multiset().count(key),
    decreases s.len(),
{
    broadcast use vstd::seq_lib::group_to_multiset_ensures;

    if s.len() > 0 {
        lemma_tally(s.drop_last(), key);
        assert(s =~= s.drop_last().push(s.last()));
    }
}

/// Taking one row out of `S` takes its answers out.
proof fn lemma_answers_remove(r: Seq<i64>, s: Seq<(i64, i64)>, t: Seq<i64>, i: int)
    requires
        0 <= i < s.len(),
    ensures
        answers(r, s, t) == answers(r, s.remove(i), t) + tally(r, s[i].0) * tally(t, s[i].1),
    decreases s.len(),
{
    if i == s.len() - 1 {
        assert(s.remove(i) =~= s.drop_last());
    } else {
        lemma_answers_remove(r, s.drop_last(), t, i);
        assert(s.remove(i).drop_last() =~= s.drop_last().remove(i));
        assert(s.remove(i).last() == s.last());
    }
}

/// The order of arrival does not change the total: it depends on which
/// rows arrived, and how often, alone.
pub proof fn arrival_order_does_not_change_the_total(x: Arrived, y: Arrived)
    requires
        x.r.to_multiset() == y.r.to_multiset(),
        x.s.to_multiset() == y.s.to_multiset(),
        x.t.to_multiset() == y.t.to_multiset(),
    ensures
        answers(x.r, x.s, x.t) == answers(y.r, y.s, y.t),
    decreases x.s.len(),
{
    broadcast use vstd::seq_lib::group_to_multiset_ensures;

    assert(x.s.len() == x.s.to_multiset().len());
    assert(y.s.len() == y.s.to_multiset().len());
    if x.s.len() > 0 {
        let last = x.s.last();
        assert(x.s.contains(last));
        assert(y.s.to_multiset().contains(last));
        let i = y.s.index_of(last);
        lemma_answers_remove(y.r, y.s, y.t, i);
        lemma_tally(x.r, last.0);
        lemma_tally(y.r, last.0);
        lemma_tally(x.t, last.1);
        lemma_tally(y.t, last.1);
        assert(x.s =~= x.s.drop_last().push(last));
        assert(y.s.remove(i).to_multiset() =~= y.s.to_multiset().remove(last));
        assert(x.s.drop_last().to_multiset() =~= y.s.remove(i).to_multiset());
        arrival_order_does_not_change_the_total(
            Arrived { s: x.s.drop_last(), ..x },
            Arrived { s: y.s.remove(i), ..y },
        );
    }
}

/// Where every row of all three relations carries the same keys, every
/// triple is an answer.
pub proof fn equal_keys_join_in_full(x: Arrived, b: i64, c: i64)
    requires
        forall|i: int| 0 <= i < x.r.len() ==> x.r[i] == b,
        forall|i: int| 0 <= i < x.s.len() ==> x.s[i] == (b, c),
        forall|i: int| 0 <= i < x.t.len() ==> x.t[i] == c,
    ensures
        answers(x.r, x.s, x.t) == x.r.len() * x.s.len() * x.t.len(),
    decreases x.s.len(),
{
    lemma_tally_all(x.r, b);
    lemma_tally_all(x.t, c);
    let (n, m, k) = (x.r.len(), x.s.len(), x.t.len());
    if m > 0 {
        equal_keys_join_in_full(Arrived { s: x.s.drop_last(), ..x }, b, c);
        assert(x.s.last() == (b, c));
        assert(n * ((m - 1) as nat) * k + n * k == n * m * k) by (nonlinear_arith)
            requires
                m > 0,
        ;
    } else {
        assert(n * m * k == 0) by (nonlinear_arith)
            requires
                m == 0,
        ;
    }
}

proof fn lemma_tally_all(s: Seq<i64>, key: i64)
    requires
        forall|i: int| 0 <= i < s.len() ==> s[i] == key,
    ensures
        tally(s, key) == s.len(),
    decreases s.len(),
{
    if s.len() > 0 {
        lemma_tally_all(s.drop_last(), key);
    }
}

proof fn lemma_tally_push(s: Seq<i64>, x: i64, key: i64)
    ensures
        tally(s.push(x), key) == tally(s, key) + if x == key {
            1nat
        } else {
            0
        },
{
    assert(s.push(x).drop_last() =~= s);
}

/// One more row of `R` or of `T` brings one answer for each pair of rows of
/// the other two that it meets.
pub proof fn one_more_row_brings_its_pairs(
    r: Seq<i64>,
    s: Seq<(i64, i64)>,
    t: Seq<i64>,
    x: i64,
)
    ensures
        answers(r.push(x), s, t) == answers(r, s, t) + answers(seq![x], s, t),
        answers(r, s, t.push(x)) == answers(r, s, t) + answers(r, s, seq![x]),
    decreases s.len(),
{
    if s.len() > 0 {
        one_more_row_brings_its_pairs(r, s.drop_last(), t, x);
        let (b, c) = s.last();
        lemma_tally_push(r, x, b);
        lemma_tally_push(t, x, c);
        lemma_tally_push(Seq::empty(), x, b);
        lemma_tally_push(Seq::empty(), x, c);
        assert(Seq::<i64>::empty().push(x) =~= seq![x]);
        let (m, n) = (tally(r, b), tally(t, c));
        assert((m + 1) * n == m * n + 1 * n) by (nonlinear_arith);
        assert(m * (n + 1) == m * n + m * 1) by (nonlinear_arith);
        assert(0 * n == 0 && m * 0 == 0) by (nonlinear_arith);
        assert((m + 0) * n == m * n + 0 * n) by (nonlinear_arith);
        assert(m * (n + 0) == m * n + m * 0) by (nonlinear_arith);
    }
}

} // verus!

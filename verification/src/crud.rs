//! Incremental maintenance of the attention output for a fixed query.
//!
//! The state is the largest score with a numerator and a denominator
//! shifted by it. An insert adds to it and a delete subtracts from it, so
//! neither walks the memory; only when the largest score may have left is
//! the state computed anew from the records that are left.

use vstd::prelude::*;

use crate::arith;
use crate::arith::{apply_op, max, Op};
use crate::bits;
use crate::bits::{eq, is_finite, lt, neg};
use crate::distributed;
use crate::distributed::{heft_of, ratio, share_of};
use crate::error;
use crate::error::BruceError;
use crate::fold::copied;
use crate::maps;
use crate::maps::{
    live_map_has, live_map_insert, live_map_len, live_map_remove, live_map_values, new_live_map,
};
use crate::matrix;
use crate::matrix::zero_row;
use crate::operator;
use crate::operator::{similarity_of, Measure};
use crate::text::owned;
use crate::tree;
use crate::tree::add_scaled;
use crate::types::{Eps, Sim};

verus! {

/// The pattern of `1e-12`.
pub const NEAR: u64 = 0x3D71_9799_812D_EA11;

/// The pattern of `-1`.
pub const MINUS_ONE: u64 = 0xBFF0_0000_0000_0000;

/// The accumulator: largest score, shifted numerator and denominator.
#[derive(Clone, Debug)]
pub struct IncrementalState {
    /// Running maximum of the scores.
    pub m: u64,
    /// The weighted sum of values.
    pub num: Vec<u64>,
    /// The sum of weights.
    pub den: u64,
    /// Dimension of the value vectors.
    pub d_v: usize,
}

/// An accumulator as a mathematical value.
#[verifier::ext_equal]
pub struct State {
    pub m: u64,
    pub num: Seq<u64>,
    pub den: u64,
}

impl View for IncrementalState {
    type V = State;

    open spec fn view(&self) -> State {
        State { m: self.m, num: self.num@, den: self.den }
    }
}

/// The accumulator of no record.
pub open spec fn blank(d: nat) -> State {
    State { m: bits::NEG_INF, num: matrix::zeros(d), den: arith::ZERO }
}

/// The output of an accumulator: zeros where the denominator is not
/// positive.
pub open spec fn answer(k: arith::Calc, s: State) -> Seq<u64> {
    distributed::outcome(k, distributed::Triple { m: 0, num: s.num, den: s.den })
}

impl IncrementalState {
    /// An empty accumulator.
    pub fn empty(d_v: usize) -> (s: IncrementalState)
        ensures
            s@ == blank(d_v as nat),
            s.d_v == d_v,
    {
        IncrementalState { m: bits::NEG_INF, num: zero_row(d_v), den: arith::ZERO, d_v }
    }

    /// The current attention output; zeros if the memory is empty.
    pub fn output<F: Fn(Op, u64, u64) -> u64>(&self, f: &F) -> (r: Vec<u64>)
        requires
            arith::steady(*f),
        ensures
            r@ == answer(arith::computes(*f), self@),
    {
        ratio(&self.num, self.den, f)
    }
}

/// Every component times `w`.
pub open spec fn times_all(k: arith::Calc, v: Seq<u64>, w: u64) -> Seq<u64> {
    Seq::new(v.len(), |c: int| k(Op::Times, v[c], w))
}

fn scale_all<F: Fn(Op, u64, u64) -> u64>(v: &Vec<u64>, w: u64, f: &F) -> (r: Vec<u64>)
    requires
        arith::steady(*f),
    ensures
        r@ == times_all(arith::computes(*f), v@, w),
{
    let ghost k = arith::computes(*f);
    let ghost want = times_all(k, v@, w);
    let mut r: Vec<u64> = Vec::new();
    let mut c: usize = 0;
    while c < v.len()
        invariant
            c <= v@.len(),
            arith::steady(*f),
            k == arith::computes(*f),
            want == times_all(k, v@, w),
            r@ == want.take(c as int),
        decreases v.len() - c,
    {
        r.push(apply_op(f, Op::Times, v[c], w));
        c += 1;
        assert(r@ =~= want.take(c as int));
    }
    assert(r@ =~= want);
    r
}

/// The accumulator with one more record, away from the tropical limit.
pub open spec fn joined(k: arith::Calc, a: State, s: u64, v: Seq<u64>, eps: Eps) -> State {
    let b = if bits::num_lt(a.m, s) {
        if bits::finite(a.m) {
            let w = distributed::heft(k, a.m, s, eps);
            State { m: s, num: times_all(k, a.num, w), den: k(Op::Times, a.den, w) }
        } else {
            State { m: s, ..a }
        }
    } else {
        a
    };
    let w = distributed::heft(k, s, b.m, eps);
    State { m: b.m, num: tree::scaled_add(k, b.num, w, v), den: k(Op::Plus, b.den, w) }
}

/// The accumulator with one more record in the tropical limit: a new
/// maximum starts over, an equal one joins, a lower one changes nothing.
pub open spec fn joined_tropical(k: arith::Calc, a: State, s: u64, v: Seq<u64>) -> State {
    let b = if bits::num_lt(a.m, s) {
        State { m: s, num: matrix::zeros(a.num.len()), den: arith::ZERO }
    } else {
        a
    };
    if bits::num_eq(s, b.m) {
        State {
            m: b.m,
            num: tree::scaled_add(k, b.num, arith::ONE, v),
            den: k(Op::Plus, b.den, arith::ONE),
        }
    } else {
        b
    }
}

/// A record with this score counts: a key that does not match, which scores
/// minus infinity, does not, except in the uniform limit, where every record
/// has weight 1; and in the tropical limit only finite scores do.
pub open spec fn counts(s: u64, eps: Eps) -> bool {
    if eps.tropical() {
        bits::finite(s)
    } else {
        eps.uniform() || s != bits::NEG_INF
    }
}

fn is_counted(s: u64, eps: Eps) -> (r: bool)
    ensures
        r == counts(s, eps),
{
    if eps.is_zero() {
        is_finite(s)
    } else {
        eps.is_inf() || s != bits::NEG_INF
    }
}

/// The accumulator with one more record.
pub open spec fn state_with(k: arith::Calc, a: State, s: u64, v: Seq<u64>, eps: Eps) -> State {
    if !counts(s, eps) {
        a
    } else if eps.tropical() {
        joined_tropical(k, a, s, v)
    } else {
        joined(k, a, s, v, eps)
    }
}

/// The scores of entries.
pub open spec fn scores_of(e: Seq<(u64, Seq<u64>)>) -> Seq<u64> {
    Seq::new(e.len(), |i: int| e[i].0)
}

/// The values of entries.
pub open spec fn values_of(e: Seq<(u64, Seq<u64>)>) -> Seq<Seq<u64>> {
    Seq::new(e.len(), |i: int| e[i].1)
}

/// The entries that count, in order.
pub open spec fn counting(e: Seq<(u64, Seq<u64>)>, eps: Eps) -> Seq<(u64, Seq<u64>)> {
    e.filter(|r: (u64, Seq<u64>)| counts(r.0, eps))
}

/// The accumulator computed anew from those of the entries that count, in
/// order.
pub open spec fn recomputed(
    k: arith::Calc,
    e: Seq<(u64, Seq<u64>)>,
    d: nat,
    eps: Eps,
) -> State {
    settled(k, counting(e, eps), d, eps)
}

/// The accumulator of entries that all count, in order.
pub open spec fn settled(
    k: arith::Calc,
    e: Seq<(u64, Seq<u64>)>,
    d: nat,
    eps: Eps,
) -> State {
    if e.len() == 0 {
        blank(d)
    } else {
        let m = crate::semiring::peak(scores_of(e));
        let t = distributed::summed(k, scores_of(e), values_of(e), m, d, eps);
        State { m, num: t.num, den: t.den }
    }
}

/// The accumulator after a record was taken out, before any recomputation.
pub open spec fn parted(k: arith::Calc, a: State, s: u64, v: Seq<u64>, eps: Eps) -> State {
    if !counts(s, eps) {
        a
    } else if eps.tropical() {
        if bits::num_eq(s, a.m) {
            State {
                m: a.m,
                num: tree::scaled_add(k, a.num, MINUS_ONE, v),
                den: k(Op::Minus, a.den, arith::ONE),
            }
        } else {
            a
        }
    } else {
        let w = distributed::heft(k, s, a.m, eps);
        State {
            m: a.m,
            num: tree::scaled_add(k, a.num, bits::negated(w), v),
            den: k(Op::Minus, a.den, w),
        }
    }
}

/// True where taking a record out may have left the maximum stale: it was
/// the last at the maximum in the tropical limit, or within reach of the
/// maximum elsewhere.
pub open spec fn goes_stale(k: arith::Calc, a: State, s: u64, v: Seq<u64>, eps: Eps) -> bool {
    if !counts(s, eps) {
        false
    } else if eps.tropical() {
        bits::num_eq(s, a.m) && bits::num_eq(parted(k, a, s, v, eps).den, arith::ZERO)
    } else {
        let t = k(Op::Minus, a.m, NEAR);
        bits::num_lt(t, s) || bits::num_eq(s, t)
    }
}

/// What counts of entries of one width has that width.
pub proof fn lemma_counting_width(e: Seq<(u64, Seq<u64>)>, d: nat, eps: Eps)
    requires
        forall|i: int| 0 <= i < e.len() ==> (#[trigger] e[i]).1.len() == d,
    ensures
        forall|i: int| 0 <= i < counting(e, eps).len() ==> (#[trigger] counting(e, eps)[i]).1.len() == d,
    decreases e.len(),
{
    reveal(Seq::filter);
    if e.len() > 0 {
        let f = e.drop_last();
        assert forall|i: int| 0 <= i < f.len() implies (#[trigger] f[i]).1.len() == d by {
            assert(f[i] == e[i]);
        }
        lemma_counting_width(f, d, eps);
        assert(e.last() == e[e.len() - 1]);
        let (g, h) = (counting(f, eps), counting(e, eps));
        assert forall|i: int| 0 <= i < h.len() implies (#[trigger] h[i]).1.len() == d by {
            if i < g.len() {
                assert(h[i] == g[i]);
            }
        }
    }
}

/// The entries that count.
fn counting_of(entries: Vec<(u64, Vec<u64>)>, eps: Eps) -> (r: Vec<(u64, Vec<u64>)>)
    ensures
        maps::entries_view(r@) == counting(maps::entries_view(entries@), eps),
{
    let ghost e = maps::entries_view(entries@);
    let mut r: Vec<(u64, Vec<u64>)> = Vec::new();
    let mut i: usize = 0;
    proof {
        reveal(Seq::filter);
        assert(maps::entries_view(r@) =~= counting(e.take(0), eps));
    }
    while i < entries.len()
        invariant
            i <= entries@.len(),
            e == maps::entries_view(entries@),
            maps::entries_view(r@) == counting(e.take(i as int), eps),
        decreases entries.len() - i,
    {
        let ghost before = maps::entries_view(r@);
        proof {
            reveal(Seq::filter);
            assert(e.take(i + 1).drop_last() =~= e.take(i as int));
            assert(e[i as int] == maps::entry_view(entries@[i as int]));
        }
        if is_counted(entries[i].0, eps) {
            r.push((entries[i].0, copied(entries[i].1.as_slice())));
            assert(maps::entries_view(r@) =~= before.push(e[i as int]));
        }
        i += 1;
    }
    assert(e.take(i as int) =~= e);
    r
}

/// Incrementally maintained attention output for a fixed query.
#[derive(Debug)]
pub struct IncrementalMemory {
    x_len: usize,
    eps: Eps,
    sim: Sim,
    state: IncrementalState,
    live: ahash::AHashMap<String, (u64, Vec<u64>)>,
    n_ops: u64,
    n_rescales: u64,
}

/// The memory as a mathematical value.
pub struct Memory {
    /// The length of the query.
    pub x_len: nat,
    /// The temperature.
    pub eps: Eps,
    /// The similarity.
    pub sim: Sim,
    /// The width of the values.
    pub d_v: nat,
    /// The accumulator.
    pub state: State,
    /// The records: score and value of each key.
    pub live: Map<Seq<char>, (u64, Seq<u64>)>,
    /// How many operations were carried out.
    pub n_ops: nat,
    /// How often the state was computed anew.
    pub n_rescales: nat,
}

impl View for IncrementalMemory {
    type V = Memory;

    closed spec fn view(&self) -> Memory {
        Memory {
            x_len: self.x_len as nat,
            eps: self.eps,
            sim: self.sim,
            d_v: self.state.d_v as nat,
            state: self.state@,
            live: maps::live_map(self.live),
            n_ops: self.n_ops as nat,
            n_rescales: self.n_rescales as nat,
        }
    }
}

impl Memory {
    /// Values are as wide as they should be.
    pub open spec fn wf(self) -> bool {
        &&& self.state.num.len() == self.d_v
        &&& forall|key: Seq<char>| #[trigger]
            self.live.contains_key(key) ==> self.live[key].1.len() == self.d_v
    }

    /// One more operation can be counted.
    pub open spec fn countable(self) -> bool {
        self.n_ops < u64::MAX && self.n_rescales < u64::MAX
    }
}

/// The outcome of an insert: what is wrong, if anything.
pub open spec fn insert_error(a: Memory, key: Seq<char>, k_len: nat, v_len: nat) -> Option<
    error::BruceErrorView,
> {
    if k_len != a.x_len {
        Some(error::BruceErrorView::DimensionMismatch(a.x_len, k_len))
    } else if v_len != a.d_v {
        Some(error::BruceErrorView::DimensionMismatch(a.d_v, v_len))
    } else if a.live.contains_key(key) {
        Some(error::BruceErrorView::DuplicateKey(key))
    } else {
        None
    }
}

/// The memory after an insert.
pub open spec fn inserted(k: arith::Calc, a: Memory, key: Seq<char>, s: u64, v: Seq<u64>) -> Memory {
    Memory {
        state: state_with(k, a.state, s, v, a.eps),
        live: a.live.insert(key, (s, v)),
        n_ops: a.n_ops + 1,
        ..a
    }
}

/// `b` is the memory after a delete of a record that is there: the record
/// subtracted, or, where that may have left the maximum stale, the state
/// computed anew from the records that are left.
pub open spec fn deleted(k: arith::Calc, a: Memory, key: Seq<char>, b: Memory) -> bool {
    let (s, v) = a.live[key];
    let live = a.live.remove(key);
    if goes_stale(k, a.state, s, v, a.eps) {
        exists|e: Seq<(u64, Seq<u64>)>| #[trigger]
            maps::lists(live, e) && b == (Memory {
                state: recomputed(k, e, a.d_v, a.eps),
                live,
                n_ops: a.n_ops + 1,
                n_rescales: a.n_rescales + 1,
                ..a
            })
    } else {
        b == (Memory {
            state: parted(k, a.state, s, v, a.eps),
            live,
            n_ops: a.n_ops + 1,
            ..a
        })
    }
}

impl IncrementalMemory {
    /// A new memory for a query of `x_len` numbers and values of `d_v`.
    pub fn new(x_len: usize, eps: Eps, d_v: usize, sim: Sim) -> (r: IncrementalMemory)
        ensures
            r@.wf(),
            r@ == (Memory {
                x_len: x_len as nat,
                eps,
                sim,
                d_v: d_v as nat,
                state: blank(d_v as nat),
                live: Map::empty(),
                n_ops: 0,
                n_rescales: 0,
            }),
    {
        let r = IncrementalMemory {
            x_len,
            eps,
            sim,
            state: IncrementalState::empty(d_v),
            live: new_live_map(),
            n_ops: 0,
            n_rescales: 0,
        };
        assert(maps::live_map(r.live) =~= Map::<Seq<char>, (u64, Seq<u64>)>::empty());
        r
    }

    /// Number of live records.
    pub fn len(&self) -> (n: usize)
        ensures
            n == self@.live.dom().len(),
    {
        live_map_len(&self.live)
    }

    /// Is the memory empty?
    pub fn is_empty(&self) -> (r: bool)
        ensures
            r == (self@.live.dom() == Set::<Seq<char>>::empty()),
    {
        live_map_len(&self.live) == 0
    }

    /// The current output.
    pub fn output<F: Fn(Op, u64, u64) -> u64>(&self, f: &F) -> (r: Vec<u64>)
        requires
            arith::steady(*f),
        ensures
            r@ == answer(arith::computes(*f), self@.state),
    {
        self.state.output(f)
    }

    /// How often the state was computed anew.
    pub fn n_rescales(&self) -> (n: u64)
        ensures
            n == self@.n_rescales,
    {
        self.n_rescales
    }

    /// True where one more operation can be counted.
    pub fn has_room(&self) -> (r: bool)
        ensures
            r == self@.countable(),
    {
        self.n_ops < u64::MAX && self.n_rescales < u64::MAX
    }

    /// The score of a key that `measure` compares with the query.
    pub fn score<M: Fn(Measure, usize) -> u64, F: Fn(Op, u64, u64) -> u64>(
        &self,
        measure: &M,
        f: &F,
    ) -> (s: u64)
        requires
            operator::steady_measures(*measure, 1),
            arith::steady(*f),
        ensures
            s == operator::similarity(
                arith::computes(*f),
                operator::measures(*measure),
                self@.sim,
                0,
            ),
    {
        similarity_of(self.sim, 0, measure, f)
    }

    fn join<F: Fn(Op, u64, u64) -> u64>(&mut self, s: u64, v: &[u64], f: &F)
        requires
            arith::steady(*f),
            old(self)@.wf(),
            v@.len() == old(self)@.d_v,
            !old(self)@.eps.tropical(),
        ensures
            final(self)@ == (Memory {
                state: joined(arith::computes(*f), old(self)@.state, s, v@, old(self)@.eps),
                ..old(self)@
            }),
            final(self).live == old(self).live,
    {
        if lt(self.state.m, s) {
            if is_finite(self.state.m) {
                let w: u64 = heft_of(self.state.m, s, self.eps, f);
                self.state.num = scale_all(&self.state.num, w, f);
                self.state.den = apply_op(f, Op::Times, self.state.den, w);
            }
            self.state.m = s;
        }
        let w: u64 = heft_of(s, self.state.m, self.eps, f);
        self.state.num = add_scaled(&self.state.num, w, v, f);
        self.state.den = apply_op(f, Op::Plus, self.state.den, w);
    }

    fn join_tropical<F: Fn(Op, u64, u64) -> u64>(&mut self, s: u64, v: &[u64], f: &F)
        requires
            arith::steady(*f),
            old(self)@.wf(),
            v@.len() == old(self)@.d_v,
        ensures
            final(self)@ == (Memory {
                state: joined_tropical(arith::computes(*f), old(self)@.state, s, v@),
                ..old(self)@
            }),
            final(self).live == old(self).live,
    {
        if lt(self.state.m, s) {
            self.state.num = zero_row(self.state.d_v);
            self.state.den = arith::ZERO;
            self.state.m = s;
        }
        if eq(s, self.state.m) {
            self.state.num = add_scaled(&self.state.num, arith::ONE, v, f);
            self.state.den = apply_op(f, Op::Plus, self.state.den, arith::ONE);
        }
    }

    /// Insert a new record, identified by `key_id`. `k_len` is the length of
    /// its key, which `measure` compares with the query.
    pub fn insert<M: Fn(Measure, usize) -> u64, F: Fn(Op, u64, u64) -> u64>(
        &mut self,
        key_id: &str,
        k_len: usize,
        v: &[u64],
        measure: &M,
        f: &F,
    ) -> (r: Result<(), BruceError>)
        requires
            k_len == old(self)@.x_len ==> operator::steady_measures(*measure, 1),
            arith::steady(*f),
            old(self)@.wf(),
            old(self)@.countable(),
        ensures
            final(self)@.wf(),
            match insert_error(old(self)@, key_id@, k_len as nat, v@.len()) {
                Some(e) => error::fails(r, e) && final(self)@ == old(self)@,
                None => r is Ok && final(self)@ == inserted(
                    arith::computes(*f),
                    old(self)@,
                    key_id@,
                    operator::similarity(
                        arith::computes(*f),
                        operator::measures(*measure),
                        old(self)@.sim,
                        0,
                    ),
                    v@,
                ),
            },
    {
        if k_len != self.x_len {
            return Err(BruceError::DimensionMismatch { expected: self.x_len, got: k_len });
        }
        if v.len() != self.state.d_v {
            return Err(BruceError::DimensionMismatch { expected: self.state.d_v, got: v.len() });
        }
        if live_map_has(&self.live, key_id) {
            return Err(BruceError::DuplicateKey(owned(key_id)));
        }
        let s: u64 = self.score(measure, f);
        if is_counted(s, self.eps) {
            if self.eps.is_zero() {
                self.join_tropical(s, v, f);
            } else {
                self.join(s, v, f);
            }
        }
        live_map_insert(&mut self.live, owned(key_id), (s, copied(v)));
        self.n_ops = self.n_ops + 1;
        Ok(())
    }

    /// The state computed anew from the live records.
    fn rescale<F: Fn(Op, u64, u64) -> u64>(&mut self, f: &F)
        requires
            arith::steady(*f),
            old(self)@.wf(),
            old(self)@.n_rescales < u64::MAX,
        ensures
            final(self).live == old(self).live,
            exists|e: Seq<(u64, Seq<u64>)>| #[trigger]
                maps::lists(old(self)@.live, e) && final(self)@ == (Memory {
                    state: recomputed(
                        arith::computes(*f),
                        e,
                        old(self)@.d_v,
                        old(self)@.eps,
                    ),
                    n_rescales: old(self)@.n_rescales + 1,
                    ..old(self)@
                }),
    {
        let ghost k = arith::computes(*f);
        self.n_rescales = self.n_rescales + 1;
        let d: usize = self.state.d_v;
        let eps = self.eps;
        let all = live_map_values(&self.live);
        let ghost listed = maps::entries_view(all@);
        let entries = counting_of(all, eps);
        let ghost e = maps::entries_view(entries@);
        proof {
            let keys = choose|keys: Seq<Seq<char>>| maps::listed(self@.live, keys, listed);
            assert forall|i: int| 0 <= i < listed.len() implies (#[trigger] listed[i]).1.len()
                == d by {
                assert(listed[i] == self@.live[keys[i]]);
                assert(keys.contains(keys[i]));
                assert(old(self)@.live.contains_key(keys[i]));
            }
            lemma_counting_width(listed, d as nat, eps);
            assert forall|i: int| 0 <= i < entries@.len() implies (#[trigger] entries@[i]).1@.len()
                == d by {
                assert(e[i] == maps::entry_view(entries@[i]));
                assert(e[i].1.len() == d);
            }
        }
        if entries.len() == 0 {
            self.state.m = bits::NEG_INF;
            self.state.num = zero_row(d);
            self.state.den = arith::ZERO;
            assert(e.len() == 0);
            assert(self@.state =~= recomputed(k, listed, d as nat, eps));
            assert(maps::lists(old(self)@.live, listed));
            return ;
        }
        let ghost ss = scores_of(e);
        let ghost vs = values_of(e);
        let mut m: u64 = bits::NEG_INF;
        let mut i: usize = 0;
        while i < entries.len()
            invariant
                i <= entries@.len(),
                e == maps::entries_view(entries@),
                ss == scores_of(e),
                m == crate::semiring::peak(ss.take(i as int)),
            decreases entries.len() - i,
        {
            assert(ss.take(i + 1).drop_last() =~= ss.take(i as int));
            assert(ss[i as int] == entries@[i as int].0);
            m = max(m, entries[i].0);
            i += 1;
        }
        assert(ss.take(i as int) =~= ss);
        let mut num = zero_row(d);
        let mut den: u64 = arith::ZERO;
        let mut j: usize = 0;
        while j < entries.len()
            invariant
                j <= entries@.len(),
                e == maps::entries_view(entries@),
                ss == scores_of(e),
                vs == values_of(e),
                arith::steady(*f),
                k == arith::computes(*f),
                forall|x: int|
                    0 <= x < entries@.len() ==> (#[trigger] entries@[x]).1@.len() == d,
                num@.len() == d,
                (distributed::Triple { m, num: num@, den }) == distributed::summed(
                    k,
                    ss.take(j as int),
                    vs,
                    m,
                    d as nat,
                    eps,
                ),
            decreases entries.len() - j,
        {
            assert(ss.take(j + 1).drop_last() =~= ss.take(j as int));
            assert(entries@[j as int].1@.len() == d);
            assert(ss[j as int] == entries@[j as int].0);
            assert(vs[j as int] == entries@[j as int].1@);
            if let Some(w) = share_of(entries[j].0, m, eps, f) {
                num = add_scaled(&num, w, entries[j].1.as_slice(), f);
                den = apply_op(f, Op::Plus, den, w);
            }
            j += 1;
        }
        assert(ss.take(j as int) =~= ss);
        self.state.m = m;
        self.state.num = num;
        self.state.den = den;
        assert(e.len() == entries@.len());
        assert(self@.state =~= recomputed(k, listed, d as nat, eps));
        assert(maps::lists(old(self)@.live, listed));
    }

    /// Delete a record. Its share is subtracted; where it may have been the
    /// last at the maximum, the state is computed anew.
    pub fn delete<F: Fn(Op, u64, u64) -> u64>(&mut self, key_id: &str, f: &F) -> (r: Result<
        (),
        BruceError,
    >)
        requires
            arith::steady(*f),
            old(self)@.wf(),
            old(self)@.countable(),
        ensures
            final(self)@.wf(),
            if old(self)@.live.contains_key(key_id@) {
                r is Ok && deleted(arith::computes(*f), old(self)@, key_id@, final(self)@)
            } else {
                error::fails(r, error::BruceErrorView::KeyNotFound(key_id@)) && final(self)@
                    == old(self)@
            },
    {
        let ghost k = arith::computes(*f);
        let ghost a = self@;
        let taken = live_map_remove(&mut self.live, key_id);
        match taken {
            None => {
                assert(self@.live =~= a.live);
                Err(BruceError::KeyNotFound(owned(key_id)))
            },
            Some(e) => {
                let s: u64 = e.0;
                let v = e.1;
                assert(a.live[key_id@] == (s, v@));
                assert(v@.len() == a.d_v);
                let stale: bool;
                if !is_counted(s, self.eps) {
                    stale = false;
                } else if self.eps.is_zero() {
                    if eq(s, self.state.m) {
                        self.state.num = add_scaled(
                            &self.state.num,
                            MINUS_ONE,
                            v.as_slice(),
                            f,
                        );
                        self.state.den = apply_op(f, Op::Minus, self.state.den, arith::ONE);
                        stale = eq(self.state.den, arith::ZERO);
                    } else {
                        stale = false;
                    }
                } else {
                    let w: u64 = heft_of(s, self.state.m, self.eps, f);
                    let t: u64 = apply_op(f, Op::Minus, self.state.m, NEAR);
                    self.state.num = add_scaled(&self.state.num, neg(w), v.as_slice(), f);
                    self.state.den = apply_op(f, Op::Minus, self.state.den, w);
                    stale = lt(t, s) || eq(s, t);
                }
                assert(stale == goes_stale(k, a.state, s, v@, a.eps));
                if stale {
                    self.rescale(f);
                }
                proof {
                    if stale {
                        let live = a.live.remove(key_id@);
                        let e = choose|e: Seq<(u64, Seq<u64>)>| #[trigger]
                            maps::lists(live, e) && self@.state == recomputed(k, e, a.d_v, a.eps);
                        lemma_recomputed_width(k, live, e, a.d_v, a.eps);
                    }
                }
                self.n_ops = self.n_ops + 1;
                Ok(())
            },
        }
    }

    /// Replace a record: a delete and an insert.
    pub fn update<M: Fn(Measure, usize) -> u64, F: Fn(Op, u64, u64) -> u64>(
        &mut self,
        key_id: &str,
        k_len: usize,
        v: &[u64],
        measure: &M,
        f: &F,
    ) -> (r: Result<(), BruceError>)
        requires
            k_len == old(self)@.x_len ==> operator::steady_measures(*measure, 1),
            arith::steady(*f),
            old(self)@.wf(),
            old(self)@.countable(),
            old(self)@.n_ops + 1 < u64::MAX,
            old(self)@.n_rescales + 1 < u64::MAX,
        ensures
            final(self)@.wf(),
            if old(self)@.live.contains_key(key_id@) {
                exists|mid: Memory| #[trigger]
                    deleted(arith::computes(*f), old(self)@, key_id@, mid) && (match insert_error(
                        mid,
                        key_id@,
                        k_len as nat,
                        v@.len(),
                    ) {
                        Some(e) => error::fails(r, e) && final(self)@ == mid,
                        None => r is Ok && final(self)@ == inserted(
                            arith::computes(*f),
                            mid,
                            key_id@,
                            operator::similarity(
                                arith::computes(*f),
                                operator::measures(*measure),
                                old(self)@.sim,
                                0,
                            ),
                            v@,
                        ),
                    })
            } else {
                error::fails(r, error::BruceErrorView::KeyNotFound(key_id@)) && final(self)@
                    == old(self)@
            },
    {
        self.delete(key_id, f)?;
        let ghost mid = self@;
        assert(deleted(arith::computes(*f), old(self)@, key_id@, mid));
        self.insert(key_id, k_len, v, measure, f)
    }
}

proof fn lemma_recomputed_width(
    k: arith::Calc,
    live: Map<Seq<char>, (u64, Seq<u64>)>,
    e: Seq<(u64, Seq<u64>)>,
    d: nat,
    eps: Eps,
)
    ensures
        recomputed(k, e, d, eps).num.len() == d,
{
    let g = counting(e, eps);
    if g.len() > 0 {
        lemma_summed_width(
            k,
            scores_of(g),
            values_of(g),
            crate::semiring::peak(scores_of(g)),
            d,
            eps,
        );
    }
}

proof fn lemma_summed_width(
    k: arith::Calc,
    s: Seq<u64>,
    v: Seq<Seq<u64>>,
    m: u64,
    d: nat,
    eps: Eps,
)
    ensures
        distributed::summed(k, s, v, m, d, eps).num.len() == d,
    decreases s.len(),
{
    if s.len() > 0 {
        lemma_summed_width(k, s.drop_last(), v, m, d, eps);
    }
}

// ------------------------------------------------------------------ laws

/// Deleting a record that was just inserted leaves the records as they
/// were.
pub proof fn delete_undoes_insert_on_the_records(
    k: arith::Calc,
    a: Memory,
    key: Seq<char>,
    s: u64,
    v: Seq<u64>,
    b: Memory,
)
    requires
        !a.live.contains_key(key),
        deleted(k, inserted(k, a, key, s, v), key, b),
    ensures
        b.live == a.live,
{
    assert(a.live.insert(key, (s, v)).remove(key) =~= a.live);
}

/// Exact unlearning: where a delete may have left the maximum stale, the
/// state is what the remaining records alone give, as if the deleted record
/// had never been there.
pub proof fn stale_delete_forgets_entirely(
    k: arith::Calc,
    a: Memory,
    key: Seq<char>,
    b: Memory,
)
    requires
        a.live.contains_key(key),
        goes_stale(k, a.state, a.live[key].0, a.live[key].1, a.eps),
        deleted(k, a, key, b),
    ensures
        exists|e: Seq<(u64, Seq<u64>)>| #[trigger]
            maps::lists(b.live, e) && b.state == recomputed(k, e, a.d_v, a.eps),
        !b.live.contains_key(key),
{
}

/// A record that does not count, such as one whose key does not match,
/// leaves no trace in the state, neither when it comes nor when it goes.
pub proof fn uncounted_records_leave_no_trace(
    k: arith::Calc,
    a: State,
    s: u64,
    v: Seq<u64>,
    eps: Eps,
)
    requires
        !counts(s, eps),
    ensures
        state_with(k, a, s, v, eps) == a,
        parted(k, a, s, v, eps) == a,
        !goes_stale(k, a, s, v, eps),
{
}

/// In the tropical limit a record below the maximum leaves no trace in the
/// state, neither when it comes nor when it goes.
pub proof fn tropical_state_ignores_lower_records(
    k: arith::Calc,
    a: State,
    s: u64,
    v: Seq<u64>,
    eps: Eps,
)
    requires
        eps.tropical(),
        !bits::finite(s) || bits::num_lt(s, a.m),
    ensures
        state_with(k, a, s, v, eps) == a,
        parted(k, a, s, v, eps) == a,
        !goes_stale(k, a, s, v, eps),
{
}

/// An insert adds the one record, a delete takes out the one, and the two
/// after another under one id replace it; no other record changes.
pub proof fn records_change_one_at_a_time(
    k: arith::Calc,
    a: Memory,
    key: Seq<char>,
    s: u64,
    v: Seq<u64>,
    b: Memory,
)
    requires
        a.live.contains_key(key),
        deleted(k, a, key, b),
    ensures
        b.live == a.live.remove(key),
        inserted(k, b, key, s, v).live == a.live.insert(key, (s, v)),
        b.x_len == a.x_len && b.d_v == a.d_v && b.eps == a.eps && b.sim == a.sim,
        b.n_ops == a.n_ops + 1,
        insert_error(a, key, a.x_len, a.d_v) == Some(error::BruceErrorView::DuplicateKey(key)),
        insert_error(b, key, a.x_len, a.d_v) is None,
{
    assert(a.live.remove(key).insert(key, (s, v)) =~= a.live.insert(key, (s, v)));
}

} // verus!

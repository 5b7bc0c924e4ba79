//! The soft average as an aggregate with a transition, a combine and a
//! final function over a state of five numbers.
//!
//! The state is the accumulator of the fold with values of one component,
//! the temperature, and a bit that records a NaN. Unlike the kernels, for
//! which NaN encodes NULL, the aggregate has a NULL of its own and treats
//! NaN as a value that spreads to the result.

use vstd::prelude::*;

use crate::anchored;
use crate::arith;
use crate::arith::{apply_op, max, weigh, Op};
use crate::bits;
use crate::bits::{eq, is_nan, lt};
use crate::fold;
use crate::semiring;
use crate::semiring::shown;
use crate::text;
use crate::text::dec_string;
use crate::types::Eps;

verus! {

/// The number of slots of a state.
pub const STATE_LEN: usize = 5;

/// Accumulator of values of one component.
#[derive(Clone, Copy, Debug)]
pub struct ScalarAcc {
    /// The anchor.
    pub mu: u64,
    /// The sum of weights.
    pub z: u64,
    /// The weighted sum of values.
    pub u: u64,
}

impl View for ScalarAcc {
    type V = fold::Acc;

    open spec fn view(&self) -> fold::Acc {
        fold::Acc { mu: self.mu, z: self.z, u: seq![self.u] }
    }
}

impl ScalarAcc {
    /// An accumulator that has absorbed nothing.
    pub fn new() -> (a: ScalarAcc)
        ensures
            a@ == fold::vacant(1),
            a == (ScalarAcc { mu: bits::NEG_INF, z: arith::ZERO, u: arith::ZERO }),
    {
        let a = ScalarAcc { mu: bits::NEG_INF, z: arith::ZERO, u: arith::ZERO };
        assert(a@.u =~= fold::vacant(1).u);
        a
    }

    /// True where no row of weight was absorbed.
    pub fn is_empty(&self) -> (r: bool)
        ensures
            r == self@.is_vacant(),
    {
        eq(self.z, arith::ZERO)
    }

    /// Absorb one record: exactly as the row accumulator does with a value
    /// of one component.
    pub fn absorb<F: Fn(Op, u64, u64) -> u64>(&mut self, s: u64, v: u64, eps: Eps, f: &F)
        requires
            arith::steady(*f),
        ensures
            final(self)@ == fold::absorbed(arith::computes(*f), old(self)@, s, seq![v], eps),
    {
        let ghost k = arith::computes(*f);
        let ghost want = fold::absorbed(k, self@, s, seq![v], eps);
        if eps.is_zero() {
            if s != bits::NEG_INF {
                if lt(self.mu, s) {
                    *self = ScalarAcc { mu: s, z: arith::ONE, u: v };
                } else if eq(s, self.mu) {
                    let z: u64 = apply_op(f, Op::Plus, self.z, arith::ONE);
                    let u: u64 = apply_op(f, Op::Plus, self.u, v);
                    *self = ScalarAcc { mu: self.mu, z, u };
                }
            }
        } else if eps.is_inf() {
            let z: u64 = apply_op(f, Op::Plus, self.z, arith::ONE);
            let u: u64 = apply_op(f, Op::Plus, self.u, v);
            *self = ScalarAcc { mu: self.mu, z, u };
        } else if s == bits::NEG_INF {
        } else if s == bits::POS_INF || self.mu == bits::POS_INF {
            if s == bits::POS_INF && self.mu == bits::POS_INF {
                let z: u64 = apply_op(f, Op::Plus, self.z, arith::ONE);
                let u: u64 = apply_op(f, Op::Plus, self.u, v);
                *self = ScalarAcc { mu: self.mu, z, u };
            } else if s == bits::POS_INF {
                *self = ScalarAcc { mu: s, z: arith::ONE, u: v };
            }
        } else if self.is_empty() {
            *self = ScalarAcc { mu: s, z: arith::ONE, u: v };
        } else {
            let m: u64 = max(self.mu, s);
            let scale: u64 = weigh(f, self.mu, m, eps.0);
            let w: u64 = weigh(f, s, m, eps.0);
            let us: u64 = apply_op(f, Op::Times, self.u, scale);
            let wv: u64 = apply_op(f, Op::Times, w, v);
            let u: u64 = apply_op(f, Op::Plus, us, wv);
            let zs: u64 = apply_op(f, Op::Times, self.z, scale);
            let z: u64 = apply_op(f, Op::Plus, zs, w);
            *self = ScalarAcc { mu: m, z, u };
        }
        assert(self@.u =~= want.u);
    }

    /// Merge another accumulator: exactly as the row accumulator does.
    pub fn merge<F: Fn(Op, u64, u64) -> u64>(&mut self, other: &ScalarAcc, eps: Eps, f: &F)
        requires
            arith::steady(*f),
        ensures
            final(self)@ == fold::merged(arith::computes(*f), old(self)@, other@, eps),
    {
        let ghost k = arith::computes(*f);
        let ghost want = fold::merged(k, self@, other@, eps);
        if other.is_empty() {
        } else if self.is_empty() {
            *self = *other;
        } else if eps.is_zero() {
            if lt(self.mu, other.mu) {
                *self = *other;
            } else if eq(other.mu, self.mu) {
                self.pool(other, f);
            }
        } else if eps.is_inf() {
            self.pool(other, f);
        } else if self.mu == bits::POS_INF || other.mu == bits::POS_INF {
            if self.mu == bits::POS_INF && other.mu == bits::POS_INF {
                self.pool(other, f);
            } else if other.mu == bits::POS_INF {
                *self = *other;
            }
        } else {
            let m: u64 = max(self.mu, other.mu);
            let p: u64 = weigh(f, self.mu, m, eps.0);
            let q: u64 = weigh(f, other.mu, m, eps.0);
            let up: u64 = apply_op(f, Op::Times, self.u, p);
            let uq: u64 = apply_op(f, Op::Times, other.u, q);
            let zp: u64 = apply_op(f, Op::Times, self.z, p);
            let zq: u64 = apply_op(f, Op::Times, other.z, q);
            let u: u64 = apply_op(f, Op::Plus, up, uq);
            let z: u64 = apply_op(f, Op::Plus, zp, zq);
            *self = ScalarAcc { mu: m, z, u };
        }
        assert(self@.u =~= want.u);
    }

    fn pool<F: Fn(Op, u64, u64) -> u64>(&mut self, other: &ScalarAcc, f: &F)
        requires
            arith::steady(*f),
        ensures
            final(self)@ == fold::pooled(arith::computes(*f), old(self)@, other@),
    {
        let ghost want = fold::pooled(arith::computes(*f), self@, other@);
        let z: u64 = apply_op(f, Op::Plus, self.z, other.z);
        let u: u64 = apply_op(f, Op::Plus, self.u, other.u);
        *self = ScalarAcc { mu: self.mu, z, u };
        assert(self@.u =~= want.u);
    }

    /// The weighted mean in every regime; `None` if nothing of weight was
    /// absorbed.
    pub fn finalize<F: Fn(Op, u64, u64) -> u64>(&self, f: &F) -> (r: Option<u64>)
        requires
            arith::steady(*f),
        ensures
            match fold::output(arith::computes(*f), self@) {
                Some(row) => r == Some(row[0]),
                None => r is None,
            },
    {
        if self.is_empty() {
            return None;
        }
        Some(apply_op(f, Op::Over, self.u, self.z))
    }
}

impl Default for ScalarAcc {
    fn default() -> (a: ScalarAcc)
        ensures
            a@ == fold::vacant(1),
    {
        ScalarAcc::new()
    }
}

/// The accumulator of the aggregate: that of the fold, and a bit that
/// records a NaN.
#[derive(Clone, Copy, Debug)]
pub struct PgAcc {
    /// The accumulator of the rows without NaN.
    pub acc: ScalarAcc,
    /// Some row carried a NaN value or score.
    pub nan_seen: bool,
}

/// An accumulator of the aggregate as a mathematical value.
pub struct PgView {
    pub acc: fold::Acc,
    pub nan_seen: bool,
}

impl View for PgAcc {
    type V = PgView;

    open spec fn view(&self) -> PgView {
        PgView { acc: self.acc@, nan_seen: self.nan_seen }
    }
}

/// The accumulator after one more row: a NaN sets the bit and stays out.
pub open spec fn pg_absorbed(k: arith::Calc, a: PgView, s: u64, v: u64, eps: Eps) -> PgView {
    if bits::nan(s) || bits::nan(v) {
        PgView { nan_seen: true, ..a }
    } else {
        PgView { acc: fold::absorbed(k, a.acc, s, seq![v], eps), ..a }
    }
}

/// Two accumulators as one: merged, with either's bit.
pub open spec fn pg_merged(k: arith::Calc, a: PgView, b: PgView, eps: Eps) -> PgView {
    PgView { acc: fold::merged(k, a.acc, b.acc, eps), nan_seen: a.nan_seen || b.nan_seen }
}

/// The result: NaN where one was seen, else the weighted mean, or nothing.
pub open spec fn pg_output(k: arith::Calc, a: PgView) -> Option<u64> {
    if a.nan_seen {
        Some(bits::QUIET_NAN)
    } else {
        match fold::output(k, a.acc) {
            Some(row) => Some(row[0]),
            None => None,
        }
    }
}

impl PgAcc {
    /// An accumulator that has absorbed nothing.
    pub fn new() -> (a: PgAcc)
        ensures
            a@ == (PgView { acc: fold::vacant(1), nan_seen: false }),
    {
        PgAcc { acc: ScalarAcc::new(), nan_seen: false }
    }

    /// Absorb one row.
    pub fn absorb<F: Fn(Op, u64, u64) -> u64>(&mut self, s: u64, v: u64, eps: Eps, f: &F)
        requires
            arith::steady(*f),
        ensures
            final(self)@ == pg_absorbed(arith::computes(*f), old(self)@, s, v, eps),
    {
        if is_nan(s) || is_nan(v) {
            self.nan_seen = true;
            return ;
        }
        self.acc.absorb(s, v, eps, f);
    }

    /// Merge another accumulator.
    pub fn merge<F: Fn(Op, u64, u64) -> u64>(&mut self, other: &PgAcc, eps: Eps, f: &F)
        requires
            arith::steady(*f),
        ensures
            final(self)@ == pg_merged(arith::computes(*f), old(self)@, other@, eps),
    {
        self.acc.merge(&other.acc, eps, f);
        self.nan_seen = self.nan_seen || other.nan_seen;
    }

    /// NaN if one was seen, so that a group of nothing but NaN is NaN;
    /// otherwise the weighted mean, or `None` where no row carried weight.
    pub fn finalize<F: Fn(Op, u64, u64) -> u64>(&self, f: &F) -> (r: Option<u64>)
        requires
            arith::steady(*f),
        ensures
            r == pg_output(arith::computes(*f), self@),
    {
        if self.nan_seen {
            return Some(bits::QUIET_NAN);
        }
        self.acc.finalize(f)
    }
}

impl Default for PgAcc {
    fn default() -> (a: PgAcc)
        ensures
            a@ == (PgView { acc: fold::vacant(1), nan_seen: false }),
    {
        PgAcc::new()
    }
}

// ---------------------------------------------------------------- encoding

/// The state of an accumulator at a temperature: anchor, weights, values,
/// temperature, and 1 or 0 for the bit.
pub open spec fn encoded(a: PgAcc, eps: u64) -> Seq<u64> {
    seq![
        a.acc.mu,
        a.acc.z,
        a.acc.u,
        eps,
        if a.nan_seen {
            arith::ONE
        } else {
            arith::ZERO
        },
    ]
}

/// The accumulator and temperature of a state; `None` where it has not five
/// slots.
pub open spec fn decoded(st: Seq<u64>) -> Option<(PgAcc, u64)> {
    if st.len() != STATE_LEN {
        None
    } else {
        Some(
            (
                PgAcc {
                    acc: ScalarAcc { mu: st[0], z: st[1], u: st[2] },
                    nan_seen: !bits::num_eq(st[4], arith::ZERO),
                },
                st[3],
            ),
        )
    }
}

/// The accumulator and temperature of a state; `None` where it is not well
/// formed.
pub fn decode_checked(st: &[u64]) -> (r: Option<(PgAcc, u64)>)
    ensures
        r == decoded(st@),
{
    if st.len() != STATE_LEN {
        return None;
    }
    Some(
        (
            PgAcc {
                acc: ScalarAcc { mu: st[0], z: st[1], u: st[2] },
                nan_seen: !eq(st[4], arith::ZERO),
            },
            st[3],
        ),
    )
}

/// The state of an accumulator at a temperature.
pub fn encode(st: &PgAcc, eps: u64) -> (r: Vec<u64>)
    ensures
        r@ == encoded(*st, eps),
{
    let mut r: Vec<u64> = Vec::new();
    r.push(st.acc.mu);
    r.push(st.acc.z);
    r.push(st.acc.u);
    r.push(eps);
    r.push(
        if st.nan_seen {
            arith::ONE
        } else {
            arith::ZERO
        },
    );
    assert(r@ =~= encoded(*st, eps));
    r
}

/// A state decodes to the accumulator and temperature that it encodes.
pub proof fn state_round_trip(a: PgAcc, eps: u64)
    ensures
        decoded(encoded(a, eps)) == Some((a, eps)),
{
}

/// The complaint about a state that is not well formed.
pub open spec fn malformed_text(n: nat) -> Seq<char> {
    "softavg: malformed state \u{2014} expected float8[5], got "@ + text::dec(n) + " elements"@
}

/// The accumulator and temperature of a state, or the complaint about it.
pub fn decode(st: &[u64]) -> (r: Result<(PgAcc, u64), String>)
    ensures
        match decoded(st@) {
            Some(d) => r == Ok::<(PgAcc, u64), String>(d),
            None => r matches Err(t) && t@ == malformed_text(st@.len()),
        },
{
    match decode_checked(st) {
        Some(d) => Ok(d),
        None => {
            let mut s = String::from_str(
                "softavg: malformed state \u{2014} expected float8[5], got ",
            );
            s.append(dec_string(st.len() as u64).as_str());
            s.append(" elements");
            Err(s)
        },
    }
}

/// The temperature is nonnegative and not NaN.
pub open spec fn legal_eps(eps: u64) -> bool {
    !bits::num_lt(eps, arith::ZERO) && !bits::nan(eps)
}

/// The complaint about a temperature that is negative or NaN.
pub open spec fn eps_text(sh: semiring::Shown, eps: u64) -> Seq<char> {
    "softavg: eps must be >= 0 (0 = argmax-mean, 'infinity' = plain mean), got "@ + sh(eps)
}

/// The temperature, or the complaint about it.
pub fn check_eps<D: Fn(u64) -> String>(eps: u64, show: &D) -> (r: Result<u64, String>)
    requires
        semiring::steady_shown(*show),
    ensures
        if legal_eps(eps) {
            r == Ok::<u64, String>(eps)
        } else {
            r matches Err(t) && t@ == eps_text(semiring::shows(*show), eps)
        },
{
    if lt(eps, arith::ZERO) || is_nan(eps) {
        let mut s = String::from_str(
            "softavg: eps must be >= 0 (0 = argmax-mean, 'infinity' = plain mean), got ",
        );
        s.append(shown(show, eps).as_str());
        return Err(s);
    }
    Ok(eps)
}

// --------------------------------------------------------------- aggregate

/// The view of an optional state.
pub open spec fn state_view(s: Option<Vec<u64>>) -> Option<Seq<u64>> {
    match s {
        Some(v) => Some(v@),
        None => None,
    }
}

/// The accumulator that a transition starts from, or the complaint.
pub open spec fn entry_acc(sh: semiring::Shown, state: Option<Seq<u64>>, eps: u64) -> Result<
    PgAcc,
    Seq<char>,
> {
    match state {
        None => Ok(
            PgAcc {
                acc: ScalarAcc { mu: bits::NEG_INF, z: arith::ZERO, u: arith::ZERO },
                nan_seen: false,
            },
        ),
        Some(st) => match decoded(st) {
            None => Err(malformed_text(st.len())),
            Some((acc, eps0)) => if bits::num_eq(eps0, eps) {
                Ok(acc)
            } else {
                Err(
                    "softavg: eps must be constant within an aggregate group ("@ + sh(eps0)
                        + " vs "@ + sh(eps) + ")"@,
                )
            },
        },
    }
}

/// `r` is the state of an accumulator with this view, at a temperature.
pub open spec fn holds(r: Seq<u64>, a: PgView, eps: u64) -> bool {
    decoded(r) matches Some((acc, e)) && acc@ == a && e == eps && r == encoded(acc, e)
}

/// Aggregate transition. A NULL state is the empty accumulator; a row with a
/// NULL value or score is passed over; a NaN row counts, and sets the bit.
/// The temperature must be given, legal, and the same throughout a group.
pub fn bruce_softavg_sfunc<F: Fn(Op, u64, u64) -> u64, D: Fn(u64) -> String>(
    state: Option<Vec<u64>>,
    value: Option<u64>,
    score: Option<u64>,
    eps: Option<u64>,
    f: &F,
    show: &D,
) -> (r: Result<Option<Vec<u64>>, String>)
    requires
        arith::steady(*f),
        semiring::steady_shown(*show),
    ensures
        match (value, score) {
            (Some(v), Some(s)) => match eps {
                None => r matches Err(t) && t@ == "softavg: eps must not be NULL"@,
                Some(e) => if !legal_eps(e) {
                    r matches Err(t) && t@ == eps_text(semiring::shows(*show), e)
                } else {
                    match entry_acc(semiring::shows(*show), state_view(state), e) {
                        Err(t) => r matches Err(x) && x@ == t,
                        Ok(acc) => r matches Ok(Some(st)) && holds(
                            st@,
                            pg_absorbed(arith::computes(*f), acc@, s, v, Eps(e)),
                            e,
                        ),
                    }
                },
            },
            _ => r == Ok::<Option<Vec<u64>>, String>(state),
        },
{
    let (v, s) = match (value, score) {
        (Some(v), Some(s)) => (v, s),
        _ => {
            return Ok(state);
        },
    };
    let e: u64 = match eps {
        Some(e) => e,
        None => {
            return Err(String::from_str("softavg: eps must not be NULL"));
        },
    };
    check_eps(e, show)?;
    let mut acc: PgAcc = match state {
        None => PgAcc {
            acc: ScalarAcc { mu: bits::NEG_INF, z: arith::ZERO, u: arith::ZERO },
            nan_seen: false,
        },
        Some(st) => {
            let (acc, eps0) = decode(st.as_slice())?;
            if !eq(eps0, e) {
                let mut t = String::from_str(
                    "softavg: eps must be constant within an aggregate group (",
                );
                t.append(shown(show, eps0).as_str());
                t.append(" vs ");
                t.append(shown(show, e).as_str());
                t.append(")");
                return Err(t);
            }
            acc
        },
    };
    acc.absorb(s, v, Eps(e), f);
    Ok(Some(encode(&acc, e)))
}

/// What is wrong with two states that are to be combined, if anything.
pub open spec fn combine_error(sh: semiring::Shown, a: Seq<u64>, b: Seq<u64>) -> Option<
    Seq<char>,
> {
    match decoded(a) {
        None => Some(malformed_text(a.len())),
        Some((_, ea)) => match decoded(b) {
            None => Some(malformed_text(b.len())),
            Some((_, eb)) => if bits::num_eq(ea, eb) {
                None
            } else {
                Some(
                    "softavg: cannot combine states with different eps ("@ + sh(ea) + " vs "@ + sh(
                        eb,
                    ) + ")"@,
                )
            },
        },
    }
}

/// Combine of two partial states: a NULL state gives way to the other.
pub fn bruce_softavg_combine<F: Fn(Op, u64, u64) -> u64, D: Fn(u64) -> String>(
    a: Option<Vec<u64>>,
    b: Option<Vec<u64>>,
    f: &F,
    show: &D,
) -> (r: Result<Option<Vec<u64>>, String>)
    requires
        arith::steady(*f),
        semiring::steady_shown(*show),
    ensures
        match (state_view(a), state_view(b)) {
            (None, _) => r == Ok::<Option<Vec<u64>>, String>(b),
            (Some(x), None) => r == Ok::<Option<Vec<u64>>, String>(a),
            (Some(x), Some(y)) => match combine_error(semiring::shows(*show), x, y) {
                Some(t) => r matches Err(s) && s@ == t,
                None => {
                    let (p, e) = decoded(x)->0;
                    let (q, _) = decoded(y)->0;
                    r matches Ok(Some(st)) && holds(
                        st@,
                        pg_merged(arith::computes(*f), p@, q@, Eps(e)),
                        e,
                    )
                },
            },
        },
{
    let x = match a {
        None => {
            return Ok(b);
        },
        Some(x) => x,
    };
    let y = match b {
        None => {
            return Ok(Some(x));
        },
        Some(y) => y,
    };
    let (mut p, ea) = decode(x.as_slice())?;
    let (q, eb) = decode(y.as_slice())?;
    if !eq(ea, eb) {
        let mut t = String::from_str("softavg: cannot combine states with different eps (");
        t.append(shown(show, ea).as_str());
        t.append(" vs ");
        t.append(shown(show, eb).as_str());
        t.append(")");
        return Err(t);
    }
    p.merge(&q, Eps(ea), f);
    Ok(Some(encode(&p, ea)))
}

/// Final function: NULL for a NULL state, else the result of the
/// accumulator.
pub fn bruce_softavg_final<F: Fn(Op, u64, u64) -> u64>(state: Option<Vec<u64>>, f: &F) -> (r: Result<
    Option<u64>,
    String,
>)
    requires
        arith::steady(*f),
    ensures
        match state_view(state) {
            None => r == Ok::<Option<u64>, String>(None),
            Some(st) => match decoded(st) {
                None => r matches Err(t) && t@ == malformed_text(st.len()),
                Some((acc, _)) => r == Ok::<Option<u64>, String>(
                    pg_output(arith::computes(*f), acc@),
                ),
            },
        },
{
    match state {
        None => Ok(None),
        Some(st) => {
            let (acc, _eps) = decode(st.as_slice())?;
            Ok(acc.finalize(f))
        },
    }
}

// ------------------------------------------------------------------ laws

/// The accumulator of the aggregate after a list of rows, each a score and a
/// value.
pub open spec fn pg_folded(k: arith::Calc, rows: Seq<(u64, u64)>, eps: Eps) -> PgView
    decreases rows.len(),
{
    if rows.len() == 0 {
        PgView { acc: fold::vacant(1), nan_seen: false }
    } else {
        pg_absorbed(k, pg_folded(k, rows.drop_last(), eps), rows.last().0, rows.last().1, eps)
    }
}

/// The rows without NaN, as the fold takes them.
pub open spec fn clean_rows(rows: Seq<(u64, u64)>) -> Seq<(u64, Seq<u64>)>
    decreases rows.len(),
{
    if rows.len() == 0 {
        Seq::empty()
    } else {
        let r = clean_rows(rows.drop_last());
        let (s, v) = rows.last();
        if bits::nan(s) || bits::nan(v) {
            r
        } else {
            r.push((s, seq![v]))
        }
    }
}

/// The aggregate's accumulator is that of the fold over the rows without
/// NaN, which the kernels skip; and its bit tells whether there was one.
pub proof fn aggregate_mirrors_the_fold(k: arith::Calc, rows: Seq<(u64, u64)>, eps: Eps)
    ensures
        pg_folded(k, rows, eps).acc == fold::folded(k, 1, clean_rows(rows), eps),
        pg_folded(k, rows, eps).nan_seen <==> exists|i: int|
            0 <= i < rows.len() && (bits::nan((#[trigger] rows[i]).0) || bits::nan(rows[i].1)),
    decreases rows.len(),
{
    if rows.len() > 0 {
        let r = rows.drop_last();
        aggregate_mirrors_the_fold(k, r, eps);
        let last = rows[rows.len() - 1];
        assert(last == rows.last());
        if !(bits::nan(last.0) || bits::nan(last.1)) {
            assert(clean_rows(rows).drop_last() =~= clean_rows(r));
        }
        if pg_folded(k, r, eps).nan_seen {
            let i = choose|i: int|
                0 <= i < r.len() && (bits::nan((#[trigger] r[i]).0) || bits::nan(r[i].1));
            assert(rows[i] == r[i]);
        }
        if exists|i: int|
            0 <= i < rows.len() && (bits::nan((#[trigger] rows[i]).0) || bits::nan(rows[i].1)) {
            let i = choose|i: int|
                0 <= i < rows.len() && (bits::nan((#[trigger] rows[i]).0) || bits::nan(
                    rows[i].1,
                ));
            if i < r.len() {
                assert(r[i] == rows[i]);
            }
        }
    }
}

/// Of a whole run of the aggregate in which some row without NaN weighs: the
/// sum of weights lies between 1 and the number of those rows, and away from
/// the uniform limit the anchor is their largest score.
pub proof fn aggregate_is_anchored_at_the_largest_score(
    k: arith::Calc,
    rows: Seq<(u64, u64)>,
    eps: Eps,
)
    requires
        fold::keeps_count(k, eps),
        forall|m: nat, n: nat| #[trigger] anchored::rises(k, m, n),
        rows.len() <= fold::countable(),
        exists|i: int|
            0 <= i < clean_rows(rows).len() && fold::weighs((#[trigger] clean_rows(rows)[i]).0, eps),
    ensures
        ({
            let a = pg_folded(k, rows, eps).acc;
            let c = clean_rows(rows);
            &&& bits::rank(arith::ONE) <= bits::rank(a.z) <= bits::rank(
                k(Op::Whole, c.len() as u64, 0),
            )
            &&& !eps.uniform() ==> {
                &&& forall|i: int|
                    0 <= i < c.len() ==> bits::rank((#[trigger] c[i]).0) <= bits::rank(a.mu)
                &&& exists|i: int| 0 <= i < c.len() && (#[trigger] c[i]).0 == a.mu
            }
        }),
{
    aggregate_mirrors_the_fold(k, rows, eps);
    lemma_clean_rows(rows);
    anchored::anchor_is_the_largest_score_and_mass_is_bounded(k, 1, clean_rows(rows), eps);
}

proof fn lemma_clean_rows(rows: Seq<(u64, u64)>)
    ensures
        fold::scored(clean_rows(rows)),
        clean_rows(rows).len() <= rows.len(),
    decreases rows.len(),
{
    if rows.len() > 0 {
        lemma_clean_rows(rows.drop_last());
        let (c, less) = (clean_rows(rows), clean_rows(rows.drop_last()));
        assert forall|i: int| 0 <= i < c.len() implies !bits::nan((#[trigger] c[i]).0) by {
            if i < less.len() {
                assert(c[i] == less[i]);
            }
        }
    }
}

/// A NaN seen on either side of a merge reaches the result.
pub proof fn nan_survives_a_merge(k: arith::Calc, a: PgView, b: PgView, eps: Eps)
    requires
        a.nan_seen || b.nan_seen,
    ensures
        pg_output(k, pg_merged(k, a, b, eps)) == Some(bits::QUIET_NAN),
        bits::nan(bits::QUIET_NAN),
{
}

/// A group of nothing but NaN is NaN, and not NULL.
pub proof fn all_nan_group_is_nan(k: arith::Calc, rows: Seq<(u64, u64)>, eps: Eps)
    requires
        rows.len() > 0,
        forall|i: int|
            0 <= i < rows.len() ==> bits::nan((#[trigger] rows[i]).0) || bits::nan(rows[i].1),
    ensures
        pg_output(k, pg_folded(k, rows, eps)) == Some(bits::QUIET_NAN),
{
    aggregate_mirrors_the_fold(k, rows, eps);
    assert(bits::nan(rows[0].0) || bits::nan(rows[0].1));
}

/// States combine exactly where both are well formed and of one temperature.
pub proof fn states_of_one_temperature_combine(
    sh: semiring::Shown,
    a: Seq<u64>,
    b: Seq<u64>,
)
    ensures
        combine_error(sh, a, b) is None <==> a.len() == 5 && b.len() == 5 && bits::num_eq(a[3], b[3]),
        entry_acc(sh, Some(a), b[3]) is Ok <==> a.len() == 5 && bits::num_eq(a[3], b[3]),
{
}

/// A temperature is legal from zero up to infinity: a pattern without a sign
/// that is no NaN, or minus zero.
pub proof fn temperature_is_zero_or_more(eps: u64)
    ensures
        legal_eps(eps) <==> eps <= 0x7FF0_0000_0000_0000 || eps == 0x8000_0000_0000_0000,
{
}

} // verus!

//! The replication stream written down: messages as bytes, and that decoding
//! reads back what was written.

use vstd::prelude::*;

use crate::bytes;
use crate::bytes::{be_bytes, be_nat, le_nat, pow256};
use crate::pgoutput;
use crate::pgoutput::{DatumView, MsgView, WalView};
use crate::text;

verus! {

// ------------------------------------------------------------------- numbers

/// Big-endian bytes count more the earlier they stand.
pub proof fn big_endian_puts_the_heavy_bytes_first(a: Seq<u8>, b: Seq<u8>)
    ensures
        be_nat(a + b) == be_nat(a) * pow256(b.len()) + be_nat(b),
    decreases b.len(),
{
    if b.len() == 0 {
        assert(a + b =~= a);
        assert(be_nat(a) * 1 == be_nat(a));
    } else {
        let c = b.drop_last();
        big_endian_puts_the_heavy_bytes_first(a, c);
        assert((a + b).drop_last() =~= a + c);
        assert((a + b).last() == b.last());
        let (x, p) = (be_nat(a), pow256(c.len()));
        assert(x * (256 * p) == (x * p) * 256) by (nonlinear_arith);
    }
}

/// Little-endian bytes are the big-endian ones backwards.
pub proof fn little_endian_is_backwards(s: Seq<u8>)
    ensures
        le_nat(s) == be_nat(s.reverse()),
    decreases s.len(),
{
    if s.len() > 0 {
        little_endian_is_backwards(s.drop_first());
        assert(s.reverse().drop_last() =~= s.drop_first().reverse());
        assert(s.reverse().last() == s[0]);
    }
}

/// A signed number is read back from its pattern.
pub proof fn signed_numbers_round_trip(v: int)
    ensures
        -0x8000_0000_0000_0000 <= v < 0x8000_0000_0000_0000 ==> bytes::as_i64(bytes::pattern64(v))
            == v && bytes::pattern64(v) < 0x1_0000_0000_0000_0000,
        -0x8000_0000 <= v < 0 ==> bytes::as_i32((v + 0x1_0000_0000) as nat) == v,
        0 <= v < 0x8000_0000 ==> bytes::as_i32(v as nat) == v,
        -0x8000 <= v < 0 ==> bytes::as_i16((v + 0x1_0000) as nat) == v,
        0 <= v < 0x8000 ==> bytes::as_i16(v as nat) == v,
{
}

/// The bytes from `at` on start with `part`.
pub open spec fn holds(b: Seq<u8>, at: int, part: Seq<u8>) -> bool {
    &&& 0 <= at <= at + part.len() <= b.len()
    &&& forall|i: int| 0 <= i < part.len() ==> b[at + i] == #[trigger] part[i]
}

/// A number that stands where it is read.
pub proof fn lemma_num(b: Seq<u8>, at: int, n: nat, k: nat)
    requires
        holds(b, at, be_bytes(n, k)),
        n < pow256(k),
    ensures
        pgoutput::num(b, at, k as int) == n,
        be_bytes(n, k).len() == k,
{
    bytes::be_round_trip(n, k);
    assert(b.subrange(at, at + k) =~= be_bytes(n, k));
}

/// Bytes in a row stand one behind the other.
pub proof fn lemma_holds_parts(b: Seq<u8>, at: int, x: Seq<u8>, y: Seq<u8>)
    requires
        holds(b, at, x + y),
    ensures
        holds(b, at, x),
        holds(b, at + x.len(), y),
{
    assert forall|i: int| 0 <= i < x.len() implies b[at + i] == #[trigger] x[i] by {
        assert((x + y)[i] == x[i]);
    }
    assert forall|i: int| 0 <= i < y.len() implies b[at + x.len() + i] == #[trigger] y[i] by {
        assert((x + y)[x.len() + i] == y[i]);
    }
}

// -------------------------------------------------------------------- tuples

/// A column as it is sent.
pub enum Sent {
    Null,
    Unchanged,
    Text(Seq<u8>),
}

/// What a column says.
pub open spec fn meant(c: Sent) -> DatumView {
    match c {
        Sent::Null => DatumView::Null,
        Sent::Unchanged => DatumView::Unchanged,
        Sent::Text(t) => DatumView::Text(text::lossy_utf8(t)),
    }
}

/// A column's bytes: `n`, `u`, or `t` with a length and the text.
pub open spec fn column_bytes(c: Sent) -> Seq<u8> {
    match c {
        Sent::Null => seq![110u8],
        Sent::Unchanged => seq![117u8],
        Sent::Text(t) => seq![116u8] + (be_bytes(t.len(), 4) + t),
    }
}

/// The bytes of columns, one after the other.
pub open spec fn columns_bytes(cs: Seq<Sent>) -> Seq<u8>
    decreases cs.len(),
{
    if cs.len() == 0 {
        Seq::empty()
    } else {
        column_bytes(cs[0]) + columns_bytes(cs.drop_first())
    }
}

/// A tuple's bytes: how many columns, then the columns.
pub open spec fn tuple_bytes(cs: Seq<Sent>) -> Seq<u8> {
    be_bytes(cs.len(), 2) + columns_bytes(cs)
}

/// Columns that can be sent: a text's length fits.
pub open spec fn sendable(cs: Seq<Sent>) -> bool {
    &&& cs.len() < 0x1_0000
    &&& forall|i: int|
        0 <= i < cs.len() ==> (#[trigger] cs[i] matches Sent::Text(t) ==> t.len() < 0x8000_0000)
}

/// What the columns say.
pub open spec fn meanings(cs: Seq<Sent>) -> Seq<DatumView> {
    Seq::new(cs.len(), |i: int| meant(cs[i]))
}

proof fn lemma_datum(b: Seq<u8>, at: int, c: Sent)
    requires
        holds(b, at, column_bytes(c)),
        c matches Sent::Text(t) ==> t.len() < 0x8000_0000,
    ensures
        pgoutput::datum_at(b, at) == Ok::<(DatumView, int), Seq<char>>(
            (meant(c), at + column_bytes(c).len()),
        ),
{
    assert(b[at + 0] == column_bytes(c)[0]);
    if let Sent::Text(t) = c {
        bytes::lemma_pow256();
        let n = be_bytes(t.len(), 4);
        lemma_holds_parts(b, at, seq![116u8], n + t);
        lemma_holds_parts(b, at + 1, n, t);
        lemma_num(b, at + 1, t.len(), 4);
        assert(b.subrange(at + 5, at + 5 + t.len()) =~= t) by {
            assert forall|i: int| 0 <= i < t.len() implies b[at + 5 + i] == #[trigger] t[i] by {}
        }
    }
}

proof fn lemma_datums(b: Seq<u8>, at: int, cs: Seq<Sent>, acc: Seq<DatumView>)
    requires
        holds(b, at, columns_bytes(cs)),
        forall|i: int|
            0 <= i < cs.len() ==> (#[trigger] cs[i] matches Sent::Text(t) ==> t.len()
                < 0x8000_0000),
    ensures
        pgoutput::datums_from(b, at, cs.len(), acc) == Ok::<(Seq<DatumView>, int), Seq<char>>(
            (acc + meanings(cs), at + columns_bytes(cs).len()),
        ),
    decreases cs.len(),
{
    if cs.len() == 0 {
        assert(acc + meanings(cs) =~= acc);
    } else {
        let rest = cs.drop_first();
        let x = column_bytes(cs[0]);
        lemma_holds_parts(b, at, x, columns_bytes(rest));
        lemma_datum(b, at, cs[0]);
        assert forall|i: int| 0 <= i < rest.len() implies (#[trigger] rest[i] matches Sent::Text(t)
            ==> t.len() < 0x8000_0000) by {
            assert(rest[i] == cs[i + 1]);
        }
        lemma_datums(b, at + x.len(), rest, acc.push(meant(cs[0])));
        assert(acc.push(meant(cs[0])) + meanings(rest) =~= acc + meanings(cs));
    }
}

proof fn lemma_tuple(b: Seq<u8>, at: int, cs: Seq<Sent>)
    requires
        holds(b, at, tuple_bytes(cs)),
        sendable(cs),
    ensures
        pgoutput::tuple_at(b, at) == Ok::<(Seq<DatumView>, int), Seq<char>>(
            (meanings(cs), at + tuple_bytes(cs).len()),
        ),
        at + 2 <= b.len(),
{
    bytes::lemma_pow256();
    bytes::be_round_trip(cs.len(), 2);
    lemma_holds_parts(b, at, be_bytes(cs.len(), 2), columns_bytes(cs));
    lemma_num(b, at, cs.len(), 2);
    lemma_datums(b, at + 2, cs, Seq::empty());
    assert(Seq::<DatumView>::empty() + meanings(cs) =~= meanings(cs));
}

// ------------------------------------------------------------------ messages

/// A Begin message is read back: tag `B`, the final position, the time and
/// the transaction.
pub proof fn begin_is_read_back(final_lsn: nat, commit_ts_us: int, xid: nat)
    requires
        final_lsn < 0x1_0000_0000_0000_0000,
        -0x8000_0000_0000_0000 <= commit_ts_us < 0x8000_0000_0000_0000,
        xid < 0x1_0000_0000,
    ensures
        pgoutput::pgoutput_spec(
            seq![66u8] + (be_bytes(final_lsn, 8) + (be_bytes(bytes::pattern64(commit_ts_us), 8)
                + be_bytes(xid, 4))),
        ) == Ok::<MsgView, Seq<char>>(MsgView::Begin { final_lsn, commit_ts_us, xid }),
{
    bytes::lemma_pow256();
    let (x, y, z) = (
        be_bytes(final_lsn, 8),
        be_bytes(bytes::pattern64(commit_ts_us), 8),
        be_bytes(xid, 4),
    );
    signed_numbers_round_trip(commit_ts_us);
    bytes::be_round_trip(final_lsn, 8);
    bytes::be_round_trip(bytes::pattern64(commit_ts_us), 8);
    bytes::be_round_trip(xid, 4);
    let b = seq![66u8] + (x + (y + z));
    lemma_holds_parts(b, 0, seq![66u8], x + (y + z));
    lemma_holds_parts(b, 1, x, y + z);
    lemma_holds_parts(b, 9, y, z);
    lemma_num(b, 1, final_lsn, 8);
    lemma_num(b, 9, bytes::pattern64(commit_ts_us), 8);
    lemma_num(b, 17, xid, 4);
    assert(b[0] == 66);
}

/// A Commit message is read back: tag `C`, a byte of flags and the commit's
/// position, which are passed over, the end position and the time.
pub proof fn commit_is_read_back(flags: u8, lsn: nat, end_lsn: nat, commit_ts_us: int)
    requires
        lsn < 0x1_0000_0000_0000_0000,
        end_lsn < 0x1_0000_0000_0000_0000,
        -0x8000_0000_0000_0000 <= commit_ts_us < 0x8000_0000_0000_0000,
    ensures
        pgoutput::pgoutput_spec(
            seq![67u8, flags] + (be_bytes(lsn, 8) + (be_bytes(end_lsn, 8) + be_bytes(
                bytes::pattern64(commit_ts_us),
                8,
            ))),
        ) == Ok::<MsgView, Seq<char>>(MsgView::Commit { end_lsn, commit_ts_us }),
{
    bytes::lemma_pow256();
    let t = bytes::pattern64(commit_ts_us);
    let (x, y, z) = (be_bytes(lsn, 8), be_bytes(end_lsn, 8), be_bytes(t, 8));
    signed_numbers_round_trip(commit_ts_us);
    bytes::be_round_trip(lsn, 8);
    bytes::be_round_trip(end_lsn, 8);
    bytes::be_round_trip(t, 8);
    let b = seq![67u8, flags] + (x + (y + z));
    lemma_holds_parts(b, 0, seq![67u8, flags], x + (y + z));
    lemma_holds_parts(b, 2, x, y + z);
    lemma_holds_parts(b, 10, y, z);
    lemma_num(b, 10, end_lsn, 8);
    lemma_num(b, 18, t, 8);
    assert(b[0] == 67);
}

/// An Insert message is read back: tag `I`, the relation, `N` and the new
/// row.
pub proof fn insert_is_read_back(rel_id: nat, new: Seq<Sent>)
    requires
        rel_id < 0x1_0000_0000,
        sendable(new),
    ensures
        pgoutput::pgoutput_spec(seq![73u8] + (be_bytes(rel_id, 4) + (seq![78u8] + tuple_bytes(new))))
            == Ok::<MsgView, Seq<char>>(MsgView::Insert { rel_id, new: meanings(new) }),
{
    let b = seq![73u8] + (be_bytes(rel_id, 4) + (seq![78u8] + tuple_bytes(new)));
    lemma_change(b, 73, rel_id, 78, tuple_bytes(new));
    lemma_tuple(b, 6, new);
}

/// The start of a message of a change.
proof fn lemma_change(b: Seq<u8>, tag: u8, rel_id: nat, kind: u8, rest: Seq<u8>)
    requires
        rel_id < 0x1_0000_0000,
        b == seq![tag] + (be_bytes(rel_id, 4) + (seq![kind] + rest)),
    ensures
        b.len() >= 6,
        b[0] == tag,
        b[5] == kind,
        pgoutput::num(b, 1, 4) == rel_id,
        holds(b, 6, rest),
{
    bytes::lemma_pow256();
    bytes::be_round_trip(rel_id, 4);
    let x = be_bytes(rel_id, 4);
    lemma_holds_parts(b, 0, seq![tag], x + (seq![kind] + rest));
    lemma_holds_parts(b, 1, x, seq![kind] + rest);
    lemma_holds_parts(b, 5, seq![kind], rest);
    lemma_num(b, 1, rel_id, 4);
    assert(b[5int + 0] == seq![kind][0]);
}

/// A Delete message is read back: tag `D`, the relation, `O` or `K` and the
/// old row or its key.
pub proof fn delete_is_read_back(rel_id: nat, kind: u8, before: Seq<Sent>)
    requires
        rel_id < 0x1_0000_0000,
        kind == 79 || kind == 75,
        sendable(before),
    ensures
        pgoutput::pgoutput_spec(
            seq![68u8] + (be_bytes(rel_id, 4) + (seq![kind] + tuple_bytes(before))),
        ) == Ok::<MsgView, Seq<char>>(MsgView::Delete { rel_id, old: meanings(before) }),
{
    let b = seq![68u8] + (be_bytes(rel_id, 4) + (seq![kind] + tuple_bytes(before)));
    lemma_change(b, 68, rel_id, kind, tuple_bytes(before));
    lemma_tuple(b, 6, before);
}

/// An Update message without an old row is read back: tag `U`, the relation,
/// `N` and the new row.
pub proof fn update_is_read_back(rel_id: nat, new: Seq<Sent>)
    requires
        rel_id < 0x1_0000_0000,
        sendable(new),
    ensures
        pgoutput::pgoutput_spec(seq![85u8] + (be_bytes(rel_id, 4) + (seq![78u8] + tuple_bytes(new))))
            == Ok::<MsgView, Seq<char>>(MsgView::Update { rel_id, old: None, new: meanings(new) }),
{
    let b = seq![85u8] + (be_bytes(rel_id, 4) + (seq![78u8] + tuple_bytes(new)));
    lemma_change(b, 85, rel_id, 78, tuple_bytes(new));
    lemma_tuple(b, 6, new);
}

/// An Update message with an old row or its key is read back: tag `U`, the
/// relation, `O` or `K` and the old row, `N` and the new one.
pub proof fn update_with_old_is_read_back(
    rel_id: nat,
    kind: u8,
    before: Seq<Sent>,
    new: Seq<Sent>,
)
    requires
        rel_id < 0x1_0000_0000,
        kind == 79 || kind == 75,
        sendable(before),
        sendable(new),
    ensures
        pgoutput::pgoutput_spec(
            seq![85u8] + (be_bytes(rel_id, 4) + (seq![kind] + (tuple_bytes(before) + (seq![78u8]
                + tuple_bytes(new))))),
        ) == Ok::<MsgView, Seq<char>>(
            MsgView::Update { rel_id, old: Some(meanings(before)), new: meanings(new) },
        ),
{
    let (x, y) = (tuple_bytes(before), seq![78u8] + tuple_bytes(new));
    let b = seq![85u8] + (be_bytes(rel_id, 4) + (seq![kind] + (x + y)));
    lemma_change(b, 85, rel_id, kind, x + y);
    lemma_holds_parts(b, 6, x, y);
    lemma_tuple(b, 6, before);
    let p = 6int + x.len();
    lemma_holds_parts(b, p, seq![78u8], tuple_bytes(new));
    assert(b[p + 0] == seq![78u8][0]);
    lemma_tuple(b, p + 1, new);
}

// ----------------------------------------------------------------- relations

/// A text without NUL, and the NUL behind it.
pub open spec fn cstr_bytes(t: Seq<u8>) -> Seq<u8> {
    t.push(0)
}

/// No NUL in the text.
pub open spec fn no_nul(t: Seq<u8>) -> bool {
    forall|i: int| 0 <= i < t.len() ==> #[trigger] t[i] != 0
}

/// The NUL behind a text is the first from anywhere in it.
pub proof fn lemma_nul(b: Seq<u8>, at: int, t: Seq<u8>, i: int)
    requires
        holds(b, at, cstr_bytes(t)),
        no_nul(t),
        0 <= i <= t.len(),
    ensures
        bytes::nul_at(b, at + i) == Some(at + t.len()),
    decreases t.len() - i,
{
    assert(b[at + i] == cstr_bytes(t)[i]);
    if i < t.len() {
        assert(t[i] != 0);
        lemma_nul(b, at, t, i + 1);
    }
}

proof fn lemma_cstr(b: Seq<u8>, at: int, t: Seq<u8>)
    requires
        holds(b, at, cstr_bytes(t)),
        no_nul(t),
    ensures
        pgoutput::cstr_at(b, at) == Ok::<(Seq<char>, int), Seq<char>>(
            (text::lossy_utf8(t), at + t.len() + 1),
        ),
{
    lemma_nul(b, at, t, 0);
    assert(b.subrange(at, at + t.len()) =~= t) by {
        assert forall|i: int| 0 <= i < t.len() implies b[at + i] == #[trigger] t[i] by {
            assert(b[at + i] == cstr_bytes(t)[i]);
        }
    }
}

/// A column of a relation: flags, name, type and modifier.
pub struct Described {
    pub flags: u8,
    pub name: Seq<u8>,
    pub kind: nat,
    pub modifier: nat,
}

/// The bytes of the columns of a relation.
pub open spec fn described_bytes(cs: Seq<Described>) -> Seq<u8>
    decreases cs.len(),
{
    if cs.len() == 0 {
        Seq::empty()
    } else {
        (seq![cs[0].flags] + (cstr_bytes(cs[0].name) + (be_bytes(cs[0].kind, 4) + be_bytes(
            cs[0].modifier,
            4,
        )))) + described_bytes(cs.drop_first())
    }
}

/// The names of the columns.
pub open spec fn names(cs: Seq<Described>) -> Seq<Seq<char>> {
    Seq::new(cs.len(), |i: int| text::lossy_utf8(cs[i].name))
}

/// Columns that can be described.
pub open spec fn describable(cs: Seq<Described>) -> bool {
    forall|i: int|
        0 <= i < cs.len() ==> no_nul((#[trigger] cs[i]).name) && cs[i].kind < 0x1_0000_0000
            && cs[i].modifier < 0x1_0000_0000
}

proof fn lemma_columns(b: Seq<u8>, at: int, cs: Seq<Described>, acc: Seq<Seq<char>>)
    requires
        holds(b, at, described_bytes(cs)),
        describable(cs),
    ensures
        pgoutput::columns_from(b, at, cs.len(), acc) == Ok::<Seq<Seq<char>>, Seq<char>>(
            acc + names(cs),
        ),
    decreases cs.len(),
{
    if cs.len() == 0 {
        assert(acc + names(cs) =~= acc);
    } else {
        bytes::lemma_pow256();
        let c = cs[0];
        let rest = cs.drop_first();
        assert(describable(rest)) by {
            assert forall|i: int| 0 <= i < rest.len() implies no_nul((#[trigger] rest[i]).name)
                && rest[i].kind < 0x1_0000_0000 && rest[i].modifier < 0x1_0000_0000 by {
                assert(rest[i] == cs[i + 1]);
            }
        }
        let (x, y) = (cstr_bytes(c.name), be_bytes(c.kind, 4) + be_bytes(c.modifier, 4));
        bytes::be_round_trip(c.kind, 4);
        bytes::be_round_trip(c.modifier, 4);
        let head = seq![c.flags] + (x + y);
        lemma_holds_parts(b, at, head, described_bytes(rest));
        lemma_holds_parts(b, at, seq![c.flags], x + y);
        lemma_holds_parts(b, at + 1, x, y);
        lemma_cstr(b, at + 1, c.name);
        lemma_columns(b, at + head.len(), rest, acc.push(text::lossy_utf8(c.name)));
        assert(acc.push(text::lossy_utf8(c.name)) + names(rest) =~= acc + names(cs));
    }
}

/// A Relation message is read back: tag `R`, the relation, its namespace and
/// name, the replica identity, how many columns, and the columns.
pub proof fn relation_is_read_back(
    rel_id: nat,
    namespace: Seq<u8>,
    name: Seq<u8>,
    replica_identity: u8,
    cs: Seq<Described>,
)
    requires
        rel_id < 0x1_0000_0000,
        no_nul(namespace),
        no_nul(name),
        describable(cs),
        cs.len() < 0x1_0000,
    ensures
        pgoutput::pgoutput_spec(
            seq![82u8] + (be_bytes(rel_id, 4) + (cstr_bytes(namespace) + (cstr_bytes(name) + (
            seq![replica_identity] + (be_bytes(cs.len(), 2) + described_bytes(cs)))))),
        ) == Ok::<MsgView, Seq<char>>(
            MsgView::Relation {
                rel_id,
                namespace: text::lossy_utf8(namespace),
                name: text::lossy_utf8(name),
                replica_identity,
                columns: names(cs),
            },
        ),
{
    bytes::lemma_pow256();
    bytes::be_round_trip(rel_id, 4);
    bytes::be_round_trip(cs.len(), 2);
    let z = be_bytes(cs.len(), 2) + described_bytes(cs);
    let y = seq![replica_identity] + z;
    let x = cstr_bytes(name) + y;
    let w = cstr_bytes(namespace) + x;
    let b = seq![82u8] + (be_bytes(rel_id, 4) + w);
    lemma_holds_parts(b, 0, seq![82u8], be_bytes(rel_id, 4) + w);
    lemma_holds_parts(b, 1, be_bytes(rel_id, 4), w);
    lemma_holds_parts(b, 5, cstr_bytes(namespace), x);
    lemma_cstr(b, 5, namespace);
    let p = 5int + namespace.len() + 1;
    lemma_holds_parts(b, p, cstr_bytes(name), y);
    lemma_cstr(b, p, name);
    let q: int = p + name.len() + 1;
    lemma_holds_parts(b, q, seq![replica_identity], z);
    assert(b[q + 0] == seq![replica_identity][0]);
    lemma_holds_parts(b, q + 1, be_bytes(cs.len(), 2), described_bytes(cs));
    lemma_num(b, q + 1, cs.len(), 2);
    lemma_num(b, 1, rel_id, 4);
    lemma_columns(b, q + 3, cs, Seq::empty());
    assert(Seq::<Seq<char>>::empty() + names(cs) =~= names(cs));
    assert(b[0] == 82);
}

// -------------------------------------------------------------------- stream

/// WAL data is read back: tag `w`, where the data starts and where the WAL
/// ends, a time that is passed over, and the message.
pub proof fn wal_data_is_read_back(wal_start: nat, wal_end: nat, sent: nat, body: Seq<u8>)
    requires
        wal_start < 0x1_0000_0000_0000_0000,
        wal_end < 0x1_0000_0000_0000_0000,
        sent < 0x1_0000_0000_0000_0000,
    ensures
        pgoutput::wal_spec(
            seq![119u8] + (be_bytes(wal_start, 8) + (be_bytes(wal_end, 8) + (be_bytes(sent, 8)
                + body))),
        ) == (match pgoutput::pgoutput_spec(body) {
            Ok(msg) => Ok::<WalView, Seq<char>>(WalView::XLogData { wal_start, wal_end, msg }),
            Err(e) => Err(e),
        }),
{
    bytes::lemma_pow256();
    bytes::be_round_trip(wal_start, 8);
    bytes::be_round_trip(wal_end, 8);
    bytes::be_round_trip(sent, 8);
    let (x, y, z) = (be_bytes(wal_start, 8), be_bytes(wal_end, 8), be_bytes(sent, 8) + body);
    let b = seq![119u8] + (x + (y + z));
    lemma_holds_parts(b, 0, seq![119u8], x + (y + z));
    lemma_holds_parts(b, 1, x, y + z);
    lemma_holds_parts(b, 9, y, z);
    lemma_num(b, 1, wal_start, 8);
    lemma_num(b, 9, wal_end, 8);
    assert(b.skip(25) =~= body);
    assert(b[0] == 119);
}

/// A keepalive is read back: tag `k`, the end of the WAL, a time that is
/// passed over, and whether an answer is wanted.
pub proof fn keepalive_is_read_back(wal_end: nat, sent: nat, reply: u8)
    requires
        wal_end < 0x1_0000_0000_0000_0000,
        sent < 0x1_0000_0000_0000_0000,
    ensures
        pgoutput::wal_spec(
            seq![107u8] + (be_bytes(wal_end, 8) + (be_bytes(sent, 8) + seq![reply])),
        ) == Ok::<WalView, Seq<char>>(WalView::Keepalive { wal_end, reply_requested: reply != 0 }),
{
    bytes::lemma_pow256();
    bytes::be_round_trip(wal_end, 8);
    bytes::be_round_trip(sent, 8);
    let (x, y) = (be_bytes(wal_end, 8), be_bytes(sent, 8));
    let b = seq![107u8] + (x + (y + seq![reply]));
    lemma_holds_parts(b, 0, seq![107u8], x + (y + seq![reply]));
    lemma_holds_parts(b, 1, x, y + seq![reply]);
    lemma_num(b, 1, wal_end, 8);
    assert(b[0] == 107);
    assert(b[17] == reply);
}

} // verus!

//! pgoutput (logical replication output plugin) message decoding,
//! protocol version 1, plus the replication-stream envelope (XLogData
//! / primary keepalive). Text tuple format only.

use vstd::prelude::*;

use crate::bytes;
use crate::bytes::{find_nul, read_be, to_i32, to_i64};
use crate::error;
use crate::error::{CdcError, CdcErrorView};
use crate::text;
use crate::text::{char_debug, join3, owned, utf8_lossy};

verus! {

/// Tuple column marker: SQL NULL (`'n'`)
pub const MARK_NULL: u8 = 110;

/// Tuple column marker: unchanged TOAST (`'u'`)
pub const MARK_UNCHANGED: u8 = 117;

/// Tuple column marker: length-prefixed text (`'t'`)
pub const MARK_TEXT: u8 = 116;

/// Tuple marker: the new row (`'N'`)
pub const TUPLE_NEW: u8 = 78;

/// Tuple marker: the full old row (`'O'`)
pub const TUPLE_OLD: u8 = 79;

/// Tuple marker: the key columns of the old row (`'K'`)
pub const TUPLE_KEY: u8 = 75;

/// Message tag: Begin (`'B'`)
pub const TAG_BEGIN: u8 = 66;

/// Message tag: Commit (`'C'`)
pub const TAG_COMMIT: u8 = 67;

/// Message tag: Relation (`'R'`)
pub const TAG_RELATION: u8 = 82;

/// Message tag: Insert (`'I'`)
pub const TAG_INSERT: u8 = 73;

/// Message tag: Delete (`'D'`)
pub const TAG_DELETE: u8 = 68;

/// Message tag: Update (`'U'`)
pub const TAG_UPDATE: u8 = 85;

/// Stream payload tag: WAL data (`'w'`)
pub const STREAM_DATA: u8 = 119;

/// Stream payload tag: primary keepalive (`'k'`)
pub const STREAM_KEEPALIVE: u8 = 107;

/// One replication-stream CopyData payload, decoded.
#[derive(Debug)]
pub enum WalMsg {
    /// A WAL data payload carrying one pgoutput message.
    XLogData {
        /// Start LSN of the payload.
        wal_start: u64,
        /// Current end of WAL on the server.
        wal_end: u64,
        /// The decoded pgoutput message.
        msg: PgoutputMsg,
    },
    /// Primary keepalive; `reply_requested` demands an immediate
    /// standby status update (else the walsender disconnects).
    Keepalive {
        /// Current end of WAL on the server.
        wal_end: u64,
        /// True iff the server asked for an immediate status reply.
        reply_requested: bool,
    },
}

/// One column of TupleData, with the three wire markers kept distinct:
/// `Null` is SQL NULL (`'n'`), `Unchanged` is the unchanged-TOAST marker
/// (`'u'`), `Text` is a materialized value (`'t'`).
#[derive(Debug, Clone, PartialEq, Eq)]
pub enum TupleDatum {
    /// SQL NULL (`'n'`).
    Null,
    /// Unchanged TOAST datum (`'u'`): resolve from the mirror.
    Unchanged,
    /// Materialized text value (`'t'`).
    Text(String),
}

/// A datum as a mathematical value.
pub enum DatumView {
    Null,
    Unchanged,
    Text(Seq<char>),
}

impl View for TupleDatum {
    type V = DatumView;

    open spec fn view(&self) -> DatumView {
        match self {
            TupleDatum::Null => DatumView::Null,
            TupleDatum::Unchanged => DatumView::Unchanged,
            TupleDatum::Text(t) => DatumView::Text(t@),
        }
    }
}

impl TupleDatum {
    /// A materialized datum with text `v`.
    pub fn text(v: &str) -> (r: Self)
        ensures
            r@ == DatumView::Text(v@),
    {
        TupleDatum::Text(owned(v))
    }
}

/// The datums of a tuple.
pub open spec fn datums(v: Seq<TupleDatum>) -> Seq<DatumView> {
    Seq::new(v.len(), |i: int| v[i]@)
}

/// The texts of a list of strings.
pub open spec fn texts(v: Seq<String>) -> Seq<Seq<char>> {
    Seq::new(v.len(), |i: int| v[i]@)
}

/// One decoded pgoutput message.
#[derive(Debug)]
#[allow(inconsistent_fields)]
pub enum PgoutputMsg {
    /// Transaction start.
    Begin {
        /// LSN of the commit record this transaction ends at.
        final_lsn: u64,
        /// Commit timestamp, microseconds since the PG epoch.
        commit_ts_us: i64,
        /// Transaction id.
        xid: u32,
    },
    /// Transaction end.
    Commit {
        /// End LSN of the commit record + 1 (the ack point).
        end_lsn: u64,
        /// Commit timestamp, microseconds since the PG epoch.
        commit_ts_us: i64,
    },
    /// Relation metadata; sent before the first change of a relation
    /// on a connection (and again on schema change).
    Relation {
        /// Relation OID (keys Insert/Delete/Update messages).
        rel_id: u32,
        /// Schema name.
        namespace: String,
        /// Relation name.
        name: String,
        /// Replica identity byte: `'d'` default, `'n'` nothing, `'f'`
        /// full, `'i'` index.
        replica_identity: u8,
        /// Column names in tuple order.
        columns: Vec<String>,
    },
    /// Row insert: the new tuple.
    Insert {
        /// Relation OID.
        rel_id: u32,
        /// New tuple, datums in relation column order.
        new: Vec<TupleDatum>,
    },
    /// Row delete: the old tuple (full with REPLICA IDENTITY FULL,
    /// else key columns only).
    Delete {
        /// Relation OID.
        rel_id: u32,
        /// Old tuple, datums in relation column order.
        old: Vec<TupleDatum>,
    },
    /// Row update: optional old tuple + new tuple.
    Update {
        /// Relation OID.
        rel_id: u32,
        /// Old tuple if the update touched identity columns (or
        /// always, with REPLICA IDENTITY FULL).
        old: Option<Vec<TupleDatum>>,
        /// New tuple (may carry [`TupleDatum::Unchanged`]).
        new: Vec<TupleDatum>,
    },
    /// Any other message type (Origin, Type, Truncate, Message).
    Other(u8),
}

/// A pgoutput message as a mathematical value.
#[allow(inconsistent_fields)]
pub enum MsgView {
    Begin { final_lsn: nat, commit_ts_us: int, xid: nat },
    Commit { end_lsn: nat, commit_ts_us: int },
    Relation {
        rel_id: nat,
        namespace: Seq<char>,
        name: Seq<char>,
        replica_identity: u8,
        columns: Seq<Seq<char>>,
    },
    Insert { rel_id: nat, new: Seq<DatumView> },
    Delete { rel_id: nat, old: Seq<DatumView> },
    Update { rel_id: nat, old: Option<Seq<DatumView>>, new: Seq<DatumView> },
    Other(u8),
}

impl View for PgoutputMsg {
    type V = MsgView;

    open spec fn view(&self) -> MsgView {
        match self {
            PgoutputMsg::Begin { final_lsn, commit_ts_us, xid } => MsgView::Begin {
                final_lsn: *final_lsn as nat,
                commit_ts_us: *commit_ts_us as int,
                xid: *xid as nat,
            },
            PgoutputMsg::Commit { end_lsn, commit_ts_us } => MsgView::Commit {
                end_lsn: *end_lsn as nat,
                commit_ts_us: *commit_ts_us as int,
            },
            PgoutputMsg::Relation { rel_id, namespace, name, replica_identity, columns } =>
            MsgView::Relation {
                rel_id: *rel_id as nat,
                namespace: namespace@,
                name: name@,
                replica_identity: *replica_identity,
                columns: texts(columns@),
            },
            PgoutputMsg::Insert { rel_id, new } => MsgView::Insert {
                rel_id: *rel_id as nat,
                new: datums(new@),
            },
            PgoutputMsg::Delete { rel_id, old } => MsgView::Delete {
                rel_id: *rel_id as nat,
                old: datums(old@),
            },
            PgoutputMsg::Update { rel_id, old, new } => MsgView::Update {
                rel_id: *rel_id as nat,
                old: match old {
                    Some(o) => Some(datums(o@)),
                    None => None,
                },
                new: datums(new@),
            },
            PgoutputMsg::Other(t) => MsgView::Other(*t),
        }
    }
}

/// A stream payload as a mathematical value.
pub enum WalView {
    XLogData { wal_start: nat, wal_end: nat, msg: MsgView },
    Keepalive { wal_end: nat, reply_requested: bool },
}

impl View for WalMsg {
    type V = WalView;

    open spec fn view(&self) -> WalView {
        match self {
            WalMsg::XLogData { wal_start, wal_end, msg } => WalView::XLogData {
                wal_start: *wal_start as nat,
                wal_end: *wal_end as nat,
                msg: msg@,
            },
            WalMsg::Keepalive { wal_end, reply_requested } => WalView::Keepalive {
                wal_end: *wal_end as nat,
                reply_requested: *reply_requested,
            },
        }
    }
}

/// The complaint about a message that ends too early.
pub open spec fn short_text() -> Seq<char> {
    "short pgoutput message"@
}

/// The big-endian number in the `k` bytes from `at` on.
pub open spec fn num(b: Seq<u8>, at: int, k: int) -> nat {
    bytes::be_nat(b.subrange(at, at + k))
}

/// The NUL-terminated string at `at`, and the position behind it.
pub open spec fn cstr_at(b: Seq<u8>, at: int) -> Result<(Seq<char>, int), Seq<char>> {
    match bytes::nul_at(b, at) {
        Some(e) => Ok((text::lossy_utf8(b.subrange(at, e)), e + 1)),
        None => Err("unterminated string"@),
    }
}

/// One tuple column at `at`, and the position behind it.
pub open spec fn datum_at(b: Seq<u8>, at: int) -> Result<(DatumView, int), Seq<char>> {
    if at + 1 > b.len() {
        Err(short_text())
    } else if b[at] == MARK_NULL {
        Ok((DatumView::Null, at + 1))
    } else if b[at] == MARK_UNCHANGED {
        Ok((DatumView::Unchanged, at + 1))
    } else if b[at] != MARK_TEXT {
        Err(
            "tuple column kind "@ + text::debug_char(b[at] as char)
                + " (binary streams unsupported)"@,
        )
    } else if at + 5 > b.len() {
        Err(short_text())
    } else if bytes::as_i32(num(b, at + 1, 4)) < 0 {
        Err("negative tuple text length"@)
    } else if at + 5 + num(b, at + 1, 4) > b.len() {
        Err(short_text())
    } else {
        Ok(
            (
                DatumView::Text(
                    text::lossy_utf8(b.subrange(at + 5, at + 5 + num(b, at + 1, 4))),
                ),
                at + 5 + num(b, at + 1, 4),
            ),
        )
    }
}

/// The `n` tuple columns from `at` on, behind those already in `acc`.
pub open spec fn datums_from(b: Seq<u8>, at: int, n: nat, acc: Seq<DatumView>) -> Result<
    (Seq<DatumView>, int),
    Seq<char>,
>
    decreases n,
{
    if n == 0 {
        Ok((acc, at))
    } else {
        match datum_at(b, at) {
            Ok((d, next)) => datums_from(b, next, (n - 1) as nat, acc.push(d)),
            Err(e) => Err(e),
        }
    }
}

/// TupleData at `at`: a column count, then that many columns.
pub open spec fn tuple_at(b: Seq<u8>, at: int) -> Result<(Seq<DatumView>, int), Seq<char>> {
    if at + 2 > b.len() {
        Err(short_text())
    } else {
        datums_from(b, at + 2, num(b, at, 2), Seq::empty())
    }
}

/// The `n` relation columns from `at` on: flags, name, type, modifier.
pub open spec fn columns_from(b: Seq<u8>, at: int, n: nat, acc: Seq<Seq<char>>) -> Result<
    Seq<Seq<char>>,
    Seq<char>,
>
    decreases n,
{
    if n == 0 {
        Ok(acc)
    } else if at + 1 > b.len() {
        Err(short_text())
    } else {
        match cstr_at(b, at + 1) {
            Ok((name, next)) => if next + 8 > b.len() {
                Err(short_text())
            } else {
                columns_from(b, next + 8, (n - 1) as nat, acc.push(name))
            },
            Err(e) => Err(e),
        }
    }
}

/// What a Relation message says.
pub open spec fn relation_spec(b: Seq<u8>) -> Result<MsgView, Seq<char>> {
    if b.len() < 5 {
        Err(short_text())
    } else {
        match cstr_at(b, 5) {
            Err(e) => Err(e),
            Ok((namespace, p)) => match cstr_at(b, p) {
                Err(e) => Err(e),
                Ok((name, q)) => if q + 3 > b.len() {
                    Err(short_text())
                } else {
                    match columns_from(b, q + 3, num(b, q + 1, 2), Seq::empty()) {
                        Err(e) => Err(e),
                        Ok(columns) => Ok(
                            MsgView::Relation {
                                rel_id: num(b, 1, 4),
                                namespace,
                                name,
                                replica_identity: b[q],
                                columns,
                            },
                        ),
                    }
                },
            },
        }
    }
}

/// The complaint about a tuple marker other than the wanted ones.
pub open spec fn kind_text(what: Seq<char>, kind: u8, want: Seq<char>) -> Seq<char> {
    what + text::debug_char(kind as char) + want
}

/// What an Update message says, from its last tuple marker (at `at`) on.
pub open spec fn update_new_spec(b: Seq<u8>, at: int, old: Option<Seq<DatumView>>) -> Result<
    MsgView,
    Seq<char>,
> {
    if at + 1 > b.len() {
        Err(short_text())
    } else if b[at] != TUPLE_NEW {
        Err(kind_text("update tuple kind "@, b[at], ", want 'N'"@))
    } else {
        match tuple_at(b, at + 1) {
            Err(e) => Err(e),
            Ok((new, _)) => Ok(MsgView::Update { rel_id: num(b, 1, 4), old, new }),
        }
    }
}

/// What an Update message says.
pub open spec fn update_spec(b: Seq<u8>) -> Result<MsgView, Seq<char>> {
    if b.len() < 6 {
        Err(short_text())
    } else if b[5] == TUPLE_OLD || b[5] == TUPLE_KEY {
        match tuple_at(b, 6) {
            Err(e) => Err(e),
            Ok((old, p)) => update_new_spec(b, p, Some(old)),
        }
    } else {
        update_new_spec(b, 5, None)
    }
}

/// What a pgoutput message body says, or the complaint about it.
pub open spec fn pgoutput_spec(b: Seq<u8>) -> Result<MsgView, Seq<char>> {
    if b.len() == 0 {
        Err(short_text())
    } else if b[0] == TAG_BEGIN {
        if b.len() < 21 {
            Err(short_text())
        } else {
            Ok(
                MsgView::Begin {
                    final_lsn: num(b, 1, 8),
                    commit_ts_us: bytes::as_i64(num(b, 9, 8)),
                    xid: num(b, 17, 4),
                },
            )
        }
    } else if b[0] == TAG_COMMIT {
        if b.len() < 26 {
            Err(short_text())
        } else {
            Ok(
                MsgView::Commit {
                    end_lsn: num(b, 10, 8),
                    commit_ts_us: bytes::as_i64(num(b, 18, 8)),
                },
            )
        }
    } else if b[0] == TAG_RELATION {
        relation_spec(b)
    } else if b[0] == TAG_INSERT {
        if b.len() < 6 {
            Err(short_text())
        } else if b[5] != TUPLE_NEW {
            Err(kind_text("insert tuple kind "@, b[5], ", want 'N'"@))
        } else {
            match tuple_at(b, 6) {
                Err(e) => Err(e),
                Ok((new, _)) => Ok(MsgView::Insert { rel_id: num(b, 1, 4), new }),
            }
        }
    } else if b[0] == TAG_DELETE {
        if b.len() < 6 {
            Err(short_text())
        } else if b[5] != TUPLE_OLD && b[5] != TUPLE_KEY {
            Err(kind_text("delete tuple kind "@, b[5], ", want 'O'/'K'"@))
        } else {
            match tuple_at(b, 6) {
                Err(e) => Err(e),
                Ok((old, _)) => Ok(MsgView::Delete { rel_id: num(b, 1, 4), old }),
            }
        }
    } else if b[0] == TAG_UPDATE {
        update_spec(b)
    } else {
        Ok(MsgView::Other(b[0]))
    }
}

/// What a stream payload says, or the complaint about it.
pub open spec fn wal_spec(b: Seq<u8>) -> Result<WalView, Seq<char>> {
    if b.len() == 0 {
        Err(short_text())
    } else if b[0] == STREAM_DATA {
        if b.len() < 25 {
            Err(short_text())
        } else {
            match pgoutput_spec(b.skip(25)) {
                Err(e) => Err(e),
                Ok(msg) => Ok(
                    WalView::XLogData { wal_start: num(b, 1, 8), wal_end: num(b, 9, 8), msg },
                ),
            }
        }
    } else if b[0] == STREAM_KEEPALIVE {
        if b.len() < 18 {
            Err(short_text())
        } else {
            Ok(WalView::Keepalive { wal_end: num(b, 1, 8), reply_requested: b[17] != 0 })
        }
    } else {
        Err("unknown stream message "@ + text::debug_char(b[0] as char))
    }
}

/// An outcome and its mathematical counterpart agree.
pub open spec fn agrees<T: View>(r: Result<T, CdcError>, s: Result<T::V, Seq<char>>) -> bool {
    match s {
        Ok(v) => r matches Ok(t) && t@ == v,
        Err(text) => error::decode_err(r, text),
    }
}

struct Cursor<'a> {
    buf: &'a [u8],
    pos: usize,
}

impl<'a> Cursor<'a> {
    spec fn wf(self) -> bool {
        self.pos <= self.buf@.len()
    }

    fn new(buf: &'a [u8]) -> (r: Self)
        ensures
            r.wf(),
            r.buf == buf,
            r.pos == 0,
    {
        Cursor { buf, pos: 0 }
    }

    /// Steps over `n` bytes.
    fn advance(&mut self, n: usize) -> (r: Result<usize, CdcError>)
        requires
            old(self).wf(),
        ensures
            final(self).wf(),
            final(self).buf == old(self).buf,
            match r {
                Ok(at) => at == old(self).pos && final(self).pos == at + n,
                Err(e) => old(self).pos + n > old(self).buf@.len()
                    && e@ == CdcErrorView::Decode(short_text()),
            },
    {
        if n > self.buf.len() - self.pos {
            return Err(CdcError::Decode(owned("short pgoutput message")));
        }
        let at: usize = self.pos;
        self.pos = self.pos + n;
        Ok(at)
    }

    /// Reads a big-endian number of `k` bytes.
    fn number(&mut self, k: usize) -> (r: Result<u64, CdcError>)
        requires
            old(self).wf(),
            k <= 8,
        ensures
            final(self).wf(),
            final(self).buf == old(self).buf,
            match r {
                Ok(v) => final(self).pos == old(self).pos + k && v == num(
                    old(self).buf@,
                    old(self).pos as int,
                    k as int,
                ) && v < bytes::pow256(k as nat),
                Err(e) => old(self).pos + k > old(self).buf@.len()
                    && e@ == CdcErrorView::Decode(short_text()),
            },
    {
        let at: usize = self.advance(k)?;
        Ok(read_be(self.buf, at, k))
    }

    /// Reads one byte.
    fn byte(&mut self) -> (r: Result<u8, CdcError>)
        requires
            old(self).wf(),
        ensures
            final(self).wf(),
            final(self).buf == old(self).buf,
            match r {
                Ok(v) => final(self).pos == old(self).pos + 1 && v == old(
                    self,
                ).buf@[old(self).pos as int],
                Err(e) => old(self).pos + 1 > old(self).buf@.len()
                    && e@ == CdcErrorView::Decode(short_text()),
            },
    {
        let at: usize = self.advance(1)?;
        Ok(self.buf[at])
    }

    /// Reads a four-byte unsigned number.
    fn u32(&mut self) -> (r: Result<u32, CdcError>)
        requires
            old(self).wf(),
        ensures
            final(self).wf(),
            final(self).buf == old(self).buf,
            match r {
                Ok(v) => final(self).pos == old(self).pos + 4 && v == num(
                    old(self).buf@,
                    old(self).pos as int,
                    4,
                ),
                Err(e) => old(self).pos + 4 > old(self).buf@.len()
                    && e@ == CdcErrorView::Decode(short_text()),
            },
    {
        let v: u64 = self.number(4)?;
        proof {
            bytes::lemma_pow256();
        }
        Ok(v as u32)
    }

    /// Reads a NUL-terminated string.
    fn cstr(&mut self) -> (r: Result<String, CdcError>)
        requires
            old(self).wf(),
        ensures
            final(self).wf(),
            final(self).buf == old(self).buf,
            match cstr_at(old(self).buf@, old(self).pos as int) {
                Ok((s, next)) => r matches Ok(t) && t@ == s && final(self).pos == next,
                Err(text) => error::decode_err(r, text),
            },
    {
        match find_nul(self.buf, self.pos) {
            Some(end) => {
                let s = utf8_lossy(&self.buf[self.pos..end]);
                self.pos = end + 1;
                Ok(s)
            },
            None => Err(CdcError::Decode(owned("unterminated string"))),
        }
    }

    /// Reads one tuple column.
    fn datum(&mut self) -> (r: Result<TupleDatum, CdcError>)
        requires
            old(self).wf(),
        ensures
            final(self).wf(),
            final(self).buf == old(self).buf,
            match datum_at(old(self).buf@, old(self).pos as int) {
                Ok((d, next)) => r matches Ok(t) && t@ == d && final(self).pos == next,
                Err(text) => error::decode_err(r, text),
            },
    {
        let kind: u8 = self.byte()?;
        if kind == MARK_NULL {
            Ok(TupleDatum::Null)
        } else if kind == MARK_UNCHANGED {
            Ok(TupleDatum::Unchanged)
        } else if kind == MARK_TEXT {
            let raw: u64 = self.number(4)?;
            proof {
                bytes::lemma_pow256();
            }
            let len: i32 = to_i32(raw);
            if len < 0 {
                return Err(CdcError::Decode(owned("negative tuple text length")));
            }
            let n: usize = len as usize;
            let at: usize = self.advance(n)?;
            Ok(TupleDatum::Text(utf8_lossy(&self.buf[at..at + n])))
        } else {
            Err(
                CdcError::Decode(
                    join3(
                        "tuple column kind ",
                        char_debug(kind as char).as_str(),
                        " (binary streams unsupported)",
                    ),
                ),
            )
        }
    }

    /// Reads TupleData.
    fn tuple(&mut self) -> (r: Result<Vec<TupleDatum>, CdcError>)
        requires
            old(self).wf(),
        ensures
            final(self).wf(),
            final(self).buf == old(self).buf,
            match tuple_at(old(self).buf@, old(self).pos as int) {
                Ok((ds, next)) => r matches Ok(t) && datums(t@) == ds && final(self).pos == next,
                Err(text) => error::decode_err(r, text),
            },
    {
        let raw: u64 = self.number(2)?;
        proof {
            bytes::lemma_pow256();
        }
        let n: usize = raw as usize;
        let ghost start = self.pos as int;
        let mut cols: Vec<TupleDatum> = Vec::with_capacity(n);
        let mut i: usize = 0;
        assert(datums(cols@) =~= Seq::<DatumView>::empty());
        while i < n
            invariant
                i <= n,
                self.wf(),
                self.buf == old(self).buf,
                datums_from(self.buf@, start, n as nat, Seq::empty()) == datums_from(
                    self.buf@,
                    self.pos as int,
                    (n - i) as nat,
                    datums(cols@),
                ),
                tuple_at(old(self).buf@, old(self).pos as int) == datums_from(
                    self.buf@,
                    start,
                    n as nat,
                    Seq::empty(),
                ),
            decreases n - i,
        {
            let ghost before = datums(cols@);
            let d = self.datum()?;
            cols.push(d);
            i += 1;
            assert(datums(cols@) =~= before.push(d@));
        }
        Ok(cols)
    }

    /// Reads the column list of a Relation message.
    fn columns(&mut self, n: usize) -> (r: Result<Vec<String>, CdcError>)
        requires
            old(self).wf(),
        ensures
            match columns_from(old(self).buf@, old(self).pos as int, n as nat, Seq::empty()) {
                Ok(cs) => r matches Ok(t) && texts(t@) == cs,
                Err(text) => error::decode_err(r, text),
            },
    {
        let mut cols: Vec<String> = Vec::new();
        let mut i: usize = 0;
        assert(texts(cols@) =~= Seq::<Seq<char>>::empty());
        while i < n
            invariant
                i <= n,
                self.wf(),
                self.buf == old(self).buf,
                columns_from(old(self).buf@, old(self).pos as int, n as nat, Seq::empty())
                    == columns_from(
                    self.buf@,
                    self.pos as int,
                    (n - i) as nat,
                    texts(cols@),
                ),
            decreases n - i,
        {
            let ghost before = texts(cols@);
            let _flags: u8 = self.byte()?;
            let name = self.cstr()?;
            let _type_and_modifier: usize = self.advance(8)?;
            cols.push(name);
            i += 1;
            assert(texts(cols@) =~= before.push(name@));
        }
        Ok(cols)
    }
}

/// Decode one CopyData payload from the replication stream.
pub fn decode_wal(payload: &[u8]) -> (r: Result<WalMsg, CdcError>)
    ensures
        agrees(r, wal_spec(payload@)),
{
    let mut c = Cursor::new(payload);
    let tag: u8 = c.byte()?;
    if tag == STREAM_DATA {
        let wal_start: u64 = c.number(8)?;
        let wal_end: u64 = c.number(8)?;
        let _send_ts: usize = c.advance(8)?;
        let rest = &payload[c.pos..payload.len()];
        assert(rest@ =~= payload@.skip(25));
        let msg = decode_pgoutput(rest)?;
        Ok(WalMsg::XLogData { wal_start, wal_end, msg })
    } else if tag == STREAM_KEEPALIVE {
        let wal_end: u64 = c.number(8)?;
        let _send_ts: usize = c.advance(8)?;
        let reply: u8 = c.byte()?;
        Ok(WalMsg::Keepalive { wal_end, reply_requested: reply != 0 })
    } else {
        let text = join3("unknown stream message ", char_debug(tag as char).as_str(), "");
        proof {
            reveal_strlit("");
            assert(text@ =~= "unknown stream message "@ + text::debug_char(tag as char));
        }
        Err(CdcError::Decode(text))
    }
}

/// The error for a tuple marker other than the wanted ones.
fn kind_err(what: &str, kind: u8, want: &str) -> (e: CdcError)
    ensures
        e@ == CdcErrorView::Decode(kind_text(what@, kind, want@)),
{
    CdcError::Decode(join3(what, char_debug(kind as char).as_str(), want))
}

/// Decode one pgoutput message body.
pub fn decode_pgoutput(buf: &[u8]) -> (r: Result<PgoutputMsg, CdcError>)
    ensures
        agrees(r, pgoutput_spec(buf@)),
{
    let mut c = Cursor::new(buf);
    let tag: u8 = c.byte()?;
    if tag == TAG_BEGIN {
        let final_lsn: u64 = c.number(8)?;
        let ts: u64 = c.number(8)?;
        let xid: u32 = c.u32()?;
        Ok(PgoutputMsg::Begin { final_lsn, commit_ts_us: to_i64(ts), xid })
    } else if tag == TAG_COMMIT {
        let _flags: u8 = c.byte()?;
        let _commit_lsn: u64 = c.number(8)?;
        let end_lsn: u64 = c.number(8)?;
        let ts: u64 = c.number(8)?;
        Ok(PgoutputMsg::Commit { end_lsn, commit_ts_us: to_i64(ts) })
    } else if tag == TAG_RELATION {
        let rel_id: u32 = c.u32()?;
        let namespace = c.cstr()?;
        let name = c.cstr()?;
        let replica_identity: u8 = c.byte()?;
        let ncols: u64 = c.number(2)?;
        proof {
            bytes::lemma_pow256();
        }
        let columns = c.columns(ncols as usize)?;
        Ok(PgoutputMsg::Relation { rel_id, namespace, name, replica_identity, columns })
    } else if tag == TAG_INSERT {
        let rel_id: u32 = c.u32()?;
        let kind: u8 = c.byte()?;
        if kind != TUPLE_NEW {
            return Err(kind_err("insert tuple kind ", kind, ", want 'N'"));
        }
        let new = c.tuple()?;
        Ok(PgoutputMsg::Insert { rel_id, new })
    } else if tag == TAG_DELETE {
        let rel_id: u32 = c.u32()?;
        let kind: u8 = c.byte()?;
        if kind != TUPLE_OLD && kind != TUPLE_KEY {
            return Err(kind_err("delete tuple kind ", kind, ", want 'O'/'K'"));
        }
        let old = c.tuple()?;
        Ok(PgoutputMsg::Delete { rel_id, old })
    } else if tag == TAG_UPDATE {
        let rel_id: u32 = c.u32()?;
        let mut kind: u8 = c.byte()?;
        let mut before: Option<Vec<TupleDatum>> = None;
        if kind == TUPLE_OLD || kind == TUPLE_KEY {
            let t = c.tuple()?;
            before = Some(t);
            kind = c.byte()?;
        }
        if kind != TUPLE_NEW {
            return Err(kind_err("update tuple kind ", kind, ", want 'N'"));
        }
        let new = c.tuple()?;
        Ok(PgoutputMsg::Update { rel_id, old: before, new })
    } else {
        Ok(PgoutputMsg::Other(tag))
    }
}

// --------------------------------------------------------------------- laws

proof fn lemma_longer_num(b: Seq<u8>, e: Seq<u8>, at: int, k: int)
    requires
        0 <= at,
        0 <= k,
        at + k <= b.len(),
    ensures
        num(b + e, at, k) == num(b, at, k),
{
    assert((b + e).subrange(at, at + k) =~= b.subrange(at, at + k));
}

proof fn lemma_longer_nul(b: Seq<u8>, e: Seq<u8>, at: int)
    requires
        0 <= at,
        bytes::nul_at(b, at) is Some,
    ensures
        bytes::nul_at(b + e, at) == bytes::nul_at(b, at),
        at <= bytes::nul_at(b, at)->0 < b.len(),
    decreases b.len() - at,
{
    assert((b + e)[at] == b[at]);
    if b[at] != 0 {
        lemma_longer_nul(b, e, at + 1);
    }
}

proof fn lemma_longer_cstr(b: Seq<u8>, e: Seq<u8>, at: int)
    requires
        0 <= at,
        cstr_at(b, at) is Ok,
    ensures
        cstr_at(b + e, at) == cstr_at(b, at),
        at < cstr_at(b, at)->Ok_0.1 <= b.len(),
{
    lemma_longer_nul(b, e, at);
    let n = bytes::nul_at(b, at)->0;
    assert((b + e).subrange(at, n) =~= b.subrange(at, n));
}

proof fn lemma_longer_datum(b: Seq<u8>, e: Seq<u8>, at: int)
    requires
        0 <= at,
        datum_at(b, at) is Ok,
    ensures
        datum_at(b + e, at) == datum_at(b, at),
        at < datum_at(b, at)->Ok_0.1 <= b.len(),
{
    assert((b + e)[at] == b[at]);
    if b[at] == MARK_TEXT {
        lemma_longer_num(b, e, at + 1, 4);
        let end = at + 5 + num(b, at + 1, 4);
        assert((b + e).subrange(at + 5, end) =~= b.subrange(at + 5, end));
    }
}

proof fn lemma_longer_datums(b: Seq<u8>, e: Seq<u8>, at: int, n: nat, acc: Seq<DatumView>)
    requires
        0 <= at <= b.len(),
        datums_from(b, at, n, acc) is Ok,
    ensures
        datums_from(b + e, at, n, acc) == datums_from(b, at, n, acc),
        at <= datums_from(b, at, n, acc)->Ok_0.1 <= b.len(),
    decreases n,
{
    if n > 0 {
        lemma_longer_datum(b, e, at);
        let (d, next) = datum_at(b, at)->Ok_0;
        lemma_longer_datums(b, e, next, (n - 1) as nat, acc.push(d));
    }
}

proof fn lemma_longer_tuple(b: Seq<u8>, e: Seq<u8>, at: int)
    requires
        0 <= at,
        tuple_at(b, at) is Ok,
    ensures
        tuple_at(b + e, at) == tuple_at(b, at),
        at <= tuple_at(b, at)->Ok_0.1 <= b.len(),
{
    lemma_longer_num(b, e, at, 2);
    lemma_longer_datums(b, e, at + 2, num(b, at, 2), Seq::empty());
}

proof fn lemma_longer_columns(b: Seq<u8>, e: Seq<u8>, at: int, n: nat, acc: Seq<Seq<char>>)
    requires
        0 <= at,
        columns_from(b, at, n, acc) is Ok,
    ensures
        columns_from(b + e, at, n, acc) == columns_from(b, at, n, acc),
    decreases n,
{
    if n > 0 {
        lemma_longer_cstr(b, e, at + 1);
        let (name, next) = cstr_at(b, at + 1)->Ok_0;
        lemma_longer_columns(b, e, next + 8, (n - 1) as nat, acc.push(name));
    }
}

proof fn lemma_longer_update_new(b: Seq<u8>, e: Seq<u8>, at: int, before: Option<Seq<DatumView>>)
    requires
        5 <= at,
        update_new_spec(b, at, before) is Ok,
    ensures
        update_new_spec(b + e, at, before) == update_new_spec(b, at, before),
{
    assert((b + e)[at] == b[at]);
    lemma_longer_num(b, e, 1, 4);
    lemma_longer_tuple(b, e, at + 1);
}

/// A message that decodes says the same whatever follows it.
pub proof fn bytes_behind_a_message_are_ignored(b: Seq<u8>, e: Seq<u8>)
    requires
        pgoutput_spec(b) is Ok,
    ensures
        pgoutput_spec(b + e) == pgoutput_spec(b),
{
    let c = b + e;
    assert(c[0] == b[0]);
    if b[0] == TAG_BEGIN {
        lemma_longer_num(b, e, 1, 8);
        lemma_longer_num(b, e, 9, 8);
        lemma_longer_num(b, e, 17, 4);
    } else if b[0] == TAG_COMMIT {
        lemma_longer_num(b, e, 10, 8);
        lemma_longer_num(b, e, 18, 8);
    } else if b[0] == TAG_RELATION {
        lemma_longer_num(b, e, 1, 4);
        lemma_longer_cstr(b, e, 5);
        let p = cstr_at(b, 5)->Ok_0.1;
        lemma_longer_cstr(b, e, p);
        let q = cstr_at(b, p)->Ok_0.1;
        lemma_longer_num(b, e, q + 1, 2);
        assert(c[q] == b[q]);
        lemma_longer_columns(b, e, q + 3, num(b, q + 1, 2), Seq::empty());
    } else if b[0] == TAG_INSERT || b[0] == TAG_DELETE {
        assert(c[5] == b[5]);
        lemma_longer_num(b, e, 1, 4);
        lemma_longer_tuple(b, e, 6);
    } else if b[0] == TAG_UPDATE {
        assert(c[5] == b[5]);
        if b[5] == TUPLE_OLD || b[5] == TUPLE_KEY {
            lemma_longer_tuple(b, e, 6);
            let (before, p) = tuple_at(b, 6)->Ok_0;
            lemma_longer_update_new(b, e, p, Some(before));
        } else {
            lemma_longer_update_new(b, e, 5, None);
        }
    }
}

/// A message decodes from its first `n` bytes on, and from no fewer.
pub open spec fn decodes_from(b: Seq<u8>, n: int) -> bool {
    &&& 1 <= n <= b.len()
    &&& forall|k: int| n <= k <= b.len() ==> #[trigger] pgoutput_spec(b.take(k)) == pgoutput_spec(b)
    &&& forall|k: int| 0 <= k < n ==> #[trigger] pgoutput_spec(b.take(k)) is Err
}

/// A message that decodes has a length of its own: with at least so many
/// bytes it decodes the same, and with fewer it is refused.
pub proof fn cut_off_messages_are_refused(b: Seq<u8>)
    requires
        pgoutput_spec(b) is Ok,
    ensures
        exists|n: int| decodes_from(b, n),
{
    assert(b.take(b.len() as int) =~= b);
    let n = lemma_shortest(b, b.len() as int);
    assert forall|k: int| n <= k <= b.len() implies #[trigger] pgoutput_spec(b.take(k))
        == pgoutput_spec(b) by {
        let (x, y) = (b.take(n), b.subrange(n, k));
        assert(x + y =~= b.take(k));
        bytes_behind_a_message_are_ignored(x, y);
        assert(x + b.skip(n) =~= b);
        bytes_behind_a_message_are_ignored(x, b.skip(n));
    }
    assert(decodes_from(b, n));
}

proof fn lemma_shortest(b: Seq<u8>, k: int) -> (n: int)
    requires
        0 <= k <= b.len(),
        pgoutput_spec(b.take(k)) is Ok,
    ensures
        1 <= n <= k,
        pgoutput_spec(b.take(n)) is Ok,
        forall|j: int| 0 <= j < n ==> #[trigger] pgoutput_spec(b.take(j)) is Err,
    decreases k,
{
    if exists|j: int| 0 <= j < k && #[trigger] pgoutput_spec(b.take(j)) is Ok {
        let j = choose|j: int| 0 <= j < k && #[trigger] pgoutput_spec(b.take(j)) is Ok;
        lemma_shortest(b, j)
    } else {
        k
    }
}

/// A stream payload that decodes says the same whatever follows it.
pub proof fn bytes_behind_a_payload_are_ignored(b: Seq<u8>, e: Seq<u8>)
    requires
        wal_spec(b) is Ok,
    ensures
        wal_spec(b + e) == wal_spec(b),
{
    assert((b + e)[0] == b[0]);
    lemma_longer_num(b, e, 1, 8);
    if b[0] == STREAM_DATA {
        lemma_longer_num(b, e, 9, 8);
        assert((b + e).skip(25) =~= b.skip(25) + e);
        bytes_behind_a_message_are_ignored(b.skip(25), e);
    } else {
        assert((b + e)[17] == b[17]);
    }
}

} // verus!

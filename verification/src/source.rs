//! The change source: committed transactions out of PostgreSQL.
//!
//! [`ChangeSource`] is the transport seam — the apply path consumes
//! committed transactions and never sees the wire. [`TxAssembler`]
//! turns decoded messages into transactions, [`StreamState`] decides
//! what to do with each stream payload, and [`Reconnect`] bounds the
//! redials of a failing transport.

use std::collections::HashMap;

use vstd::prelude::*;

use crate::error::{CdcError, CdcErrorView};
use crate::pgoutput;
use crate::pgoutput::{decode_wal, DatumView, MsgView, PgoutputMsg, TupleDatum, WalMsg, WalView};
use crate::protocol;
use crate::text;

use crate::protocol::{parse_lsn, TextResult};
use crate::text::{dec_string, join3, join5, owned, same_text};

verus! {

broadcast use vstd::std_specs::hash::group_hash_axioms;

/// SQLSTATE for "object already exists" (duplicate slot).
pub const DUPLICATE_OBJECT: &'static str = "42710";

/// A tuple as (column name, datum) pairs in relation order.
pub type NamedTuple = Vec<(String, TupleDatum)>;

/// A named tuple as a mathematical value.
pub open spec fn named_view(t: Seq<(String, TupleDatum)>) -> Seq<(Seq<char>, DatumView)> {
    Seq::new(t.len(), |i: int| (t[i].0@, t[i].1@))
}

/// One committed row change, column datums paired with the relation's
/// column names.
#[derive(Debug)]
#[allow(inconsistent_fields)]
pub enum RowChange {
    /// A row appeared.
    Insert {
        /// Relation name (unqualified).
        rel: String,
        /// (column name, datum) in relation order.
        cols: NamedTuple,
    },
    /// A row disappeared; with REPLICA IDENTITY FULL the old tuple is
    /// complete.
    Delete {
        /// Relation name (unqualified).
        rel: String,
        /// (column name, datum) of the old tuple.
        old: NamedTuple,
    },
    /// A row changed. `old` is `None` when the update touched no
    /// identity column under REPLICA IDENTITY DEFAULT; `new` may carry
    /// [`TupleDatum::Unchanged`] for untouched TOASTed columns.
    Update {
        /// Relation name (unqualified).
        rel: String,
        /// (column name, datum) of the old tuple, if sent.
        old: Option<NamedTuple>,
        /// (column name, datum) of the new tuple.
        new: NamedTuple,
    },
}

/// A row change as a mathematical value.
pub enum ChangeView {
    Insert(Seq<char>, Seq<(Seq<char>, DatumView)>),
    Delete(Seq<char>, Seq<(Seq<char>, DatumView)>),
    Update(Seq<char>, Option<Seq<(Seq<char>, DatumView)>>, Seq<(Seq<char>, DatumView)>),
}

impl View for RowChange {
    type V = ChangeView;

    open spec fn view(&self) -> ChangeView {
        match self {
            RowChange::Insert { rel, cols } => ChangeView::Insert(rel@, named_view(cols@)),
            RowChange::Delete { rel, old } => ChangeView::Delete(rel@, named_view(old@)),
            RowChange::Update { rel, old, new } => ChangeView::Update(
                rel@,
                match old {
                    Some(o) => Some(named_view(o@)),
                    None => None,
                },
                named_view(new@),
            ),
        }
    }
}

/// The row changes of a transaction.
pub open spec fn changes_view(v: Seq<RowChange>) -> Seq<ChangeView> {
    Seq::new(v.len(), |i: int| v[i]@)
}

/// One committed transaction, ready to apply atomically.
#[derive(Debug)]
pub struct CommittedTx {
    /// Row changes in commit order (empty if the transaction touched
    /// only unpublished tables).
    pub changes: Vec<RowChange>,
    /// Commit timestamp, microseconds since the PG epoch.
    pub commit_ts_us: i64,
    /// The ack point: acknowledging this LSN advances the slot's
    /// confirmed_flush_lsn past the transaction.
    pub end_lsn: u64,
}

/// A committed transaction as a mathematical value.
pub struct TxView {
    pub changes: Seq<ChangeView>,
    pub commit_ts_us: int,
    pub end_lsn: nat,
}

impl View for CommittedTx {
    type V = TxView;

    open spec fn view(&self) -> TxView {
        TxView {
            changes: changes_view(self.changes@),
            commit_ts_us: self.commit_ts_us as int,
            end_lsn: self.end_lsn as nat,
        }
    }
}

/// A stream of committed transactions plus an acknowledgement path.
pub trait ChangeSource {
    /// Next committed transaction; `None` if idle for `idle`.
    fn next_tx(&mut self, idle: std::time::Duration) -> Result<Option<CommittedTx>, CdcError>;

    /// Acknowledge everything up to and including `lsn` as applied —
    /// the durable resume checkpoint.
    fn ack(&mut self, lsn: u64) -> Result<(), CdcError>;
}

/// Where and how to subscribe.
#[derive(Debug, Clone)]
pub struct SourceConfig {
    /// Unix socket directory of the PG instance.
    pub socket_dir: String,
    /// Port (names the socket file).
    pub port: u16,
    /// Database (logical decoding requires a database-attached
    /// walsender).
    pub db: String,
    /// Role to connect as.
    pub user: String,
    /// Replication slot name.
    pub slot: String,
    /// Publication to subscribe to.
    pub publication: String,
}

impl SourceConfig {
    /// The local sidecar instance; `user` is the login name, if one is
    /// known.
    pub fn local_default(slot: &str, user: Option<String>) -> (r: Self)
        ensures
            r.socket_dir@ == "/tmp"@,
            r.port == 54329,
            r.db@ == "postgres"@,
            r.user@ == (match user {
                Some(u) => u@,
                None => "postgres"@,
            }),
            r.slot@ == slot@,
            r.publication@ == "bruce_pub"@,
    {
        SourceConfig {
            socket_dir: owned("/tmp"),
            port: 54329,
            db: owned("postgres"),
            user: match user {
                Some(u) => u,
                None => owned("postgres"),
            },
            slot: owned(slot),
            publication: owned("bruce_pub"),
        }
    }
}

/// Outcome of creating the replication slot.
#[derive(Debug)]
pub enum SlotSetup {
    /// Slot created; the connection is inside the slot's snapshot
    /// transaction.
    CreatedSnapshotOpen {
        /// The slot's consistent point.
        consistent_point: u64,
    },
    /// Slot already existed: this is a resume — no snapshot; the
    /// stream restarts from the slot's confirmed_flush_lsn.
    AlreadyExists,
}

/// Relation metadata cached from a `Relation` message.
struct RelMeta {
    name: String,
    columns: Vec<String>,
    /// `'d'` default, `'n'` nothing, `'f'` full, `'i'` index.
    replica_identity: u8,
}

/// Cached relation metadata as a mathematical value.
pub struct RelView {
    pub name: Seq<char>,
    pub columns: Seq<Seq<char>>,
    pub replica_identity: u8,
}

impl RelMeta {
    spec fn model(self) -> RelView {
        RelView {
            name: self.name@,
            columns: pgoutput::texts(self.columns@),
            replica_identity: self.replica_identity,
        }
    }
}

/// The pgoutput -> [`CommittedTx`] state machine. Feed decoded messages
/// in stream order; a `Commit` yields the buffered transaction.
pub struct TxAssembler {
    /// rel_id -> cached relation metadata.
    relations: HashMap<u32, RelMeta>,
    /// Changes of the transaction currently being received.
    pending: Vec<RowChange>,
    pending_ts_us: i64,
}

/// The assembler's state: the relations it knows and the changes of the
/// transaction being received.
pub struct AsmView {
    pub relations: Map<nat, RelView>,
    pub pending: Seq<ChangeView>,
    pub pending_ts_us: int,
}

impl View for TxAssembler {
    type V = AsmView;

    closed spec fn view(&self) -> AsmView {
        AsmView {
            relations: Map::new(
                |k: nat| k <= u32::MAX && self.relations@.contains_key(k as u32),
                |k: nat| self.relations@[k as u32].model(),
            ),
            pending: changes_view(self.pending@),
            pending_ts_us: self.pending_ts_us as int,
        }
    }
}

/// Column names paired with datums.
pub open spec fn zip_named(columns: Seq<Seq<char>>, values: Seq<DatumView>) -> Seq<
    (Seq<char>, DatumView),
> {
    Seq::new(values.len(), |i: int| (columns[i], values[i]))
}

/// A tuple of relation `rel_id` with its relation name and column names.
pub open spec fn named_spec(
    relations: Map<nat, RelView>,
    rel_id: nat,
    values: Seq<DatumView>,
) -> Result<(Seq<char>, Seq<(Seq<char>, DatumView)>), CdcErrorView> {
    if !relations.contains_key(rel_id) {
        Err(CdcErrorView::Protocol("change before Relation for rel "@ + text::dec(rel_id)))
    } else {
        let meta = relations[rel_id];
        if meta.columns.len() != values.len() {
            Err(
                CdcErrorView::Decode(
                    meta.name + ": tuple has "@ + text::dec(values.len()) + " columns, relation has "@
                        + text::dec(meta.columns.len()),
                ),
            )
        } else {
            Ok((meta.name, zip_named(meta.columns, values)))
        }
    }
}

/// The replica identity byte `'n'` (nothing).
pub const IDENTITY_NOTHING: u8 = 110;

/// The complaint about an update whose old row cannot be identified.
pub open spec fn nothing_text(name: Seq<char>) -> Seq<char> {
    "UPDATE on "@ + name
        + " with REPLICA IDENTITY NOTHING: the old row is unidentifiable; fix: ALTER TABLE "@ + name
        + " REPLICA IDENTITY DEFAULT (with a primary key) or REPLICA IDENTITY FULL"@
}

/// The row change that a change message stands for.
pub open spec fn change_spec(relations: Map<nat, RelView>, msg: MsgView) -> Result<
    ChangeView,
    CdcErrorView,
>
    recommends
        msg is Insert || msg is Delete || msg is Update,
{
    match msg {
        MsgView::Insert { rel_id, new } => match named_spec(relations, rel_id, new) {
            Ok((rel, cols)) => Ok(ChangeView::Insert(rel, cols)),
            Err(e) => Err(e),
        },
        MsgView::Delete { rel_id, old } => match named_spec(relations, rel_id, old) {
            Ok((rel, cols)) => Ok(ChangeView::Delete(rel, cols)),
            Err(e) => Err(e),
        },
        MsgView::Update { rel_id, old, new } => {
            if relations.contains_key(rel_id) && relations[rel_id].replica_identity
                == IDENTITY_NOTHING {
                Err(CdcErrorView::Apply(nothing_text(relations[rel_id].name)))
            } else {
                match old {
                    None => match named_spec(relations, rel_id, new) {
                        Ok((rel, cols)) => Ok(ChangeView::Update(rel, None, cols)),
                        Err(e) => Err(e),
                    },
                    Some(o) => match named_spec(relations, rel_id, o) {
                        Err(e) => Err(e),
                        Ok((_, before)) => match named_spec(relations, rel_id, new) {
                            Ok((rel, cols)) => Ok(ChangeView::Update(rel, Some(before), cols)),
                            Err(e) => Err(e),
                        },
                    },
                }
            }
        },
        _ => Err(CdcErrorView::Protocol(Seq::empty())),
    }
}

/// The state after a message.
pub open spec fn asm_next(s: AsmView, msg: MsgView) -> AsmView {
    match msg {
        MsgView::Begin { commit_ts_us, .. } => AsmView {
            pending: Seq::empty(),
            pending_ts_us: commit_ts_us,
            ..s
        },
        MsgView::Relation { rel_id, name, replica_identity, columns, .. } => AsmView {
            relations: s.relations.insert(rel_id, RelView { name, columns, replica_identity }),
            ..s
        },
        MsgView::Commit { .. } => AsmView { pending: Seq::empty(), ..s },
        MsgView::Other(_) => s,
        _ => match change_spec(s.relations, msg) {
            Ok(c) => AsmView { pending: s.pending.push(c), ..s },
            Err(_) => s,
        },
    }
}

/// What a message yields: a transaction on Commit, an error for a change
/// that cannot be resolved, nothing otherwise.
pub open spec fn asm_out(s: AsmView, msg: MsgView) -> Result<Option<TxView>, CdcErrorView> {
    match msg {
        MsgView::Commit { end_lsn, commit_ts_us } => Ok(
            Some(TxView { changes: s.pending, commit_ts_us, end_lsn }),
        ),
        MsgView::Begin { .. } => Ok(None),
        MsgView::Relation { .. } => Ok(None),
        MsgView::Other(_) => Ok(None),
        _ => match change_spec(s.relations, msg) {
            Ok(_) => Ok(None),
            Err(e) => Err(e),
        },
    }
}

/// An outcome of the assembler and its mathematical counterpart agree.
pub open spec fn out_agrees(
    r: Result<Option<CommittedTx>, CdcError>,
    s: Result<Option<TxView>, CdcErrorView>,
) -> bool {
    match s {
        Ok(None) => r matches Ok(None),
        Ok(Some(t)) => r matches Ok(Some(tx)) && tx@ == t,
        Err(v) => r matches Err(e) && e@ == v,
    }
}

impl Default for TxAssembler {
    /// Fresh assembler.
    fn default() -> (r: Self)
        ensures
            r@ == (AsmView {
                relations: Map::empty(),
                pending: Seq::empty(),
                pending_ts_us: 0,
            }),
    {
        TxAssembler::new()
    }
}

impl TxAssembler {
    /// Fresh assembler (no relations cached, nothing pending).
    pub fn new() -> (r: Self)
        ensures
            r@ == (AsmView {
                relations: Map::empty(),
                pending: Seq::empty(),
                pending_ts_us: 0,
            }),
    {
        let r = TxAssembler { relations: HashMap::new(), pending: Vec::new(), pending_ts_us: 0 };
        assert(r@.relations =~= Map::empty());
        assert(r@.pending =~= Seq::empty());
        r
    }

    /// Drop all buffered state (redial: the new stream redelivers the
    /// cut-off transaction from Begin, and re-sends Relation).
    pub fn reset(&mut self)
        ensures
            final(self)@ == (AsmView {
                relations: Map::empty(),
                pending: Seq::empty(),
                pending_ts_us: old(self)@.pending_ts_us,
            }),
    {
        self.pending.clear();
        self.relations.clear();
        assert(self@.relations =~= Map::empty());
        assert(self@.pending =~= Seq::empty());
    }

    /// Advance the state machine by one pgoutput message. Returns the
    /// completed transaction on `Commit`, `None` otherwise.
    pub fn on_msg(&mut self, msg: PgoutputMsg) -> (r: Result<Option<CommittedTx>, CdcError>)
        ensures
            final(self)@ == asm_next(old(self)@, msg@),
            out_agrees(r, asm_out(old(self)@, msg@)),
    {
        let ghost before = self@;
        match msg {
            PgoutputMsg::Begin { commit_ts_us, .. } => {
                self.pending.clear();
                self.pending_ts_us = commit_ts_us;
                assert(self@.pending =~= Seq::empty());
                assert(self@.relations =~= before.relations);
                Ok(None)
            },
            PgoutputMsg::Relation { rel_id, name, replica_identity, columns, .. } => {
                // A Relation may be re-sent mid-stream on schema change:
                // the cached entry is replaced.
                let meta = RelMeta { name, columns, replica_identity };
                self.relations.insert(rel_id, meta);
                assert(self@.relations =~= before.relations.insert(rel_id as nat, meta.model()));
                Ok(None)
            },
            PgoutputMsg::Insert { rel_id, new } => {
                let (rel, cols) = self.named(rel_id, new)?;
                self.push_change(RowChange::Insert { rel, cols });
                Ok(None)
            },
            PgoutputMsg::Delete { rel_id, old } => {
                let (rel, cols) = self.named(rel_id, old)?;
                self.push_change(RowChange::Delete { rel, old: cols });
                Ok(None)
            },
            PgoutputMsg::Update { rel_id, old, new } => {
                // A decoded stream is untrusted input, so the guard on
                // REPLICA IDENTITY NOTHING is total: a typed error naming
                // the fix, never a mis-applied change.
                proof {
                    assert(before.relations.contains_key(rel_id as nat)
                        == self.relations@.contains_key(rel_id));
                }
                if let Some(meta) = self.relations.get(&rel_id) {
                    if meta.replica_identity == IDENTITY_NOTHING {
                        return Err(CdcError::Apply(nothing_message(meta.name.as_str())));
                    }
                }
                let mut before_cols: Option<NamedTuple> = None;
                if let Some(o) = old {
                    let (_, cols) = self.named(rel_id, o)?;
                    before_cols = Some(cols);
                }
                let (rel, cols) = self.named(rel_id, new)?;
                self.push_change(RowChange::Update { rel, old: before_cols, new: cols });
                Ok(None)
            },
            PgoutputMsg::Commit { end_lsn, commit_ts_us } => {
                let mut changes: Vec<RowChange> = Vec::new();
                changes.append(&mut self.pending);
                assert(changes_view(changes@) =~= before.pending);
                assert(self@.pending =~= Seq::empty());
                assert(self@.relations =~= before.relations);
                Ok(Some(CommittedTx { changes, commit_ts_us, end_lsn }))
            },
            PgoutputMsg::Other(_) => Ok(None),
        }
    }

    /// Buffers one more change of the transaction being received.
    fn push_change(&mut self, c: RowChange)
        ensures
            final(self)@ == (AsmView { pending: old(self)@.pending.push(c@), ..old(self)@ }),
    {
        let ghost before = self@;
        self.pending.push(c);
        assert(self@.pending =~= before.pending.push(c@));
        assert(self@.relations =~= before.relations);
    }

    /// Pairs the datums of a tuple with its relation's column names.
    fn named(&self, rel_id: u32, values: Vec<TupleDatum>) -> (r: Result<
        (String, NamedTuple),
        CdcError,
    >)
        ensures
            match named_spec(self@.relations, rel_id as nat, pgoutput::datums(values@)) {
                Ok((rel, cols)) => r matches Ok(p) && p.0@ == rel && named_view(p.1@) == cols,
                Err(v) => r matches Err(e) && e@ == v,
            },
    {
        proof {
            assert(self@.relations.contains_key(rel_id as nat) == self.relations@.contains_key(
                rel_id,
            ));
        }
        match self.relations.get(&rel_id) {
            None => {
                let text = join3(
                    "change before Relation for rel ",
                    dec_string(rel_id as u64).as_str(),
                    "",
                );
                proof {
                    reveal_strlit("");
                    assert(text@ =~= "change before Relation for rel "@ + text::dec(rel_id as nat));
                }
                Err(CdcError::Protocol(text))
            },
            Some(meta) => {
                if meta.columns.len() != values.len() {
                    return Err(
                        CdcError::Decode(
                            join5(
                                meta.name.as_str(),
                                ": tuple has ",
                                dec_string(values.len() as u64).as_str(),
                                " columns, relation has ",
                                dec_string(meta.columns.len() as u64).as_str(),
                            ),
                        ),
                    );
                }
                let cols = zip(&meta.columns, values);
                assert(named_view(cols@) =~= zip_named(pgoutput::texts(meta.columns@), pgoutput::datums(values@)));
                Ok((meta.name.clone(), cols))
            },
        }
    }
}

/// The error text for an update under REPLICA IDENTITY NOTHING.
fn nothing_message(name: &str) -> (s: String)
    ensures
        s@ == nothing_text(name@),
{
    join5(
        "UPDATE on ",
        name,
        " with REPLICA IDENTITY NOTHING: the old row is unidentifiable; fix: ALTER TABLE ",
        name,
        " REPLICA IDENTITY DEFAULT (with a primary key) or REPLICA IDENTITY FULL",
    )
}

/// Pairs names and datums position by position.
fn zip(names: &Vec<String>, values: Vec<TupleDatum>) -> (r: NamedTuple)
    requires
        names@.len() == values@.len(),
    ensures
        r@.len() == values@.len(),
        forall|i: int|
            0 <= i < values@.len() ==> (#[trigger] r@[i]).0@ == names@[i]@ && r@[i].1
                == values@[i],
{
    let mut r: NamedTuple = Vec::new();
    let ghost all = values@;
    for d in it: values
        invariant
            names@.len() == all.len(),
            it.seq() == all,
            r@.len() == it.index(),
            forall|i: int|
                0 <= i < it.index() ==> (#[trigger] r@[i]).0@ == names@[i]@ && r@[i].1 == all[i],
    {
        let i: usize = r.len();
        r.push((names[i].clone(), d));
    }
    r
}

// -------------------------------------------------------- slot creation

/// The command that creates a slot inside the snapshot transaction.
pub fn create_slot_sql(slot: &str) -> (s: String)
    ensures
        s@ == "CREATE_REPLICATION_SLOT "@ + slot@ + " LOGICAL pgoutput USE_SNAPSHOT"@,
{
    join3("CREATE_REPLICATION_SLOT ", slot, " LOGICAL pgoutput USE_SNAPSHOT")
}

/// The position of the first column called `name`, from `i` on.
pub open spec fn column_at(cols: Seq<Seq<char>>, name: Seq<char>, i: int) -> Option<int>
    decreases cols.len() - i,
{
    if i >= cols.len() {
        None
    } else if cols[i] == name {
        Some(i)
    } else {
        column_at(cols, name, i + 1)
    }
}

/// A position that is found is one of the list.
pub proof fn lemma_column_at(cols: Seq<Seq<char>>, name: Seq<char>, i: int)
    requires
        0 <= i,
    ensures
        column_at(cols, name, i) matches Some(k) ==> i <= k < cols.len() && cols[k] == name,
    decreases cols.len() - i,
{
    if i < cols.len() && cols[i] != name {
        lemma_column_at(cols, name, i + 1);
    }
}

/// The position of the first column called `name`.
pub fn find_column(cols: &[String], name: &str) -> (r: Option<usize>)
    ensures
        match column_at(pgoutput::texts(cols@), name@, 0) {
            Some(k) => (r matches Some(x) && x == k) && 0 <= k < cols@.len() && cols@[k]@ == name@,
            None => r is None,
        },
{
    let mut i: usize = 0;
    while i < cols.len()
        invariant
            i <= cols@.len(),
            column_at(pgoutput::texts(cols@), name@, 0) == column_at(pgoutput::texts(cols@), name@, i as int),
        decreases cols.len() - i,
    {
        if same_text(cols[i].as_str(), name) {
            return Some(i);
        }
        i += 1;
    }
    None
}

/// What the outcome of the slot-creation command means.
pub open spec fn slot_setup_spec(
    created: Result<(Seq<Seq<char>>, Seq<Seq<Option<Seq<char>>>>), CdcErrorView>,
) -> Result<Option<u64>, CdcErrorView> {
    match created {
        Err(CdcErrorView::Backend(code, message)) => if code == DUPLICATE_OBJECT@ {
            Ok(None)
        } else {
            Err(CdcErrorView::Backend(code, message))
        },
        Err(e) => Err(e),
        Ok((cols, rows)) => match column_at(cols, "consistent_point"@, 0) {
            None => Err(CdcErrorView::Protocol("no consistent_point column"@)),
            Some(ci) => if rows.len() == 0 || ci >= rows[0].len() || rows[0][ci] is None {
                Err(CdcErrorView::Protocol("no consistent_point row"@))
            } else {
                match protocol::lsn_spec(rows[0][ci]->0) {
                    Ok(lsn) => Ok(Some(lsn)),
                    Err(t) => Err(CdcErrorView::Decode(t)),
                }
            },
        },
    }
}

/// A query outcome as a mathematical value.
pub open spec fn outcome_view(r: Result<TextResult, CdcError>) -> Result<
    (Seq<Seq<char>>, Seq<Seq<Option<Seq<char>>>>),
    CdcErrorView,
> {
    match r {
        Ok(t) => Ok((pgoutput::texts(t.0@), protocol::rows_view(t.1@))),
        Err(e) => Err(e@),
    }
}

/// Reads the outcome of the slot-creation command: created at its
/// consistent point, or already there (the snapshot transaction is then to
/// be rolled back), or an error.
pub fn slot_setup(created: Result<TextResult, CdcError>) -> (r: Result<SlotSetup, CdcError>)
    ensures
        match slot_setup_spec(outcome_view(created)) {
            Ok(None) => r matches Ok(SlotSetup::AlreadyExists),
            Ok(Some(lsn)) => r matches Ok(SlotSetup::CreatedSnapshotOpen { consistent_point })
                && consistent_point == lsn,
            Err(v) => r matches Err(e) && e@ == v,
        },
{
    match created {
        Ok((cols, rows)) => {
            let ci: usize = match find_column(cols.as_slice(), "consistent_point") {
                Some(ci) => ci,
                None => return Err(CdcError::Protocol(owned("no consistent_point column"))),
            };
            if rows.len() == 0 || ci >= rows[0].len() {
                return Err(CdcError::Protocol(owned("no consistent_point row")));
            }
            match &rows[0][ci] {
                None => Err(CdcError::Protocol(owned("no consistent_point row"))),
                Some(text) => {
                    let consistent_point: u64 = parse_lsn(text.as_str())?;
                    Ok(SlotSetup::CreatedSnapshotOpen { consistent_point })
                },
            }
        },
        Err(e) => {
            let exists: bool = match &e {
                CdcError::Backend { code, .. } => same_text(code.as_str(), DUPLICATE_OBJECT),
                _ => false,
            };
            if exists {
                Ok(SlotSetup::AlreadyExists)
            } else {
                Err(e)
            }
        },
    }
}

// -------------------------------------------------------- stream decisions

/// The client side of a replication stream: the assembler and the two
/// high-water marks that status updates report.
pub struct StreamState {
    assembler: TxAssembler,
    /// Highest WAL end seen (reported as `received` in status).
    last_recv: u64,
    /// Highest LSN acknowledged as applied.
    last_ack: u64,
}

/// The state of a stream as a mathematical value.
pub struct StreamView {
    pub assembler: AsmView,
    pub last_recv: nat,
    pub last_ack: nat,
}

impl View for StreamState {
    type V = StreamView;

    closed spec fn view(&self) -> StreamView {
        StreamView {
            assembler: self.assembler@,
            last_recv: self.last_recv as nat,
            last_ack: self.last_ack as nat,
        }
    }
}

/// A standby status update to send.
#[derive(Debug)]
pub struct Status {
    /// Received LSN.
    pub received: u64,
    /// Flushed and applied LSN.
    pub acked: u64,
}

/// What a stream payload leads to.
#[derive(Debug)]
pub enum StreamAction {
    /// Read on.
    Continue,
    /// Send this status update, then read on.
    Reply(Status),
    /// Hand out this transaction.
    Yield(CommittedTx),
}

/// What a stream payload leads to, as a mathematical value.
pub enum ActionView {
    Continue,
    Reply(nat, nat),
    Yield(TxView),
}

impl View for StreamAction {
    type V = ActionView;

    open spec fn view(&self) -> ActionView {
        match self {
            StreamAction::Continue => ActionView::Continue,
            StreamAction::Reply(s) => ActionView::Reply(s.received as nat, s.acked as nat),
            StreamAction::Yield(tx) => ActionView::Yield(tx@),
        }
    }
}

/// The larger of two numbers.
pub open spec fn max_nat(a: nat, b: nat) -> nat {
    if a >= b {
        a
    } else {
        b
    }
}

/// The stream after a payload.
pub open spec fn stream_next(s: StreamView, payload: Seq<u8>) -> StreamView {
    match pgoutput::wal_spec(payload) {
        Err(_) => s,
        Ok(WalView::Keepalive { wal_end, .. }) => StreamView {
            last_recv: max_nat(s.last_recv, wal_end),
            ..s
        },
        Ok(WalView::XLogData { wal_end, msg, .. }) => StreamView {
            last_recv: max_nat(s.last_recv, wal_end),
            assembler: asm_next(s.assembler, msg),
            ..s
        },
    }
}

/// The stream after an acknowledgement.
pub open spec fn stream_acked(s: StreamView, lsn: nat) -> StreamView {
    StreamView { last_ack: max_nat(s.last_ack, lsn), ..s }
}

/// The received and the acknowledged mark that an acknowledgement reports.
pub open spec fn ack_report(s: StreamView, lsn: nat) -> (nat, nat) {
    let acked = max_nat(s.last_ack, lsn);
    (max_nat(s.last_recv, acked), acked)
}

/// What a payload leads to.
pub open spec fn stream_out(s: StreamView, payload: Seq<u8>) -> Result<ActionView, CdcErrorView> {
    match pgoutput::wal_spec(payload) {
        Err(t) => Err(CdcErrorView::Decode(t)),
        Ok(WalView::Keepalive { wal_end, reply_requested }) => if reply_requested {
            Ok(ActionView::Reply(max_nat(s.last_recv, wal_end), s.last_ack))
        } else {
            Ok(ActionView::Continue)
        },
        Ok(WalView::XLogData { msg, .. }) => match asm_out(s.assembler, msg) {
            Err(e) => Err(e),
            Ok(None) => Ok(ActionView::Continue),
            Ok(Some(tx)) => Ok(ActionView::Yield(tx)),
        },
    }
}

impl StreamState {
    /// A stream on which nothing has happened yet.
    pub fn new() -> (r: Self)
        ensures
            r@ == (StreamView {
                assembler: AsmView {
                    relations: Map::empty(),
                    pending: Seq::empty(),
                    pending_ts_us: 0,
                },
                last_recv: 0,
                last_ack: 0,
            }),
    {
        StreamState { assembler: TxAssembler::new(), last_recv: 0, last_ack: 0 }
    }

    /// Takes in one CopyData payload and says what to do next. A
    /// keepalive that demands a reply gets one at once; a completed
    /// transaction is handed out.
    pub fn on_payload(&mut self, payload: &[u8]) -> (r: Result<StreamAction, CdcError>)
        ensures
            final(self)@ == stream_next(old(self)@, payload@),
            match stream_out(old(self)@, payload@) {
                Ok(a) => r matches Ok(x) && x@ == a,
                Err(v) => r matches Err(e) && e@ == v,
            },
    {
        match decode_wal(payload)? {
            WalMsg::Keepalive { wal_end, reply_requested } => {
                if wal_end > self.last_recv {
                    self.last_recv = wal_end;
                }
                if reply_requested {
                    Ok(
                        StreamAction::Reply(
                            Status { received: self.last_recv, acked: self.last_ack },
                        ),
                    )
                } else {
                    Ok(StreamAction::Continue)
                }
            },
            WalMsg::XLogData { wal_end, msg, .. } => {
                if wal_end > self.last_recv {
                    self.last_recv = wal_end;
                }
                match self.assembler.on_msg(msg)? {
                    Some(tx) => Ok(StreamAction::Yield(tx)),
                    None => Ok(StreamAction::Continue),
                }
            },
        }
    }

    /// Acknowledges everything up to `lsn` as applied: the status update
    /// to send. The acknowledged mark never moves back, and the received
    /// mark that is reported is never behind it.
    pub fn on_ack(&mut self, lsn: u64) -> (s: Status)
        ensures
            final(self)@ == stream_acked(old(self)@, lsn as nat),
            (s.received as nat, s.acked as nat) == ack_report(old(self)@, lsn as nat),
    {
        if lsn > self.last_ack {
            self.last_ack = lsn;
        }
        let received: u64 = if self.last_recv >= self.last_ack {
            self.last_recv
        } else {
            self.last_ack
        };
        Status { received, acked: self.last_ack }
    }

    /// Forgets what the old connection had delivered of an unfinished
    /// transaction, and its relation cache; the marks are kept.
    pub fn on_redial(&mut self)
        ensures
            final(self)@ == (StreamView {
                assembler: AsmView {
                    relations: Map::empty(),
                    pending: Seq::empty(),
                    pending_ts_us: old(self)@.assembler.pending_ts_us,
                },
                ..old(self)@
            }),
    {
        self.assembler.reset();
    }
}

// ---------------------------------------------------------------- retries

/// True iff `e` is a transport-level failure a reconnect can heal: socket
/// death, a protocol cut, or a server that is going down (57P01), starting
/// up (57P03), or still holds the slot (55006).
pub open spec fn transient_spec(e: CdcErrorView) -> bool {
    match e {
        CdcErrorView::Io(_) => true,
        CdcErrorView::Protocol(_) => true,
        CdcErrorView::Backend(code, _) => code == "57P01"@ || code == "57P03"@ || code
            == "55006"@,
        _ => false,
    }
}

/// True iff `e` is a transport-level failure a reconnect can heal.
/// Decode/Apply errors and every other backend SQLSTATE are semantic:
/// retrying cannot fix them.
pub fn is_transient(e: &CdcError) -> (r: bool)
    ensures
        r == transient_spec(e@),
{
    match e {
        CdcError::Io(_) => true,
        CdcError::Protocol(_) => true,
        CdcError::Backend { code, .. } => same_text(code.as_str(), "57P01") || same_text(
            code.as_str(),
            "57P03",
        ) || same_text(code.as_str(), "55006"),
        _ => false,
    }
}

/// A bounded run of redials: at most `max_attempts`, each after a failure
/// that a reconnect can heal.
pub struct Reconnect {
    max_attempts: u32,
    made: u32,
    last: CdcError,
}

/// A run of redials as a mathematical value.
pub struct ReconnectView {
    pub max_attempts: nat,
    pub made: nat,
    pub last: CdcErrorView,
}

impl View for Reconnect {
    type V = ReconnectView;

    closed spec fn view(&self) -> ReconnectView {
        ReconnectView {
            max_attempts: self.max_attempts as nat,
            made: self.made as nat,
            last: self.last@,
        }
    }
}

impl ReconnectView {
    /// A run of which no redial was made.
    pub open spec fn fresh(max_attempts: nat) -> ReconnectView {
        ReconnectView {
            max_attempts,
            made: 0,
            last: CdcErrorView::Io("reconnect: no attempt made"@),
        }
    }

    /// What another attempt is refused with; nothing where one is left.
    pub open spec fn refusal(self) -> Option<CdcErrorView> {
        if self.made < self.max_attempts {
            None
        } else {
            Some(self.last)
        }
    }

    /// One more attempt made.
    pub open spec fn attempted(self) -> ReconnectView {
        ReconnectView { made: self.made + 1, ..self }
    }

    /// The last attempt failed with `e`, which a reconnect can heal.
    pub open spec fn failed_with(self, e: CdcErrorView) -> ReconnectView {
        ReconnectView { last: e, ..self }
    }

    /// An attempt for each of these failures, one after the other.
    pub open spec fn failing(self, errors: Seq<CdcErrorView>) -> ReconnectView
        decreases errors.len(),
    {
        if errors.len() == 0 {
            self
        } else {
            self.failing(errors.drop_last()).attempted().failed_with(errors.last())
        }
    }
}

impl Reconnect {
    /// A run of at most `max_attempts` redials, none of them made.
    pub fn new(max_attempts: u32) -> (r: Self)
        ensures
            r@ == ReconnectView::fresh(max_attempts as nat),
    {
        Reconnect { max_attempts, made: 0, last: CdcError::Io(owned("reconnect: no attempt made")) }
    }

    /// Asks for another attempt: `Ok` if one is left, else the last error.
    pub fn attempt(&mut self) -> (r: Result<(), CdcError>)
        ensures
            match old(self)@.refusal() {
                None => r is Ok && final(self)@ == old(self)@.attempted(),
                Some(x) => final(self)@ == old(self)@ && (r matches Err(e) && e@ == x),
            },
    {
        if self.made < self.max_attempts {
            self.made = self.made + 1;
            return Ok(());
        }
        Err(self.last.copy())
    }

    /// Takes in the failure of an attempt: a transient one is remembered
    /// and the run goes on, any other ends it.
    pub fn failed(&mut self, e: CdcError) -> (r: Result<(), CdcError>)
        ensures
            if transient_spec(e@) {
                r is Ok && final(self)@ == old(self)@.failed_with(e@)
            } else {
                final(self)@ == old(self)@ && (r matches Err(x) && x@ == e@)
            },
    {
        if is_transient(&e) {
            self.last = e;
            Ok(())
        } else {
            Err(e)
        }
    }
}

// ------------------------------------------------------------------- laws

/// Redials are bounded: each of the first `max_attempts` failures leaves
/// room for another attempt until they are used up, and then the last
/// failure is what the run is ended with.
pub proof fn redials_are_bounded(max_attempts: nat, errors: Seq<CdcErrorView>)
    requires
        errors.len() <= max_attempts,
    ensures
        ReconnectView::fresh(max_attempts).failing(errors).refusal() is None <==> errors.len()
            < max_attempts,
        0 < errors.len() == max_attempts ==> ReconnectView::fresh(max_attempts).failing(
            errors,
        ).refusal() == Some(errors.last()),
{
    lemma_failing(ReconnectView::fresh(max_attempts), errors);
}

proof fn lemma_failing(r: ReconnectView, errors: Seq<CdcErrorView>)
    ensures
        r.failing(errors).made == r.made + errors.len(),
        r.failing(errors).max_attempts == r.max_attempts,
        errors.len() > 0 ==> r.failing(errors).last == errors.last(),
    decreases errors.len(),
{
    if errors.len() > 0 {
        lemma_failing(r, errors.drop_last());
    }
}

/// The state after a run of messages.
pub open spec fn asm_run(s: AsmView, msgs: Seq<MsgView>) -> AsmView
    decreases msgs.len(),
{
    if msgs.len() == 0 {
        s
    } else {
        asm_next(asm_run(s, msgs.drop_last()), msgs.last())
    }
}

/// The relations that are known after a run of messages.
pub open spec fn relations_after(relations: Map<nat, RelView>, msgs: Seq<MsgView>) -> Map<
    nat,
    RelView,
>
    decreases msgs.len(),
{
    if msgs.len() == 0 {
        relations
    } else {
        let known = relations_after(relations, msgs.drop_last());
        match msgs.last() {
            MsgView::Relation { rel_id, name, replica_identity, columns, .. } => known.insert(
                rel_id,
                RelView { name, columns, replica_identity },
            ),
            _ => known,
        }
    }
}

/// The row changes of a run of messages, in order: those that the relations
/// known at their place resolve. The others are refused.
pub open spec fn accepted(relations: Map<nat, RelView>, msgs: Seq<MsgView>) -> Seq<ChangeView>
    decreases msgs.len(),
{
    if msgs.len() == 0 {
        Seq::empty()
    } else {
        let before = accepted(relations, msgs.drop_last());
        let m = msgs.last();
        match change_spec(relations_after(relations, msgs.drop_last()), m) {
            Ok(c) if m is Insert || m is Delete || m is Update => before.push(c),
            _ => before,
        }
    }
}

/// Only a Commit hands out a transaction: nothing of a transaction is
/// visible before its Commit arrives.
pub proof fn only_commit_yields(s: AsmView, m: MsgView)
    ensures
        asm_out(s, m) matches Ok(Some(_)) ==> m is Commit,
{
}

/// A transaction is delivered whole and in order: whatever was left pending
/// before its Begin, and whatever messages lie between Begin and Commit, it
/// holds exactly the changes that were accepted between them, and nothing
/// stays pending.
pub proof fn commit_delivers_whole_transaction(
    s: AsmView,
    begin: MsgView,
    msgs: Seq<MsgView>,
    commit: MsgView,
)
    requires
        begin is Begin,
        commit is Commit,
        forall|i: int|
            0 <= i < msgs.len() ==> !((#[trigger] msgs[i]) is Begin) && !(msgs[i] is Commit),
    ensures
        ({
            let before = asm_run(asm_next(s, begin), msgs);
            &&& asm_out(before, commit) == Ok::<Option<TxView>, CdcErrorView>(
                Some(
                    TxView {
                        changes: accepted(s.relations, msgs),
                        commit_ts_us: commit->Commit_commit_ts_us,
                        end_lsn: commit->end_lsn,
                    },
                ),
            )
            &&& asm_next(before, commit).pending == Seq::<ChangeView>::empty()
            &&& asm_next(before, commit).relations == relations_after(s.relations, msgs)
        }),
{
    lemma_run(asm_next(s, begin), msgs);
    assert(accepted(s.relations, msgs) =~= asm_run(asm_next(s, begin), msgs).pending);
}

proof fn lemma_run(s: AsmView, msgs: Seq<MsgView>)
    requires
        forall|i: int|
            0 <= i < msgs.len() ==> !((#[trigger] msgs[i]) is Begin) && !(msgs[i] is Commit),
    ensures
        asm_run(s, msgs).relations == relations_after(s.relations, msgs),
        asm_run(s, msgs).pending == s.pending + accepted(s.relations, msgs),
    decreases msgs.len(),
{
    if msgs.len() == 0 {
        assert(s.pending + accepted(s.relations, msgs) =~= s.pending);
    } else {
        lemma_run(s, msgs.drop_last());
        assert(msgs.last() == msgs[msgs.len() - 1]);
        assert(asm_run(s, msgs).pending =~= s.pending + accepted(s.relations, msgs));
    }
}

/// A change that was accepted yielded no error, and one that was not
/// accepted did: no change is lost without notice.
pub proof fn changes_are_accepted_or_refused(s: AsmView, m: MsgView)
    requires
        m is Insert || m is Delete || m is Update,
    ensures
        asm_out(s, m) is Ok <==> accepted(s.relations, seq![m]).len() == 1,
        asm_out(s, m) is Err <==> asm_next(s, m) == s,
{
    reveal_with_fuel(accepted, 2);
    assert(seq![m].drop_last() =~= Seq::<MsgView>::empty());
    assert(asm_out(s, m) is Ok ==> asm_next(s, m).pending.len() == s.pending.len() + 1);
}

/// A change that names a relation nobody described is refused and leaves
/// the state as it was — in particular every change right after a reset.
pub proof fn change_before_relation_is_refused(s: AsmView, m: MsgView, rel_id: nat)
    requires
        match m {
            MsgView::Insert { rel_id: r, .. } => r == rel_id,
            MsgView::Delete { rel_id: r, .. } => r == rel_id,
            MsgView::Update { rel_id: r, .. } => r == rel_id,
            _ => false,
        },
        !s.relations.contains_key(rel_id),
    ensures
        asm_out(s, m) == Err::<Option<TxView>, CdcErrorView>(
            CdcErrorView::Protocol("change before Relation for rel "@ + text::dec(rel_id)),
        ),
        asm_next(s, m) == s,
{
}

/// A Relation that is sent again replaces what was cached: later tuples
/// are read with the new column list.
pub proof fn resent_relation_replaces(s: AsmView, m: MsgView)
    requires
        m is Relation,
    ensures
        asm_next(s, m).relations[m->Relation_rel_id] == (RelView {
            name: m->name,
            columns: m->columns,
            replica_identity: m->replica_identity,
        }),
        forall|k: nat|
            k != m->Relation_rel_id ==> (asm_next(s, m).relations.contains_key(k)
                == s.relations.contains_key(k) && asm_next(s, m).relations[k] == s.relations[k]),
{
}

/// The acknowledged mark and the received mark never move back while a
/// stream is read.
pub proof fn marks_never_move_back(s: StreamView, payload: Seq<u8>)
    ensures
        stream_next(s, payload).last_recv >= s.last_recv,
        stream_next(s, payload).last_ack == s.last_ack,
{
}

/// A tuple of a known relation is handed on under the relation's name, each
/// datum with the name of its column.
pub proof fn datums_keep_their_columns(
    relations: Map<nat, RelView>,
    rel_id: nat,
    values: Seq<DatumView>,
    i: int,
)
    requires
        relations.contains_key(rel_id),
        relations[rel_id].columns.len() == values.len(),
        0 <= i < values.len(),
    ensures
        change_spec(relations, MsgView::Insert { rel_id, new: values }) matches Ok(
            ChangeView::Insert(rel, cols),
        ) && rel == relations[rel_id].name && cols.len() == values.len() && cols[i] == (
            relations[rel_id].columns[i],
            values[i],
        ),
        change_spec(relations, MsgView::Delete { rel_id, old: values }) matches Ok(
            ChangeView::Delete(rel, cols),
        ) && rel == relations[rel_id].name && cols.len() == values.len() && cols[i] == (
            relations[rel_id].columns[i],
            values[i],
        ),
{
}

/// An update of a known relation is handed on with both its tuples, unless
/// the relation has no replica identity (`n`): that one is refused.
pub proof fn updates_keep_both_tuples(
    relations: Map<nat, RelView>,
    rel_id: nat,
    before: Option<Seq<DatumView>>,
    after: Seq<DatumView>,
    i: int,
)
    requires
        relations.contains_key(rel_id),
        relations[rel_id].columns.len() == after.len(),
        before matches Some(o) ==> o.len() == after.len(),
        0 <= i < after.len(),
    ensures
        relations[rel_id].replica_identity == 110 ==> change_spec(
            relations,
            MsgView::Update { rel_id, old: before, new: after },
        ) is Err,
        relations[rel_id].replica_identity != 110 ==> (change_spec(
            relations,
            MsgView::Update { rel_id, old: before, new: after },
        ) matches Ok(ChangeView::Update(rel, was, cols)) && rel == relations[rel_id].name
            && cols.len() == after.len() && cols[i] == (relations[rel_id].columns[i], after[i]) && (
        before is Some <==> was is Some) && (before matches Some(o) ==> was->0.len() == o.len()
            && was->0[i] == (relations[rel_id].columns[i], o[i]))),
{
}

/// The highest end of WAL among payloads, and no less than `mark`.
pub open spec fn highest_end(mark: nat, payloads: Seq<Seq<u8>>) -> nat
    decreases payloads.len(),
{
    if payloads.len() == 0 {
        mark
    } else {
        let before = highest_end(mark, payloads.drop_last());
        match pgoutput::wal_spec(payloads.last()) {
            Ok(WalView::Keepalive { wal_end, .. }) if wal_end > before => wal_end,
            Ok(WalView::XLogData { wal_end, .. }) if wal_end > before => wal_end,
            _ => before,
        }
    }
}

/// A stream after a run of payloads.
pub open spec fn stream_run(s: StreamView, payloads: Seq<Seq<u8>>) -> StreamView
    decreases payloads.len(),
{
    if payloads.len() == 0 {
        s
    } else {
        stream_next(stream_run(s, payloads.drop_last()), payloads.last())
    }
}

/// The received mark is the highest end of WAL that was seen, and a reply
/// reports it together with the acknowledged mark. A reply is sent exactly
/// for a keepalive that asks for one.
pub proof fn replies_report_the_marks(s: StreamView, payloads: Seq<Seq<u8>>, payload: Seq<u8>)
    ensures
        stream_run(s, payloads).last_recv == highest_end(s.last_recv, payloads),
        stream_run(s, payloads).last_ack == s.last_ack,
        stream_out(s, payload) matches Ok(ActionView::Reply(received, acked)) ==> received
            == stream_next(s, payload).last_recv && acked == s.last_ack,
        stream_out(s, payload) matches Ok(ActionView::Reply(..)) <==> (pgoutput::wal_spec(
            payload,
        ) matches Ok(WalView::Keepalive { reply_requested, .. }) && reply_requested),
    decreases payloads.len(),
{
    if payloads.len() > 0 {
        replies_report_the_marks(s, payloads.drop_last(), payload);
    }
}

proof fn lemma_column_found(cols: Seq<Seq<char>>, name: Seq<char>, i: int, k: int)
    requires
        0 <= i <= k < cols.len(),
        cols[k] == name,
        cols.no_duplicates(),
    ensures
        column_at(cols, name, i) == Some(k),
    decreases k - i,
{
    if i < k {
        assert(cols[i] != cols[k]);
        lemma_column_found(cols, name, i + 1, k);
    }
}

/// A slot that was created is entered at the position that the server
/// reports in its consistent point, in whichever column that stands.
pub proof fn created_slot_starts_at_its_consistent_point(
    cols: Seq<Seq<char>>,
    row: Seq<Option<Seq<char>>>,
    rows: Seq<Seq<Option<Seq<char>>>>,
    k: int,
    lsn: u64,
)
    requires
        cols.no_duplicates(),
        0 <= k < cols.len() == row.len(),
        cols[k] == "consistent_point"@,
        row[k] == Some(protocol::lsn_text(lsn as nat)),
    ensures
        slot_setup_spec(Ok((cols, seq![row] + rows))) == Ok::<Option<u64>, CdcErrorView>(Some(lsn)),
{
    lemma_column_found(cols, "consistent_point"@, 0, k);
    protocol::lsn_round_trip(lsn);
    assert((seq![row] + rows)[0] == row);
}

/// An acknowledgement reports at least what it acknowledges, never less than
/// before, and no less received than acknowledged; a late one for an earlier
/// position changes nothing.
pub proof fn acknowledgements_never_move_back(s: StreamView, lsn: nat)
    ensures
        ({
            let (received, acked) = ack_report(s, lsn);
            &&& acked == stream_acked(s, lsn).last_ack
            &&& acked >= lsn && acked >= s.last_ack && (acked == lsn || acked == s.last_ack)
            &&& received >= acked && received >= s.last_recv && (received == acked || received
                == s.last_recv)
            &&& stream_acked(s, lsn).last_recv == s.last_recv
            &&& stream_acked(s, lsn).assembler == s.assembler
            &&& lsn <= s.last_ack ==> stream_acked(s, lsn) == s
        }),
{
}

/// A column is found at the first place where its name stands, and nowhere
/// if the name does not occur.
pub proof fn first_of_its_name_is_found(cols: Seq<Seq<char>>, name: Seq<char>)
    ensures
        match column_at(cols, name, 0) {
            Some(k) => 0 <= k < cols.len() && cols[k] == name && !cols.take(k).contains(name),
            None => !cols.contains(name),
        },
{
    lemma_first_found(cols, name, 0);
}

proof fn lemma_first_found(cols: Seq<Seq<char>>, name: Seq<char>, i: int)
    requires
        0 <= i <= cols.len(),
        !cols.take(i).contains(name),
    ensures
        match column_at(cols, name, i) {
            Some(k) => 0 <= k < cols.len() && cols[k] == name && !cols.take(k).contains(name),
            None => !cols.contains(name),
        },
    decreases cols.len() - i,
{
    if i == cols.len() {
        assert(cols.take(i) =~= cols);
    } else if cols[i] != name {
        let next = cols.take(i + 1);
        assert(!next.contains(name)) by {
            if next.contains(name) {
                let j = choose|j: int| 0 <= j < next.len() && next[j] == name;
                assert(cols.take(i)[j] == name);
            }
        }
        lemma_first_found(cols, name, i + 1);
    }
}

/// A failure of the transport is healed by a redial, whatever it says; one
/// that the server reports is by its code alone, and only while the server
/// shuts down, starts up or still holds the slot. What does not decode or
/// apply stays as it is.
pub proof fn redial_heals_the_transport(code: Seq<char>, said: Seq<char>, other: Seq<char>)
    ensures
        transient_spec(CdcErrorView::Io(said)),
        transient_spec(CdcErrorView::Protocol(said)),
        !transient_spec(CdcErrorView::Decode(said)),
        !transient_spec(CdcErrorView::Apply(said)),
        transient_spec(CdcErrorView::Backend(code, said)) == transient_spec(
            CdcErrorView::Backend(code, other),
        ),
        transient_spec(CdcErrorView::Backend(code, said)) <==> seq![
            "57P01"@,
            "57P03"@,
            "55006"@,
        ].contains(code),
{
    let codes = seq!["57P01"@, "57P03"@, "55006"@];
    assert(codes[0] == "57P01"@ && codes[1] == "57P03"@ && codes[2] == "55006"@);
}

} // verus!

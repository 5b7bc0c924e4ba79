//! Transaction assembly, stream decisions, reconnects and the sidecar.

use facetfold::error::CdcError;
use facetfold::pgoutput::{decode_wal, PgoutputMsg, TupleDatum, WalMsg};
use facetfold::protocol::TextResult;
use facetfold::sidecar::{start_plan, Sidecar, Start, Step};
use facetfold::source::{
    create_slot_sql, find_column, is_transient, slot_setup, CommittedTx, Reconnect, RowChange,
    SlotSetup, SourceConfig, StreamAction, StreamState, TxAssembler,
};

/// Commit timestamp used inside the message bodies.
const TS: i64 = 812_000_000_000_000;
/// Base LSN used by the messages.
const LSN: u64 = 0x0000_000A_0000_F000;

fn s(v: &str) -> TupleDatum {
    TupleDatum::text(v)
}

fn null() -> TupleDatum {
    TupleDatum::Null
}

fn tuple(cols: &[TupleDatum]) -> Vec<u8> {
    let mut b = (cols.len() as u16).to_be_bytes().to_vec();
    for c in cols {
        match c {
            TupleDatum::Null => b.push(b'n'),
            TupleDatum::Unchanged => b.push(b'u'),
            TupleDatum::Text(t) => {
                b.push(b't');
                b.extend_from_slice(&(t.len() as i32).to_be_bytes());
                b.extend_from_slice(t.as_bytes());
            }
        }
    }
    b
}

fn begin(final_lsn: u64, xid: u32) -> Vec<u8> {
    let mut b = vec![b'B'];
    b.extend_from_slice(&final_lsn.to_be_bytes());
    b.extend_from_slice(&TS.to_be_bytes());
    b.extend_from_slice(&xid.to_be_bytes());
    b
}

fn commit(lsn: u64, end_lsn: u64) -> Vec<u8> {
    let mut b = vec![b'C', 0];
    b.extend_from_slice(&lsn.to_be_bytes());
    b.extend_from_slice(&end_lsn.to_be_bytes());
    b.extend_from_slice(&TS.to_be_bytes());
    b
}

fn relation(rel_id: u32, name: &str, identity: u8, cols: &[&str]) -> Vec<u8> {
    let mut b = vec![b'R'];
    b.extend_from_slice(&rel_id.to_be_bytes());
    b.extend_from_slice(b"public\0");
    b.extend_from_slice(name.as_bytes());
    b.push(0);
    b.push(identity);
    b.extend_from_slice(&(cols.len() as u16).to_be_bytes());
    for c in cols {
        b.push(0);
        b.extend_from_slice(c.as_bytes());
        b.push(0);
        b.extend_from_slice(&25u32.to_be_bytes());
        b.extend_from_slice(&(-1i32).to_be_bytes());
    }
    b
}

fn insert(rel_id: u32, new: &[TupleDatum]) -> Vec<u8> {
    let mut b = vec![b'I'];
    b.extend_from_slice(&rel_id.to_be_bytes());
    b.push(b'N');
    b.extend_from_slice(&tuple(new));
    b
}

fn delete(rel_id: u32, kind: u8, old: &[TupleDatum]) -> Vec<u8> {
    let mut b = vec![b'D'];
    b.extend_from_slice(&rel_id.to_be_bytes());
    b.push(kind);
    b.extend_from_slice(&tuple(old));
    b
}

fn update(rel_id: u32, old: Option<(u8, &[TupleDatum])>, new: &[TupleDatum]) -> Vec<u8> {
    let mut b = vec![b'U'];
    b.extend_from_slice(&rel_id.to_be_bytes());
    if let Some((kind, old)) = old {
        b.push(kind);
        b.extend_from_slice(&tuple(old));
    }
    b.push(b'N');
    b.extend_from_slice(&tuple(new));
    b
}

/// An XLogData envelope around one message.
fn wal(start: u64, end: u64, body: &[u8]) -> Vec<u8> {
    let mut b = vec![b'w'];
    b.extend_from_slice(&start.to_be_bytes());
    b.extend_from_slice(&end.to_be_bytes());
    b.extend_from_slice(&0i64.to_be_bytes());
    b.extend_from_slice(body);
    b
}

fn keepalive(end: u64, reply: bool) -> Vec<u8> {
    let mut b = vec![b'k'];
    b.extend_from_slice(&end.to_be_bytes());
    b.extend_from_slice(&0i64.to_be_bytes());
    b.push(u8::from(reply));
    b
}

/// Decode an XLogData frame, assert the envelope, return the message.
fn xlog(payload: &[u8], want_start: u64, want_end: u64) -> PgoutputMsg {
    match decode_wal(payload).expect("frame must decode") {
        WalMsg::XLogData { wal_start, wal_end, msg } => {
            assert_eq!(wal_start, want_start, "envelope wal_start");
            assert_eq!(wal_end, want_end, "envelope wal_end");
            msg
        }
        WalMsg::Keepalive { .. } => panic!("expected XLogData, got keepalive"),
    }
}

#[test]
fn multi_row_tx_every_field_exact() {
    let end = LSN + 0x200;
    let f = [
        wal(LSN, end, &begin(LSN + 0x100, 741)),
        wal(0, end, &relation(5001, "corpus_t", b'f', &["id", "name"])),
        wal(LSN + 0x10, end, &insert(5001, &[s("1"), s("alpha")])),
        wal(LSN + 0x20, end, &insert(5001, &[s("2"), s("beta")])),
        wal(LSN + 0x30, end, &insert(5001, &[s("3"), s("gamma")])),
        wal(LSN + 0x40, end, &delete(5001, b'O', &[s("2"), s("beta")])),
        wal(LSN + 0x100, end, &commit(LSN + 0x100, LSN + 0x108)),
    ];
    match xlog(&f[0], LSN, end) {
        PgoutputMsg::Begin { final_lsn, commit_ts_us, xid } => {
            assert_eq!(final_lsn, LSN + 0x100);
            assert_eq!(commit_ts_us, TS);
            assert_eq!(xid, 741);
        }
        _ => panic!("frame 0: want Begin"),
    }
    match xlog(&f[1], 0, end) {
        PgoutputMsg::Relation { rel_id, namespace, name, replica_identity, columns } => {
            assert_eq!(rel_id, 5001);
            assert_eq!(namespace, "public");
            assert_eq!(name, "corpus_t");
            assert_eq!(replica_identity, b'f');
            assert_eq!(columns, vec!["id".to_string(), "name".to_string()]);
        }
        _ => panic!("frame 1: want Relation"),
    }
    let want_rows = [["1", "alpha"], ["2", "beta"], ["3", "gamma"]];
    for (i, want) in want_rows.iter().enumerate() {
        match xlog(&f[2 + i], LSN + 0x10 * (i as u64 + 1), end) {
            PgoutputMsg::Insert { rel_id, new } => {
                assert_eq!(rel_id, 5001);
                assert_eq!(new, vec![s(want[0]), s(want[1])]);
            }
            _ => panic!("frame {}: want Insert", 2 + i),
        }
    }
    match xlog(&f[5], LSN + 0x40, end) {
        PgoutputMsg::Delete { rel_id, old } => {
            assert_eq!(rel_id, 5001);
            assert_eq!(old, vec![s("2"), s("beta")], "REPLICA IDENTITY FULL old tuple");
        }
        _ => panic!("frame 5: want Delete"),
    }
    match xlog(&f[6], LSN + 0x100, end) {
        PgoutputMsg::Commit { end_lsn, commit_ts_us } => {
            assert_eq!(end_lsn, LSN + 0x108, "ack point = commit end lsn");
            assert_eq!(commit_ts_us, TS);
        }
        _ => panic!("frame 6: want Commit"),
    }
}

#[test]
fn null_columns_decode_as_none() {
    match xlog(&wal(LSN, LSN, &insert(5002, &[null(), s("x"), null()])), LSN, LSN) {
        PgoutputMsg::Insert { rel_id, new } => {
            assert_eq!(rel_id, 5002);
            assert_eq!(new, vec![null(), s("x"), null()]);
        }
        _ => panic!("want Insert"),
    }
    match xlog(&wal(LSN, LSN, &insert(5002, &[s("7"), null(), s("3.5")])), LSN, LSN) {
        PgoutputMsg::Insert { new, .. } => assert_eq!(new, vec![s("7"), null(), s("3.5")]),
        _ => panic!("want Insert"),
    }
    // key-only ('K') delete: non-key columns arrive as NULL
    match xlog(&wal(LSN, LSN, &delete(5002, b'K', &[s("7"), null(), null()])), LSN, LSN) {
        PgoutputMsg::Delete { rel_id, old } => {
            assert_eq!(rel_id, 5002);
            assert_eq!(old, vec![s("7"), null(), null()]);
        }
        _ => panic!("want Delete"),
    }
}

#[test]
fn unchanged_toast_is_distinct_from_null() {
    let f = wal(LSN, LSN, &insert(5004, &[s("7"), TupleDatum::Unchanged, s("z")]));
    match xlog(&f, LSN, LSN) {
        PgoutputMsg::Insert { rel_id, new } => {
            assert_eq!(rel_id, 5004);
            assert_eq!(new, vec![s("7"), TupleDatum::Unchanged, s("z")]);
        }
        _ => panic!("want Insert"),
    }
    // an Update new-tuple carrying all three markers in one tuple
    let f = wal(LSN, LSN, &update(5004, None, &[s("7"), TupleDatum::Unchanged, null()]));
    match xlog(&f, LSN, LSN) {
        PgoutputMsg::Update { rel_id, old, new } => {
            assert_eq!(rel_id, 5004);
            assert!(old.is_none(), "no old tuple in this frame");
            assert_eq!(new, vec![s("7"), TupleDatum::Unchanged, null()]);
            assert_ne!(new[1], new[2], "'u' and 'n' must not collapse");
        }
        _ => panic!("want Update"),
    }
}

#[test]
fn update_variants_assemble_into_row_changes() {
    // The three Update old-tuple shapes: 'O' (REPLICA IDENTITY FULL), 'K'
    // (DEFAULT, key changed), absent (DEFAULT, key untouched).
    let full = [s("1"), s("old_v")];
    let key = [s("2"), null()];
    let f = [
        begin(LSN + 0x100, 742),
        relation(7001, "upd_full_t", b'f', &["id", "val"]),
        relation(7002, "upd_dflt_t", b'd', &["id", "val"]),
        update(7001, Some((b'O', &full)), &[s("1"), s("new_v")]),
        update(7002, Some((b'K', &key)), &[s("9"), s("moved")]),
        update(7002, None, &[s("3"), s("direct")]),
        commit(LSN + 0x100, LSN + 0x108),
    ];
    let mut assembler = TxAssembler::new();
    let mut committed: Option<CommittedTx> = None;
    for frame in &f {
        match decode_wal(&wal(LSN, LSN, frame)).unwrap() {
            WalMsg::XLogData { msg, .. } => {
                if let Some(tx) = assembler.on_msg(msg).unwrap() {
                    committed = Some(tx);
                }
            }
            WalMsg::Keepalive { .. } => panic!("no keepalives here"),
        }
    }
    let tx = committed.expect("Commit must yield the transaction");
    assert_eq!(tx.end_lsn, LSN + 0x108);
    assert_eq!(tx.changes.len(), 3);
    match &tx.changes[0] {
        RowChange::Update { rel, old, new } => {
            assert_eq!(rel, "upd_full_t");
            let old = old.as_ref().expect("'O' old tuple present");
            assert_eq!(old[0], ("id".to_string(), s("1")));
            assert_eq!(old[1], ("val".to_string(), s("old_v")));
            assert_eq!(new[1], ("val".to_string(), s("new_v")));
        }
        _ => panic!("change 0: want Update"),
    }
    match &tx.changes[1] {
        RowChange::Update { rel, old, new } => {
            assert_eq!(rel, "upd_dflt_t");
            let old = old.as_ref().expect("'K' old tuple present");
            assert_eq!(old[0], ("id".to_string(), s("2")));
            assert_eq!(old[1], ("val".to_string(), null()), "key-only: non-key NULL");
            assert_eq!(new[0], ("id".to_string(), s("9")), "pk change");
        }
        _ => panic!("change 1: want Update"),
    }
    match &tx.changes[2] {
        RowChange::Update { rel, old, new } => {
            assert_eq!(rel, "upd_dflt_t");
            assert!(old.is_none(), "key untouched: no old tuple");
            assert_eq!(new[1], ("val".to_string(), s("direct")));
        }
        _ => panic!("change 2: want Update"),
    }
}

#[test]
fn replica_identity_nothing_update_is_typed_error_naming_the_fix() {
    let mut assembler = TxAssembler::new();
    let rel_msg = xlog(&wal(0, LSN, &relation(7003, "upd_none_t", b'n', &["id"])), 0, LSN);
    assert!(matches!(rel_msg, PgoutputMsg::Relation { replica_identity: b'n', .. }));
    assembler.on_msg(rel_msg).unwrap();
    let upd_msg = xlog(&wal(LSN, LSN, &update(7003, None, &[s("1")])), LSN, LSN);
    let err = assembler.on_msg(upd_msg).unwrap_err().to_text();
    assert!(err.contains("REPLICA IDENTITY NOTHING"), "got: {err}");
    assert!(
        err.contains("ALTER TABLE upd_none_t REPLICA IDENTITY"),
        "the error must name the fix: {err}"
    );
}

#[test]
fn relation_resent_with_added_column_decodes() {
    let f = [
        wal(0, LSN, &relation(6001, "grow_t", b'f', &["id", "name"])),
        wal(LSN, LSN, &insert(6001, &[s("1"), s("before")])),
        wal(0, LSN, &relation(6001, "grow_t", b'f', &["id", "name", "extra"])),
        wal(LSN, LSN, &insert(6001, &[s("2"), s("after"), s("surplus")])),
    ];
    match xlog(&f[0], 0, LSN) {
        PgoutputMsg::Relation { rel_id, columns, .. } => {
            assert_eq!((rel_id, columns.len()), (6001, 2));
        }
        _ => panic!("want Relation v1"),
    }
    match xlog(&f[1], LSN, LSN) {
        PgoutputMsg::Insert { new, .. } => assert_eq!(new, vec![s("1"), s("before")]),
        _ => panic!("want Insert (2 cols)"),
    }
    match xlog(&f[2], 0, LSN) {
        PgoutputMsg::Relation { rel_id, namespace, name, columns, .. } => {
            assert_eq!(rel_id, 6001);
            assert_eq!((namespace.as_str(), name.as_str()), ("public", "grow_t"));
            assert_eq!(
                columns,
                vec!["id".to_string(), "name".to_string(), "extra".to_string()]
            );
        }
        _ => panic!("want Relation v2"),
    }
    match xlog(&f[3], LSN, LSN) {
        PgoutputMsg::Insert { new, .. } => {
            assert_eq!(new, vec![s("2"), s("after"), s("surplus")]);
        }
        _ => panic!("want Insert (3 cols)"),
    }
}

#[test]
fn origin_type_truncate_are_ignored_not_errors() {
    for want in [b'O', b'Y', b'T'] {
        match xlog(&wal(LSN, LSN, &[want, 0, 0, 0, 1]), LSN, LSN) {
            PgoutputMsg::Other(tag) => assert_eq!(tag, want),
            _ => panic!("Origin/Type/Truncate must decode as Other"),
        }
    }
}

#[test]
fn keepalive_reply_flag_both_ways() {
    match decode_wal(&keepalive(0x0000_000B_0000_0010, true)).unwrap() {
        WalMsg::Keepalive { wal_end, reply_requested } => {
            assert_eq!(wal_end, 0x0000_000B_0000_0010);
            assert!(reply_requested, "reply-requested flag set");
        }
        _ => panic!("want Keepalive"),
    }
    match decode_wal(&keepalive(0x0000_000B_0000_0020, false)).unwrap() {
        WalMsg::Keepalive { wal_end, reply_requested } => {
            assert_eq!(wal_end, 0x0000_000B_0000_0020);
            assert!(!reply_requested, "reply-requested flag clear");
        }
        _ => panic!("want Keepalive"),
    }
}

fn backend(code: &str, message: &str) -> CdcError {
    CdcError::Backend { code: code.into(), message: message.into() }
}

/// The transient/semantic split, the exact classification the reconnect
/// loop keys on.
#[test]
fn transient_error_classification() {
    let transient = [
        CdcError::Io("broken pipe".into()),
        CdcError::Protocol("connection closed".into()),
        backend("57P01", "terminating"),
        backend("57P03", "starting up"),
        backend("55006", "slot active"),
    ];
    for e in &transient {
        assert!(is_transient(e), "must be retryable: {}", e.to_text());
    }
    let semantic = [
        CdcError::Decode("bad tuple".into()),
        CdcError::Apply("out of sync".into()),
        backend("42710", "duplicate"),
        backend("42601", "syntax"),
    ];
    for e in &semantic {
        assert!(!is_transient(e), "must NOT be retryable: {}", e.to_text());
    }
}

#[test]
fn a_large_transaction_is_delivered_whole_at_commit() {
    let mut st = StreamState::new();
    let quiet = |a: StreamAction| assert!(matches!(a, StreamAction::Continue));
    quiet(st.on_payload(&wal(1, 1, &begin(9, 1))).unwrap());
    quiet(st.on_payload(&wal(1, 1, &relation(3, "big", b'f', &["id"]))).unwrap());
    for i in 0..5000u32 {
        quiet(st.on_payload(&wal(1, 2, &insert(3, &[s(&i.to_string())]))).unwrap());
    }
    match st.on_payload(&wal(1, 3, &commit(9, 11))).unwrap() {
        StreamAction::Yield(tx) => {
            assert_eq!(tx.changes.len(), 5000);
            assert_eq!(tx.end_lsn, 11);
            assert!(tx
                .changes
                .iter()
                .all(|c| matches!(c, RowChange::Insert { rel, .. } if rel == "big")));
        }
        _ => panic!("commit must yield"),
    }
}

#[test]
fn a_change_before_its_relation_is_refused() {
    let mut assembler = TxAssembler::new();
    let m = xlog(&wal(LSN, LSN, &insert(77, &[s("1")])), LSN, LSN);
    assert!(assembler.on_msg(m).is_err());
}

#[test]
fn status_marks_never_move_back() {
    let mut st = StreamState::new();
    match st.on_payload(&keepalive(500, true)).unwrap() {
        StreamAction::Reply(x) => assert_eq!((x.received, x.acked), (500, 0)),
        _ => panic!("a reply was requested"),
    }
    let x = st.on_ack(400);
    assert_eq!((x.received, x.acked), (500, 400));
    let x = st.on_ack(300);
    assert_eq!((x.received, x.acked), (500, 400));
    match st.on_payload(&keepalive(450, true)).unwrap() {
        StreamAction::Reply(x) => assert_eq!((x.received, x.acked), (500, 400)),
        _ => panic!("a reply was requested"),
    }
}

#[test]
fn a_redial_drops_the_open_transaction() {
    let mut st = StreamState::new();
    st.on_payload(&wal(1, 1, &begin(9, 1))).unwrap();
    st.on_payload(&wal(1, 1, &relation(3, "t", b'f', &["id"]))).unwrap();
    st.on_payload(&wal(1, 1, &insert(3, &[s("1")]))).unwrap();
    st.on_redial();
    st.on_payload(&wal(1, 1, &begin(9, 1))).unwrap();
    st.on_payload(&wal(1, 1, &relation(3, "t", b'f', &["id"]))).unwrap();
    st.on_payload(&wal(1, 1, &insert(3, &[s("1")]))).unwrap();
    match st.on_payload(&wal(1, 1, &commit(9, 11))).unwrap() {
        StreamAction::Yield(tx) => assert_eq!(tx.changes.len(), 1),
        _ => panic!("commit must yield"),
    }
}

#[test]
fn reconnects_stop_after_the_last_attempt() {
    let mut r = Reconnect::new(2);
    for _ in 0..2 {
        r.attempt().unwrap();
        r.failed(CdcError::Io("down".into())).unwrap();
    }
    assert_eq!(r.attempt().unwrap_err().to_text(), "io: down");
    // the last error comes out as it is
    let mut r = Reconnect::new(2);
    for text in ["going down", "starting up"] {
        r.attempt().unwrap();
        r.failed(CdcError::Backend { code: "57P03".into(), message: text.into() }).unwrap();
    }
    match r.attempt() {
        Err(CdcError::Backend { code, message }) => {
            assert_eq!((code.as_str(), message.as_str()), ("57P03", "starting up"));
        }
        other => panic!("got {other:?}"),
    }
    // what will not go away is not retried
    let mut r = Reconnect::new(2);
    r.attempt().unwrap();
    assert!(r.failed(CdcError::Apply("out of sync".into())).is_err());
}

fn slot_answer(cols: &[&str], vals: &[Option<&str>]) -> TextResult {
    (
        cols.iter().map(|c| c.to_string()).collect(),
        vec![vals.iter().map(|v| v.map(|t| t.to_string())).collect()],
    )
}

#[test]
fn slot_creation_answers() {
    assert_eq!(
        create_slot_sql("s1"),
        "CREATE_REPLICATION_SLOT s1 LOGICAL pgoutput USE_SNAPSHOT"
    );
    let ok = slot_answer(
        &["slot_name", "consistent_point", "snapshot_name"],
        &[Some("s1"), Some("0/16B2D50"), None],
    );
    match slot_setup(Ok(ok)).unwrap() {
        SlotSetup::CreatedSnapshotOpen { consistent_point } => {
            assert_eq!(consistent_point, 0x16B2D50);
        }
        SlotSetup::AlreadyExists => panic!("the slot is new"),
    }
    assert!(matches!(
        slot_setup(Err(backend("42710", "exists"))).unwrap(),
        SlotSetup::AlreadyExists
    ));
    assert!(slot_setup(Err(backend("42601", "syntax"))).is_err());
    assert!(slot_setup(Ok(slot_answer(&["slot_name"], &[Some("s1")]))).is_err());
    let cols: Vec<String> = vec!["a".into(), "b".into()];
    assert_eq!(find_column(&cols, "b"), Some(1));
    assert_eq!(find_column(&cols, "c"), None);
}

#[test]
fn local_default_takes_the_user_or_postgres() {
    let c = SourceConfig::local_default("s1", Some("ann".into()));
    assert_eq!(c.user, "ann");
    assert_eq!(c.slot, "s1");
    assert_eq!(SourceConfig::local_default("s1", None).user, "postgres");
}

#[test]
fn sidecar_starts_from_a_snapshot_or_from_its_state() {
    let new = SlotSetup::CreatedSnapshotOpen { consistent_point: 7 };
    assert_eq!(start_plan(&new, false, "s1").unwrap(), Start::Snapshot);
    assert_eq!(start_plan(&new, true, "s1").unwrap(), Start::Snapshot);
    assert_eq!(start_plan(&SlotSetup::AlreadyExists, true, "s1").unwrap(), Start::Resume);
    let e = start_plan(&SlotSetup::AlreadyExists, false, "s1").unwrap_err().to_text();
    assert!(e.contains("slot s1 exists; resume with --state PATH"), "got: {e}");
    assert!(e.contains("pg_drop_replication_slot('s1')"), "got: {e}");
}

#[test]
fn sidecar_saves_before_it_acknowledges() {
    let mut c = Sidecar::new(0);
    assert_eq!(c.on_tx(true, 1, 2, 3), vec![Step::Save, Step::Ack, Step::Report]);
    assert_eq!(c.on_tx(true, 2, 2, 0), vec![Step::Ack]);
    assert_eq!(c.on_tx(false, 1, 2, 1), vec![Step::Ack, Step::Report]);
    assert!(!c.on_idle());
}

#[test]
fn sidecar_stops_after_the_idle_limit() {
    let mut c = Sidecar::new(2);
    assert!(!c.on_idle());
    c.on_tx(false, 1, 1, 0);
    assert!(!c.on_idle());
    assert!(c.on_idle());
}

#[test]
fn a_transaction_holds_what_was_accepted_between_begin_and_commit() {
    let mut assembler = TxAssembler::new();
    let mut send = |body: &[u8]| assembler.on_msg(xlog(&wal(1, 1, body), 1, 1));
    assert!(send(&begin(9, 1)).unwrap().is_none());
    assert!(send(&relation(3, "t", b'f', &["id"])).unwrap().is_none());
    assert!(send(&insert(3, &[s("1")])).unwrap().is_none());
    assert!(send(&insert(4, &[s("x")])).is_err());
    // a message of a kind that carries nothing, and the relation once more
    assert!(send(&[b'O', 0]).unwrap().is_none());
    assert!(send(&relation(3, "t", b'f', &["id", "name"])).unwrap().is_none());
    assert!(send(&insert(3, &[s("2"), s("b")])).unwrap().is_none());
    let tx = send(&commit(9, 11)).unwrap().unwrap();
    let widths: Vec<usize> = tx
        .changes
        .iter()
        .map(|c| match c {
            RowChange::Insert { cols, .. } => cols.len(),
            _ => panic!("only inserts were sent"),
        })
        .collect();
    assert_eq!(widths, vec![1, 2]);
    assert_eq!(send(&commit(9, 12)).unwrap().unwrap().changes.len(), 0);
}

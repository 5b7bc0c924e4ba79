//! Decoding of pgoutput messages.

use facetfold::error::CdcError;
use facetfold::pgoutput::{decode_pgoutput, decode_wal, PgoutputMsg, TupleDatum, WalMsg};


/// Datum spec for the byte builder: `Some(s)` = text, `None` =
/// SQL NULL; unchanged TOAST is pushed by `toast_marker`.
fn tuple_bytes(cols: &[Option<&str>]) -> Vec<u8> {
    let mut b = (cols.len() as u16).to_be_bytes().to_vec();
    for c in cols {
        match c {
            None => b.push(b'n'),
            Some(s) => {
                b.push(b't');
                b.extend_from_slice(&(s.len() as i32).to_be_bytes());
                b.extend_from_slice(s.as_bytes());
            }
        }
    }
    b
}

#[test]
fn decodes_insert() {
    let mut m = vec![b'I'];
    m.extend_from_slice(&77u32.to_be_bytes());
    m.push(b'N');
    m.extend_from_slice(&tuple_bytes(&[Some("1"), Some("action"), None]));
    match decode_pgoutput(&m).unwrap() {
        PgoutputMsg::Insert { rel_id, new } => {
            assert_eq!(rel_id, 77);
            assert_eq!(
                new,
                vec![
                    TupleDatum::text("1"),
                    TupleDatum::text("action"),
                    TupleDatum::Null
                ]
            );
        }
        _ => panic!("wrong variant"),
    }
}

#[test]
fn decodes_delete_old_tuple() {
    let mut m = vec![b'D'];
    m.extend_from_slice(&77u32.to_be_bytes());
    m.push(b'O');
    m.extend_from_slice(&tuple_bytes(&[Some("42")]));
    match decode_pgoutput(&m).unwrap() {
        PgoutputMsg::Delete { rel_id, old } => {
            assert_eq!(rel_id, 77);
            assert_eq!(old, vec![TupleDatum::text("42")]);
        }
        _ => panic!("wrong variant"),
    }
}

#[test]
fn decodes_update_with_key_old_tuple_and_unchanged_toast() {
    // U rel_id 'K' <old: key only> 'N' <new with 'u' marker>
    let mut m = vec![b'U'];
    m.extend_from_slice(&77u32.to_be_bytes());
    m.push(b'K');
    m.extend_from_slice(&tuple_bytes(&[Some("42"), None]));
    m.push(b'N');
    // new tuple: id text, payload UNCHANGED ('u') — build by hand
    let mut new = 2u16.to_be_bytes().to_vec();
    new.push(b't');
    new.extend_from_slice(&2i32.to_be_bytes());
    new.extend_from_slice(b"42");
    new.push(b'u');
    m.extend_from_slice(&new);
    match decode_pgoutput(&m).unwrap() {
        PgoutputMsg::Update { rel_id, old, new } => {
            assert_eq!(rel_id, 77);
            assert_eq!(
                old,
                Some(vec![TupleDatum::text("42"), TupleDatum::Null]),
                "'K' old tuple: key value + NULL for non-key"
            );
            assert_eq!(new, vec![TupleDatum::text("42"), TupleDatum::Unchanged]);
            assert_ne!(
                new[1],
                TupleDatum::Null,
                "unchanged TOAST must be distinguishable from NULL"
            );
        }
        _ => panic!("wrong variant"),
    }
}

#[test]
fn decodes_update_without_old_tuple() {
    // replica identity DEFAULT, key untouched: no old tuple at all
    let mut m = vec![b'U'];
    m.extend_from_slice(&77u32.to_be_bytes());
    m.push(b'N');
    m.extend_from_slice(&tuple_bytes(&[Some("42"), Some("v2")]));
    match decode_pgoutput(&m).unwrap() {
        PgoutputMsg::Update { old, new, .. } => {
            assert!(old.is_none());
            assert_eq!(new, vec![TupleDatum::text("42"), TupleDatum::text("v2")]);
        }
        _ => panic!("wrong variant"),
    }
}

#[test]
fn decodes_relation() {
    let mut m = vec![b'R'];
    m.extend_from_slice(&77u32.to_be_bytes());
    m.extend_from_slice(b"public\0cdc_movies\0");
    m.push(b'f'); // replica identity full
    m.extend_from_slice(&2u16.to_be_bytes());
    m.push(1);
    m.extend_from_slice(b"movie_id\0");
    m.extend_from_slice(&23u32.to_be_bytes());
    m.extend_from_slice(&(-1i32).to_be_bytes());
    m.push(0);
    m.extend_from_slice(b"genre\0");
    m.extend_from_slice(&25u32.to_be_bytes());
    m.extend_from_slice(&(-1i32).to_be_bytes());
    match decode_pgoutput(&m).unwrap() {
        PgoutputMsg::Relation {
            rel_id,
            namespace,
            name,
            replica_identity,
            columns,
        } => {
            assert_eq!(
                (rel_id, namespace.as_str(), name.as_str()),
                (77, "public", "cdc_movies")
            );
            assert_eq!(replica_identity, b'f', "identity byte is carried");
            assert_eq!(columns, vec!["movie_id", "genre"]);
        }
        _ => panic!("wrong variant"),
    }
}

#[test]
fn decodes_keepalive_envelope() {
    let mut m = vec![b'k'];
    m.extend_from_slice(&0x1_0000_0000u64.to_be_bytes());
    m.extend_from_slice(&0i64.to_be_bytes());
    m.push(1);
    match decode_wal(&m).unwrap() {
        WalMsg::Keepalive {
            wal_end,
            reply_requested,
        } => {
            assert_eq!(wal_end, 0x1_0000_0000);
            assert!(reply_requested);
        }
        _ => panic!("wrong variant"),
    }
}

#[test]
fn short_message_is_an_error_not_a_panic() {
    assert!(decode_pgoutput(&[b'I', 0, 0]).is_err());
    assert!(decode_wal(&[b'w', 1, 2]).is_err());
}

fn decode_text(r: Result<PgoutputMsg, CdcError>) -> String {
    match r {
        Err(CdcError::Decode(m)) => m,
        other => panic!("expected a decode error, got {other:?}"),
    }
}

#[test]
fn begin_and_commit_carry_their_fields() {
    let mut m = vec![b'B'];
    m.extend_from_slice(&0xA_0000_F100u64.to_be_bytes());
    m.extend_from_slice(&812_000_000_000_000i64.to_be_bytes());
    m.extend_from_slice(&741u32.to_be_bytes());
    match decode_pgoutput(&m).unwrap() {
        PgoutputMsg::Begin { final_lsn, commit_ts_us, xid } => {
            assert_eq!((final_lsn, commit_ts_us, xid), (0xA_0000_F100, 812_000_000_000_000, 741));
        }
        _ => panic!("wrong variant"),
    }
    let mut m = vec![b'C', 0];
    m.extend_from_slice(&1u64.to_be_bytes());
    m.extend_from_slice(&0xFFFF_FFFF_FFFF_FFFEu64.to_be_bytes());
    m.extend_from_slice(&(-5i64).to_be_bytes());
    match decode_pgoutput(&m).unwrap() {
        PgoutputMsg::Commit { end_lsn, commit_ts_us } => {
            assert_eq!((end_lsn, commit_ts_us), (0xFFFF_FFFF_FFFF_FFFE, -5));
        }
        _ => panic!("wrong variant"),
    }
}

#[test]
fn other_messages_are_carried_by_tag() {
    for tag in [b'O', b'Y', b'T', b'M'] {
        match decode_pgoutput(&[tag, 1, 2, 3]).unwrap() {
            PgoutputMsg::Other(t) => assert_eq!(t, tag),
            _ => panic!("wrong variant"),
        }
    }
}

#[test]
fn every_malformation_has_its_message() {
    assert_eq!(decode_text(decode_pgoutput(&[])), "short pgoutput message");
    assert_eq!(decode_text(decode_pgoutput(&[b'B', 1])), "short pgoutput message");
    assert_eq!(
        decode_text(decode_pgoutput(&[b'I', 0, 0, 0, 1, b'X', 0, 0])),
        "insert tuple kind 'X', want 'N'"
    );
    assert_eq!(
        decode_text(decode_pgoutput(&[b'D', 0, 0, 0, 1, b'N', 0, 0])),
        "delete tuple kind 'N', want 'O'/'K'"
    );
    assert_eq!(
        decode_text(decode_pgoutput(&[b'U', 0, 0, 0, 1, b'Q', 0, 0])),
        "update tuple kind 'Q', want 'N'"
    );
    assert_eq!(
        decode_text(decode_pgoutput(&[b'I', 0, 0, 0, 1, b'N', 0, 1, b'b'])),
        "tuple column kind 'b' (binary streams unsupported)"
    );
    assert_eq!(
        decode_text(decode_pgoutput(&[b'I', 0, 0, 0, 1, b'N', 0, 1, b't', 0xFF, 0xFF, 0xFF, 0xFF])),
        "negative tuple text length"
    );
    assert_eq!(
        decode_text(decode_pgoutput(&[b'R', 0, 0, 0, 1, b'p', b'u'])),
        "unterminated string"
    );
    match decode_wal(&[b'?']) {
        Err(CdcError::Decode(m)) => assert_eq!(m, "unknown stream message '?'"),
        other => panic!("got {other:?}"),
    }
}

#[test]
fn xlog_envelope_wraps_one_message() {
    let mut m = vec![b'w'];
    m.extend_from_slice(&7u64.to_be_bytes());
    m.extend_from_slice(&9u64.to_be_bytes());
    m.extend_from_slice(&0i64.to_be_bytes());
    m.push(b'O');
    match decode_wal(&m).unwrap() {
        WalMsg::XLogData { wal_start, wal_end, msg } => {
            assert_eq!((wal_start, wal_end), (7, 9));
            assert!(matches!(msg, PgoutputMsg::Other(b'O')));
        }
        _ => panic!("wrong variant"),
    }
}

#[test]
fn malformed_utf8_is_replaced_not_refused() {
    let m = [b'I', 0, 0, 0, 1, b'N', 0, 1, b't', 0, 0, 0, 2, 0xFF, b'a'];
    match decode_pgoutput(&m).unwrap() {
        PgoutputMsg::Insert { new, .. } => assert_eq!(new, vec![TupleDatum::text("\u{FFFD}a")]),
        _ => panic!("wrong variant"),
    }
}

#[test]
fn text_edge_values_survive_byte_exact() {
    let want: [[&str; 2]; 3] = [
        ["he said \"hi\"", "line1\nline2\r\n\ttab"],
        ["it's O'Brien; DROP TABLE--", ""],
        ["汉字 café ñ", "emoji 😀🎬 end"],
    ];
    for w in want {
        let mut m = vec![b'I'];
        m.extend_from_slice(&5003u32.to_be_bytes());
        m.push(b'N');
        m.extend_from_slice(&tuple_bytes(&[Some(w[0]), Some(w[1])]));
        match decode_pgoutput(&m).unwrap() {
            PgoutputMsg::Insert { rel_id, new } => {
                assert_eq!(rel_id, 5003);
                assert_eq!(new, vec![TupleDatum::text(w[0]), TupleDatum::text(w[1])]);
            }
            _ => panic!("want Insert"),
        }
    }
}

#[test]
fn a_message_ends_where_its_last_field_does() {
    let mut m = vec![b'I'];
    m.extend_from_slice(&77u32.to_be_bytes());
    m.push(b'N');
    m.extend_from_slice(&tuple_bytes(&[Some("1"), None, Some("action")]));
    for cut in 0..m.len() {
        assert!(decode_pgoutput(&m[..cut]).is_err(), "cut at {cut}");
    }
    let whole = decode_pgoutput(&m).unwrap();
    m.extend_from_slice(b"more");
    let longer = decode_pgoutput(&m).unwrap();
    match (whole, longer) {
        (PgoutputMsg::Insert { rel_id: a, new: x }, PgoutputMsg::Insert { rel_id: b, new: y }) => {
            assert_eq!((a, x), (b, y));
        }
        _ => panic!("wrong variant"),
    }
}

#[test]
fn bytes_behind_a_keepalive_are_ignored() {
    let mut p = vec![b'k'];
    p.extend_from_slice(&9u64.to_be_bytes());
    p.extend_from_slice(&5i64.to_be_bytes());
    p.push(1);
    p.extend_from_slice(b"rest");
    match decode_wal(&p).unwrap() {
        WalMsg::Keepalive { wal_end, reply_requested } => {
            assert_eq!((wal_end, reply_requested), (9, true));
        }
        _ => panic!("wrong variant"),
    }
}

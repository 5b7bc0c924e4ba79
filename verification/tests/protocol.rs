//! The frontend/backend protocol.

use facetfold::error::CdcError;
use facetfold::protocol::{
    backend_err, data_row, fmt_lsn, frame, now_pg_us, on_copy_msg, on_replication_msg,
    on_startup_msg, parse_lsn, payload_length, pg_us, query_message, readable, row_description,
    row_description_fits, socket_path, start_replication_sql, startup_message, status_message,
    BackendMsg, QueryState, ReplicationStart, PG_EPOCH_OFFSET_US,
};


#[test]
fn lsn_round_trip() {
    for lsn in [0u64, 0x16B374D68, u64::from(u32::MAX), u64::MAX] {
        assert_eq!(parse_lsn(&fmt_lsn(lsn)).unwrap(), lsn);
    }
    assert_eq!(parse_lsn("1/6B374D68").unwrap(), 0x16B374D68);
    assert!(parse_lsn("nope").is_err());
}

#[test]
fn data_row_decodes_nulls_and_text() {
    // 2 cols: "42", NULL
    let mut p = vec![0, 2];
    p.extend_from_slice(&2i32.to_be_bytes());
    p.extend_from_slice(b"42");
    p.extend_from_slice(&(-1i32).to_be_bytes());
    let row = data_row(&p).unwrap();
    assert_eq!(row, vec![Some("42".into()), None]);
}

#[test]
fn pg_epoch_offset_is_2000_01_01() {
    // 946684800 s between 1970-01-01 and 2000-01-01.
    assert_eq!(PG_EPOCH_OFFSET_US, 946_684_800 * 1_000_000);
}

fn msg(tag: u8, payload: &[u8]) -> BackendMsg {
    BackendMsg { tag, payload: payload.to_vec() }
}

fn text_of<T: std::fmt::Debug>(r: Result<T, CdcError>) -> String {
    r.unwrap_err().to_text()
}

#[test]
fn lsn_text_is_upper_case_hex_around_a_slash() {
    assert_eq!(fmt_lsn(0), "0/0");
    assert_eq!(fmt_lsn(0x16B374D68), "1/6B374D68");
    assert_eq!(fmt_lsn(u64::MAX), "FFFFFFFF/FFFFFFFF");
    assert_eq!(parse_lsn("a/+f").unwrap(), 0xA_0000_000F);
}

#[test]
fn malformed_lsns_say_why() {
    assert_eq!(text_of(parse_lsn("nope")), "decode: bad lsn \"nope\"");
    assert_eq!(
        text_of(parse_lsn("/1")),
        "decode: bad lsn \"/1\": cannot parse integer from empty string"
    );
    assert_eq!(
        text_of(parse_lsn("1/x")),
        "decode: bad lsn \"1/x\": invalid digit found in string"
    );
    assert_eq!(
        text_of(parse_lsn("1/11111111111111111")),
        "decode: bad lsn \"1/11111111111111111\": number too large to fit in target type"
    );
    assert_eq!(text_of(parse_lsn("+/1")), "decode: bad lsn \"+/1\": invalid digit found in string");
}

#[test]
fn clock_readings_are_shifted_to_the_pg_epoch() {
    assert_eq!(pg_us(Some(946_684_800_000_007)), 7);
    assert_eq!(pg_us(None), -946_684_800_000_000);
    // the clock of any machine that runs this stands past 2020
    assert!(now_pg_us() > 20 * 365 * 86_400 * 1_000_000);
}

#[test]
fn frames_count_their_own_length() {
    assert_eq!(frame(b'X', &[1, 2]), vec![b'X', 0, 0, 0, 6, 1, 2]);
    assert_eq!(query_message("hi"), vec![b'Q', 0, 0, 0, 7, b'h', b'i', 0]);
}

#[test]
fn startup_packet_is_exact() {
    let mut want = vec![0, 3, 0, 0];
    want.extend_from_slice(b"user\0u\0database\0d\0application_name\0bruce-cdc\0");
    let mut plain = want.clone();
    plain.push(0);
    let mut framed = ((plain.len() + 4) as i32).to_be_bytes().to_vec();
    framed.extend_from_slice(&plain);
    assert_eq!(startup_message("d", "u", false), framed);
    want.extend_from_slice(b"replication\0database\0\0");
    let mut framed = ((want.len() + 4) as i32).to_be_bytes().to_vec();
    framed.extend_from_slice(&want);
    assert_eq!(startup_message("d", "u", true), framed);
}

#[test]
fn status_update_is_exact() {
    let got = status_message(1, 2, 3, -1, true);
    let mut want = vec![b'd', 0, 0, 0, 38, b'r'];
    want.extend_from_slice(&1u64.to_be_bytes());
    want.extend_from_slice(&2u64.to_be_bytes());
    want.extend_from_slice(&3u64.to_be_bytes());
    want.extend_from_slice(&(-1i64).to_be_bytes());
    want.push(1);
    assert_eq!(got, want);
}

#[test]
fn message_lengths_outside_the_bounds_are_refused() {
    assert_eq!(payload_length(&4i32.to_be_bytes()).unwrap(), 0);
    assert_eq!(payload_length(&(1i32 << 30).to_be_bytes()).unwrap(), (1 << 30) - 4);
    assert_eq!(text_of(payload_length(&3i32.to_be_bytes())), "protocol: bad message length 3");
    assert_eq!(
        text_of(payload_length(&(-7i32).to_be_bytes())),
        "protocol: bad message length -7"
    );
    assert!(payload_length(&((1i32 << 30) + 1).to_be_bytes()).is_err());
}

#[test]
fn error_response_fields_are_picked_out() {
    match backend_err(b"SERROR\0C57P01\0Mgoing down\0\0") {
        CdcError::Backend { code, message } => {
            assert_eq!(code, "57P01");
            assert_eq!(message, "going down");
        }
        other => panic!("got {other:?}"),
    }
    // a field without an end runs to the end of the message
    match backend_err(b"Mcut") {
        CdcError::Backend { code, message } => {
            assert_eq!(code, "");
            assert_eq!(message, "cut");
        }
        other => panic!("got {other:?}"),
    }
    match backend_err(b"") {
        CdcError::Backend { code, message } => assert_eq!((code, message), (String::new(), String::new())),
        other => panic!("got {other:?}"),
    }
}

fn description(names: &[&str]) -> Vec<u8> {
    let mut p = (names.len() as i16).to_be_bytes().to_vec();
    for n in names {
        p.extend_from_slice(n.as_bytes());
        p.push(0);
        p.extend_from_slice(&[0; 18]);
    }
    p
}

#[test]
fn row_description_reads_names() {
    let p = description(&["a", "bc"]);
    assert!(row_description_fits(&p));
    assert_eq!(row_description(&p).unwrap(), vec!["a", "bc"]);
    assert_eq!(text_of(row_description(&[0])), "decode: short message (i16)");
    assert_eq!(text_of(row_description(&[0, 1, b'x'])), "decode: unterminated field name");
    // the type information of the last field may be cut off
    assert_eq!(row_description(&[0, 1, b'x', 0]).unwrap(), vec!["x"]);
    // a field that would start past the end does not fit
    assert!(!row_description_fits(&[0, 2, b'x', 0]));
    assert!(!row_description_fits(&[0xFF, 0xFF]));
}

#[test]
fn short_data_rows_are_typed_errors() {
    assert_eq!(text_of(data_row(&[1])), "decode: short message (i16)");
    assert_eq!(text_of(data_row(&[0, 1, 0])), "decode: short message (i32)");
    assert_eq!(text_of(data_row(&[0, 1, 0, 0, 0, 9, b'x'])), "decode: short data row");
}

#[test]
fn startup_handshake_decisions() {
    assert!(!on_startup_msg(&msg(b'R', &[0, 0, 0, 0])).unwrap());
    assert!(!on_startup_msg(&msg(b'S', &[])).unwrap());
    assert!(!on_startup_msg(&msg(b'K', &[])).unwrap());
    assert!(!on_startup_msg(&msg(b'N', &[])).unwrap());
    assert!(on_startup_msg(&msg(b'Z', &[])).unwrap());
    assert_eq!(
        text_of(on_startup_msg(&msg(b'R', &[0, 0, 0, 5]))),
        "protocol: auth method 5 not supported (trust only)"
    );
    assert_eq!(text_of(on_startup_msg(&msg(b'E', b"C1\0Mm\0\0"))), "backend 1: m");
    assert_eq!(
        text_of(on_startup_msg(&msg(b'x', &[]))),
        "protocol: unexpected startup message 'x'"
    );
}

#[test]
fn simple_query_collects_until_ready() {
    let mut q = QueryState::new();
    assert!(!q.on_msg(&msg(b'T', &description(&["n"]))).unwrap());
    let mut d = vec![0, 1];
    d.extend_from_slice(&2i32.to_be_bytes());
    d.extend_from_slice(b"42");
    assert!(!q.on_msg(&msg(b'D', &d)).unwrap());
    assert!(!q.on_msg(&msg(b'C', b"SELECT 1\0")).unwrap());
    assert!(q.on_msg(&msg(b'Z', &[b'I'])).unwrap());
    let (cols, rows) = q.finish().unwrap();
    assert_eq!(cols, vec!["n"]);
    assert_eq!(rows, vec![vec![Some("42".to_string())]]);
}

#[test]
fn failed_query_reports_the_error_after_ready() {
    let mut q = QueryState::new();
    assert!(!q.on_msg(&msg(b'E', b"C42601\0Msyntax\0\0")).unwrap());
    assert!(q.on_msg(&msg(b'Z', &[])).unwrap());
    assert_eq!(text_of(q.finish()), "backend 42601: syntax");
    let mut q = QueryState::new();
    assert_eq!(
        text_of(q.on_msg(&msg(b'd', &[]))),
        "protocol: unexpected message 'd' in simple query"
    );
}

#[test]
fn unreadable_messages_are_recognised() {
    assert!(!readable(&msg(b'T', &[0xFF, 0xFF])));
    assert!(!readable(&msg(b'D', &[0xFF, 0xFF])));
    assert!(readable(&msg(b'D', &[0])));
    assert!(readable(&msg(b'Z', &[])));
}

#[test]
fn replication_start_decisions() {
    assert!(matches!(on_replication_msg(&msg(b'W', &[])), Ok(ReplicationStart::Streaming)));
    assert!(matches!(on_replication_msg(&msg(b'N', &[])), Ok(ReplicationStart::Wait)));
    match on_replication_msg(&msg(b'E', b"C55006\0Mbusy\0\0")) {
        Ok(ReplicationStart::Refused(e)) => assert_eq!(e.to_text(), "backend 55006: busy"),
        other => panic!("got {other:?}"),
    }
    assert_eq!(
        text_of(on_replication_msg(&msg(b'T', &[]))),
        "protocol: unexpected message 'T' starting replication"
    );
}

#[test]
fn copy_stream_decisions() {
    assert_eq!(on_copy_msg(msg(b'd', &[1, 2])).unwrap(), Some(vec![1, 2]));
    assert_eq!(on_copy_msg(msg(b'S', &[])).unwrap(), None);
    assert_eq!(text_of(on_copy_msg(msg(b'c', &[]))), "protocol: server ended the copy stream");
    assert_eq!(
        text_of(on_copy_msg(msg(b'T', &[]))),
        "protocol: unexpected message 'T' in copy stream"
    );
}

#[test]
fn commands_and_paths_are_spelled_out() {
    assert_eq!(
        start_replication_sql("s", "p", 0),
        "START_REPLICATION SLOT s LOGICAL 0/0 (proto_version '1', publication_names 'p')"
    );
    assert_eq!(socket_path("/tmp", 54329), "/tmp/.s.PGSQL.54329");
}

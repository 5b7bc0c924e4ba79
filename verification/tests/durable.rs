//! The durable form of a mirror: bitwise round trip, integrity errors.

use facetfold::apply::{Mirror, Number, TableMap};
use facetfold::durable::fnv1a;
use facetfold::error::CdcError;
use facetfold::pgoutput::TupleDatum;
use facetfold::source::{CommittedTx, RowChange};
use facetfold::table::Column;

fn read(s: &str) -> Result<Number, String> {
    match s.parse::<f64>() {
        Ok(v) => Ok(Number { bits: v.to_bits(), shown: v.to_string() }),
        Err(e) => Err(e.to_string()),
    }
}

fn snap_cols() -> Vec<String> {
    ["movie_id", "genre", "rating", "year", "e0", "e1"].iter().map(|s| s.to_string()).collect()
}

fn row(id: i64, genre: &str, rating: f64, e0: f64, e1: f64) -> Vec<Option<String>> {
    vec![
        Some(id.to_string()),
        Some(genre.into()),
        Some(rating.to_string()),
        Some("2000".into()),
        Some(e0.to_string()),
        Some(e1.to_string()),
    ]
}

fn named(vals: Vec<Option<String>>) -> Vec<(String, TupleDatum)> {
    snap_cols().into_iter().zip(vals.into_iter().map(|v| TupleDatum::Text(v.unwrap()))).collect()
}

fn seeded_mirror() -> Mirror {
    let rows = vec![
        row(1, "action", 5.0, 1.0, 0.0),
        row(2, "drama", 7.25, 0.0, 1.0),
        row(3, "comedy", -0.5, 0.6, 0.8),
    ];
    let mut m =
        Mirror::from_snapshot(TableMap::cdc_movies(), &snap_cols(), &rows, &read).unwrap();
    // push the counters + watermark off their defaults
    let tx = CommittedTx {
        changes: vec![RowChange::Insert {
            rel: "cdc_movies".into(),
            cols: named(row(4, "horror", 9.75, -1.0, 0.0)),
        }],
        commit_ts_us: 7,
        end_lsn: 0xAB_CDEF,
    };
    m.apply_tx(&tx, &read).unwrap();
    m
}

/// Every mapped column compared bitwise between two mirrors.
fn assert_tables_bitwise_equal(a: &Mirror, b: &Mirror) {
    for name in ["movie_id", "rating", "year", "e0", "e1", "genre", "emb"] {
        let ca = a.table.column(name).expect("column present before save");
        let cb = b.table.column(name).expect("column present after load");
        match (ca, cb) {
            (Column::ScalarF64(va), Column::ScalarF64(vb)) => {
                assert_eq!(va, vb, "scalar column {name} bitwise");
            }
            (
                Column::DictU32 { codes: ka, dict: da },
                Column::DictU32 { codes: kb, dict: db },
            ) => {
                assert_eq!(ka, kb, "codes of {name}");
                assert_eq!(da, db, "dict of {name}");
            }
            (
                Column::KeyF64 { nrows: na, ncols: wa, cells: xa },
                Column::KeyF64 { nrows: nb, ncols: wb, cells: xb },
            ) => {
                assert_eq!((na, wa), (nb, wb), "key shape of {name}");
                assert_eq!(xa, xb, "key column {name} bitwise");
            }
            _ => panic!("column {name} changed kind across save/load"),
        }
    }
}

#[test]
fn save_load_round_trip_is_bitwise() {
    let m = seeded_mirror();
    let l = Mirror::load(&m.save().unwrap(), "round_trip").unwrap();
    assert_eq!(l.last_lsn, 0xAB_CDEF, "watermark survives");
    assert_eq!(l.rows_applied, 1);
    assert_eq!(l.txs_applied, 1);
    assert_eq!(l.n_rows(), 4);
    assert!(l.is_aligned());
    assert_tables_bitwise_equal(&m, &l);
    assert_eq!(l.save().unwrap(), m.save().unwrap());
}

#[test]
fn loaded_mirror_keeps_applying_and_filtering() {
    let m = seeded_mirror();
    let mut l = Mirror::load(&m.save().unwrap(), "keeps_applying").unwrap();
    let ins = |id: i64, lsn: u64| CommittedTx {
        changes: vec![RowChange::Insert {
            rel: "cdc_movies".into(),
            cols: named(row(id, "action", 1.0, 1.0, 0.0)),
        }],
        commit_ts_us: 0,
        end_lsn: lsn,
    };
    // the DURABLE watermark filters a replayed tx after reload
    assert_eq!(
        l.apply_tx(&ins(4, 0xAB_CDEF), &read).unwrap(),
        0,
        "replay <= durable watermark must be filtered"
    );
    // and a genuinely new one applies
    assert_eq!(l.apply_tx(&ins(5, 0xAB_CDF0), &read).unwrap(), 1);
    assert_eq!(l.n_rows(), 5);
}

#[test]
fn a_state_change_changes_the_bytes() {
    let mut m = seeded_mirror();
    let first = m.save().unwrap();
    let tx = CommittedTx {
        changes: vec![RowChange::Delete {
            rel: "cdc_movies".into(),
            old: named(row(1, "action", 5.0, 1.0, 0.0)),
        }],
        commit_ts_us: 0,
        end_lsn: 0xAB_CDF5,
    };
    m.apply_tx(&tx, &read).unwrap();
    let second = m.save().unwrap();
    assert_ne!(first, second, "state change must change the bytes");
    let l = Mirror::load(&second, "second").unwrap();
    assert_eq!(l.n_rows(), 3);
    assert_eq!(l.last_lsn, 0xAB_CDF5);
}

#[test]
fn corrupted_byte_is_a_typed_error() {
    let mut bytes = seeded_mirror().save().unwrap();
    let mid = bytes.len() / 2;
    bytes[mid] ^= 0xFF;
    match Mirror::load(&bytes, "corrupt") {
        Err(CdcError::Decode(msg)) => assert!(msg.contains("checksum"), "got: {msg}"),
        Err(e) => panic!("corrupt file must be Decode error, got {}", e.to_text()),
        Ok(_) => panic!("corrupt file must not load"),
    }
}

#[test]
fn truncated_file_is_a_typed_error() {
    let bytes = seeded_mirror().save().unwrap();
    for cut in [0, 4, 8, 20, bytes.len() / 2, bytes.len() - 1] {
        match Mirror::load(&bytes[..cut], "truncated") {
            Err(CdcError::Decode(_)) => {}
            Err(e) => panic!("truncation at {cut} must be Decode error, got {}", e.to_text()),
            Ok(_) => panic!("truncation at {cut} must not load"),
        }
    }
}

#[test]
fn wrong_magic_is_a_typed_error() {
    match Mirror::load(b"NOTBRCDC0123456789moredata", "magic") {
        Err(CdcError::Decode(msg)) => assert!(msg.contains("magic"), "got: {msg}"),
        Err(e) => panic!("wrong magic must be Decode error, got {}", e.to_text()),
        Ok(_) => panic!("wrong magic must not load"),
    }
}

#[test]
fn layout_starts_with_the_magic_and_ends_with_the_checksum() {
    let b = seeded_mirror().save().unwrap();
    assert_eq!(&b[..6], b"BRCDCM");
    let (body, tail) = b.split_at(b.len() - 8);
    let sum = u64::from_le_bytes(tail.try_into().unwrap());
    assert_eq!(sum, fnv1a(body));
}

#[test]
fn checksum_matches_the_published_vectors() {
    assert_eq!(fnv1a(b""), 0xcbf29ce484222325);
    assert_eq!(fnv1a(b"a"), 0xaf63dc4c8601ec8c);
    assert_eq!(fnv1a(b"foobar"), 0x85944171f73967e8);
}

#[test]
fn every_single_changed_byte_is_refused() {
    let bytes = seeded_mirror().save().unwrap();
    for i in 0..bytes.len() {
        let mut b = bytes.clone();
        b[i] ^= 0x01;
        assert!(Mirror::load(&b, "flipped").is_err(), "byte {i}");
    }
}

#[test]
fn every_proper_prefix_is_refused() {
    let bytes = seeded_mirror().save().unwrap();
    for cut in 0..bytes.len() {
        assert!(Mirror::load(&bytes[..cut], "cut").is_err(), "cut at {cut}");
    }
}

#[test]
fn columns_outside_the_map_are_not_saved() {
    let plain = seeded_mirror();
    let mut m = seeded_mirror();
    m.table.insert("note".into(), Column::ScalarF64(vec![0; 4]));
    let l = Mirror::load(&m.save().unwrap(), "mapped").unwrap();
    assert!(l.table.column("note").is_none());
    assert_tables_bitwise_equal(&plain, &l);
    assert_eq!((l.rows_applied, l.txs_applied, l.last_lsn), (1, 1, 0xAB_CDEF));
}

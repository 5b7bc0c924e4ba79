//! Applying committed transactions to the mirrored table.

use facetfold::apply::{result_map, Mirror, Number, TableMap};
use facetfold::pgoutput::TupleDatum;
use facetfold::source::{CommittedTx, RowChange};
use facetfold::table::Column;

fn read(s: &str) -> Result<Number, String> {
    match s.parse::<f64>() {
        Ok(v) => Ok(Number { bits: v.to_bits(), shown: v.to_string() }),
        Err(e) => Err(e.to_string()),
    }
}

fn snap_cols() -> Vec<String> {
    ["movie_id", "genre", "rating", "year", "e0", "e1"].iter().map(|s| s.to_string()).collect()
}

fn row(id: i64, genre: &str, rating: f64, e0: f64, e1: f64) -> Vec<Option<String>> {
    vec![
        Some(id.to_string()),
        Some(genre.into()),
        Some(rating.to_string()),
        Some("2000".into()),
        Some(e0.to_string()),
        Some(e1.to_string()),
    ]
}

/// Snapshot text row -> named tuple datums.
fn datums(names: &[String], vals: Vec<Option<String>>) -> Vec<(String, TupleDatum)> {
    names
        .iter()
        .cloned()
        .zip(vals.into_iter().map(|v| match v {
            Some(s) => TupleDatum::Text(s),
            None => TupleDatum::Null,
        }))
        .collect()
}

fn change_insert(id: i64, genre: &str, rating: f64, e0: f64, e1: f64) -> RowChange {
    RowChange::Insert {
        rel: "cdc_movies".into(),
        cols: datums(&snap_cols(), row(id, genre, rating, e0, e1)),
    }
}

fn change_delete(id: i64) -> RowChange {
    RowChange::Delete {
        rel: "cdc_movies".into(),
        old: datums(&snap_cols(), row(id, "action", 5.0, 1.0, 0.0)),
    }
}

fn tx(changes: Vec<RowChange>, end_lsn: u64) -> CommittedTx {
    CommittedTx { changes, commit_ts_us: 0, end_lsn }
}

fn mirror(rows: &[Vec<Option<String>>]) -> Mirror {
    Mirror::from_snapshot(TableMap::cdc_movies(), &snap_cols(), rows, &read).unwrap()
}

fn seeded_mirror() -> (Mirror, Vec<String>) {
    let rows = vec![row(1, "action", 5.0, 1.0, 0.0), row(2, "drama", 7.0, 0.0, 1.0)];
    (mirror(&rows), snap_cols())
}

fn scalars(m: &Mirror, name: &str) -> Vec<f64> {
    match m.table.column(name) {
        Some(Column::ScalarF64(v)) => v.iter().map(|b| f64::from_bits(*b)).collect(),
        _ => panic!(),
    }
}

fn mirror_pair(m: &Mirror, id: f64) -> (f64, String) {
    let i = scalars(m, "movie_id").iter().position(|v| *v == id).expect("row present");
    let genre = match m.table.column("genre") {
        Some(Column::DictU32 { codes, dict }) => dict[codes[i] as usize].clone(),
        _ => panic!(),
    };
    (scalars(m, "rating")[i], genre)
}

#[test]
fn snapshot_then_insert_then_delete_tracks_rows() {
    let rows = vec![row(1, "action", 5.0, 1.0, 0.0), row(2, "drama", 7.0, 0.0, 1.0)];
    let mut m = mirror(&rows);
    assert_eq!(m.n_rows(), 2);

    let t = tx(vec![change_insert(3, "action", 9.0, 0.6, 0.8), change_delete(1)], 1);
    assert_eq!(m.apply_tx(&t, &read).unwrap(), 2);
    assert_eq!(m.n_rows(), 2);
    assert_eq!(m.rows_applied, 2);
}

#[test]
fn delete_of_absent_row_is_an_error() {
    let mut m = mirror(&[row(1, "action", 5.0, 1.0, 0.0)]);
    assert!(m.apply_tx(&tx(vec![change_delete(99)], 1), &read).is_err());
}

#[test]
fn changes_for_other_relations_are_skipped() {
    let mut m = mirror(&[row(1, "action", 5.0, 1.0, 0.0)]);
    let t = tx(vec![RowChange::Insert { rel: "movies".into(), cols: vec![] }], 1);
    assert_eq!(m.apply_tx(&t, &read).unwrap(), 0);
    assert_eq!(m.n_rows(), 1);
}

#[test]
fn update_full_identity_applies_as_delete_insert() {
    let (mut m, names) = seeded_mirror();
    let t = tx(
        vec![RowChange::Update {
            rel: "cdc_movies".into(),
            old: Some(datums(&names, row(1, "action", 5.0, 1.0, 0.0))),
            new: datums(&names, row(1, "horror", 9.5, 1.0, 0.0)),
        }],
        1,
    );
    assert_eq!(m.apply_tx(&t, &read).unwrap(), 1);
    assert_eq!(m.n_rows(), 2, "update must not change the row count");
    assert_eq!(mirror_pair(&m, 1.0), (9.5, "horror".to_string()));
}

#[test]
fn update_without_old_tuple_locates_by_new_pk() {
    // REPLICA IDENTITY DEFAULT, key untouched: old is None
    let (mut m, names) = seeded_mirror();
    let t = tx(
        vec![RowChange::Update {
            rel: "cdc_movies".into(),
            old: None,
            new: datums(&names, row(2, "drama", 3.25, 0.0, 1.0)),
        }],
        1,
    );
    assert_eq!(m.apply_tx(&t, &read).unwrap(), 1);
    assert_eq!(mirror_pair(&m, 2.0), (3.25, "drama".to_string()));
}

#[test]
fn update_pk_change_moves_the_row() {
    // key-only 'K' old tuple: pk value + NULL non-key columns
    let (mut m, names) = seeded_mirror();
    let key_only = datums(&names, vec![Some("1".into()), None, None, None, None, None]);
    let t = tx(
        vec![RowChange::Update {
            rel: "cdc_movies".into(),
            old: Some(key_only),
            new: datums(&names, row(42, "action", 5.0, 1.0, 0.0)),
        }],
        1,
    );
    assert_eq!(m.apply_tx(&t, &read).unwrap(), 1);
    assert_eq!(m.n_rows(), 2);
    assert_eq!(mirror_pair(&m, 42.0), (5.0, "action".to_string()));
}

#[test]
fn update_unchanged_datum_resolves_from_mirror() {
    // untouched TOAST arrives as Unchanged: the mirror's current row
    // supplies the value
    let (mut m, names) = seeded_mirror();
    let mut new = datums(&names, row(1, "action", 8.0, 1.0, 0.0));
    new[1].1 = TupleDatum::Unchanged; // genre (label col)
    new[3].1 = TupleDatum::Unchanged; // year (scalar col)
    let t = tx(vec![RowChange::Update { rel: "cdc_movies".into(), old: None, new }], 1);
    assert_eq!(m.apply_tx(&t, &read).unwrap(), 1);
    // rating updated, genre resolved from the pre-update row
    assert_eq!(mirror_pair(&m, 1.0), (8.0, "action".to_string()));
    assert!(scalars(&m, "year").contains(&2000.0), "year preserved");
}

#[test]
fn update_of_absent_row_is_typed_error() {
    let (mut m, names) = seeded_mirror();
    let t = tx(
        vec![RowChange::Update {
            rel: "cdc_movies".into(),
            old: Some(datums(&names, row(99, "action", 5.0, 1.0, 0.0))),
            new: datums(&names, row(99, "action", 6.0, 1.0, 0.0)),
        }],
        1,
    );
    let err = m.apply_tx(&t, &read).unwrap_err().to_text();
    assert!(err.contains("out of sync"), "got: {err}");
}

#[test]
fn update_null_in_mapped_column_is_typed_error() {
    let (mut m, names) = seeded_mirror();
    let mut new = datums(&names, row(1, "action", 5.0, 1.0, 0.0));
    new[2].1 = TupleDatum::Null; // rating
    let t = tx(vec![RowChange::Update { rel: "cdc_movies".into(), old: None, new }], 1);
    let err = m.apply_tx(&t, &read).unwrap_err().to_text();
    assert!(err.contains("NULL in column rating"), "got: {err}");
    // typed error BEFORE any mutation: the mirror is untouched
    assert_eq!(mirror_pair(&m, 1.0), (5.0, "action".to_string()));
}

#[test]
fn update_unchanged_pk_without_old_tuple_is_typed_error() {
    let (mut m, names) = seeded_mirror();
    let mut new = datums(&names, row(1, "action", 5.0, 1.0, 0.0));
    new[0].1 = TupleDatum::Unchanged; // movie_id
    let t = tx(vec![RowChange::Update { rel: "cdc_movies".into(), old: None, new }], 1);
    let err = m.apply_tx(&t, &read).unwrap_err().to_text();
    assert!(err.contains("cannot locate the row"), "got: {err}");
}

/// The exactly-once watermark: a replayed transaction (same end_lsn) must
/// be a no-op.
#[test]
fn replayed_tx_is_filtered_by_watermark() {
    let names = snap_cols();
    let mut m = mirror(&[]);

    let ins = |id: i32, lsn: u64| {
        let texts: Vec<String> = vec![
            id.to_string(),
            "action".into(),
            "5".into(),
            "2000".into(),
            "1".into(),
            "0".into(),
        ];
        tx(
            vec![RowChange::Insert {
                rel: "cdc_movies".into(),
                cols: names.iter().cloned().zip(texts.into_iter().map(TupleDatum::Text)).collect(),
            }],
            lsn,
        )
    };

    assert_eq!(m.apply_tx(&ins(1, 100), &read).unwrap(), 1);
    assert_eq!(m.last_lsn, 100);
    // crash-after-apply: the same tx is redelivered
    assert_eq!(m.apply_tx(&ins(1, 100), &read).unwrap(), 0, "replay must be filtered");
    assert_eq!(m.n_rows(), 1, "no duplicate row");
    assert_eq!(m.txs_applied, 1, "replay must not count");
    // and an older LSN likewise
    assert_eq!(m.apply_tx(&ins(2, 90), &read).unwrap(), 0);
    // a genuinely new tx still applies
    assert_eq!(m.apply_tx(&ins(2, 101), &read).unwrap(), 1);
    assert_eq!(m.n_rows(), 2);
}

/// A delete replay would otherwise fail loudly ("removed 0 rows"); the
/// watermark must catch it BEFORE the delete runs.
#[test]
fn replayed_delete_does_not_error() {
    let names = snap_cols();
    let seed: Vec<Option<String>> =
        ["1", "action", "5", "2000", "1", "0"].iter().map(|s| Some(s.to_string())).collect();
    let mut m = mirror(&[seed.clone()]);
    let del = tx(
        vec![RowChange::Delete { rel: "cdc_movies".into(), old: datums(&names, seed) }],
        50,
    );
    assert_eq!(m.apply_tx(&del, &read).unwrap(), 1);
    assert_eq!(m.n_rows(), 0);
    // redelivered after a crash-before-ack: must be a filtered no-op, not
    // an "out of sync" apply error
    match m.apply_tx(&del, &read) {
        Ok(0) => {}
        Ok(n) => panic!("replayed delete applied {n} rows"),
        Err(e) => panic!("replayed delete must not error: {}", e.to_text()),
    }
}

#[test]
fn added_column_is_ignored_by_apply_until_resnapshot() {
    let names = snap_cols();
    let s = TupleDatum::text;
    let seed: Vec<Option<String>> =
        ["1", "action", "5", "2000", "1", "0"].iter().map(|v| Some(v.to_string())).collect();
    let mut m = mirror(&[seed]);

    // widened tuple: one surplus column beyond the map
    let mut cols: Vec<(String, TupleDatum)> = names
        .iter()
        .cloned()
        .zip(vec![s("2"), s("drama"), s("7"), s("2001"), s("0"), s("1")])
        .collect();
    cols.push(("added_after_snapshot".to_string(), s("surplus")));
    let t = tx(vec![RowChange::Insert { rel: "cdc_movies".into(), cols }], 10);
    assert_eq!(m.apply_tx(&t, &read).unwrap(), 1, "surplus column must be ignored");
    assert_eq!(m.n_rows(), 2);

    // narrowed tuple: a mapped column gone -> loud error, not drift
    let narrow: Vec<(String, TupleDatum)> = names[..5]
        .iter()
        .cloned()
        .zip(vec![s("3"), s("scifi"), s("8"), s("2002"), s("0.5")])
        .collect();
    let t = tx(vec![RowChange::Insert { rel: "cdc_movies".into(), cols: narrow }], 11);
    let err = m.apply_tx(&t, &read).unwrap_err().to_text();
    assert!(err.contains("missing column"), "got: {err}");
}

#[test]
fn key_column_is_assembled_from_its_parts() {
    let (mut m, _) = seeded_mirror();
    m.apply_tx(&tx(vec![change_insert(3, "action", 9.0, 0.6, 0.8)], 7), &read).unwrap();
    match m.table.column("emb") {
        Some(Column::KeyF64 { nrows, ncols, cells }) => {
            assert_eq!((*nrows, *ncols), (3, 2));
            let want: Vec<u64> =
                [1.0f64, 0.0, 0.0, 1.0, 0.6, 0.8].iter().map(|v| v.to_bits()).collect();
            assert_eq!(*cells, want);
        }
        _ => panic!("key column missing"),
    }
    match m.table.column("genre") {
        Some(Column::DictU32 { codes, dict }) => {
            assert_eq!(*codes, vec![0, 1, 0]);
            assert_eq!(*dict, vec!["action".to_string(), "drama".to_string()]);
        }
        _ => panic!("label column missing"),
    }
}

#[test]
fn a_failed_transaction_leaves_nothing_behind() {
    let (mut m, _) = seeded_mirror();
    let before = (m.n_rows(), scalars(&m, "movie_id"));
    let t = tx(vec![change_insert(3, "action", 9.0, 0.6, 0.8), change_delete(99)], 30);
    assert!(m.apply_tx(&t, &read).is_err());
    assert_eq!(m.last_lsn, 0);
    assert_eq!((m.txs_applied, m.rows_applied), (0, 0));
    assert_eq!((m.n_rows(), scalars(&m, "movie_id")), before);
}

#[test]
fn snapshot_problems_have_their_messages() {
    let rows = vec![row(1, "action", 5.0, 1.0, 0.0)];
    let short: Vec<String> = snap_cols().into_iter().filter(|n| n != "year").collect();
    let e = Mirror::from_snapshot(TableMap::cdc_movies(), &short, &rows, &read).unwrap_err();
    assert!(e.to_text().starts_with("apply: "), "got: {}", e.to_text());
    let mut bad = rows.clone();
    bad[0][2] = Some("five".into());
    let e = Mirror::from_snapshot(TableMap::cdc_movies(), &snap_cols(), &bad, &read).unwrap_err();
    assert!(e.to_text().contains("invalid float literal"), "got: {}", e.to_text());
    let mut null = rows.clone();
    null[0][1] = None;
    assert!(Mirror::from_snapshot(TableMap::cdc_movies(), &snap_cols(), &null, &read).is_err());
}

#[test]
fn a_repeated_label_keeps_its_last_value() {
    let labels: Vec<String> = ["a", "b", "a", "c"].iter().map(|s| s.to_string()).collect();
    let mut got = result_map(&labels, &[1, 2, 3]);
    got.sort();
    assert_eq!(got, vec![("a".to_string(), 3), ("b".to_string(), 2)]);
}

//! Durable mirror: the [`Mirror`]'s table, counters and the `last_lsn`
//! exactly-once watermark as one byte string.
//!
//! Format `BRCDCM01`, little-endian:
//!
//! ```text
//! magic[8] = "BRCDCM01"
//! last_lsn u64 | rows_applied u64 | txs_applied u64
//! TableMap: table, pk, key_col: str; label_cols, scalar_cols,
//!           key_parts: str-vec        (str = u32 len || utf-8)
//! n_cols u32, then per column: name str, tag u8,
//!   tag 1 ScalarF64: u64 n || n f64
//!   tag 2 DictU32:   u64 n || n u32 codes || str-vec dict
//!   tag 3 KeyF64:    u64 nrows || u64 ncols || row-major f64
//! fnv1a u64 over every preceding byte
//! ```
//!
//! A torn or corrupted byte string is refused with a typed error.

use vstd::prelude::*;
use vstd::utf8::*;

use crate::apply;
use crate::apply::{Mirror, MirrorView, TableMap, TableMapView};
use crate::bytes;
use crate::bytes::{push_all, push_le, read_le};
use crate::error;
use crate::error::{CdcError, CdcErrorView};
use crate::pgoutput;
use crate::table;
use crate::table::{Column, ColumnView, Table, TableView};
use crate::text;
use crate::text::{dec_string, join3, join5, owned, utf8_strict};

verus! {

/// Column tag: numbers.
pub const TAG_SCALAR_F64: u8 = 1;

/// Column tag: dictionary-encoded labels.
pub const TAG_DICT_U32: u8 = 2;

/// Column tag: key vectors.
pub const TAG_KEY_F64: u8 = 3;

/// The file magic, "BRCDCM01".
pub open spec fn magic() -> Seq<u8> {
    seq![66u8, 82, 67, 68, 67, 77, 48, 49]
}

/// FNV-1a over a byte string.
pub open spec fn fnv_spec(s: Seq<u8>) -> u64
    decreases s.len(),
{
    if s.len() == 0 {
        0xCBF2_9CE4_8422_2325
    } else {
        (fnv_spec(s.drop_last()) ^ (s.last() as u64)).wrapping_mul(0x0000_0100_0000_01B3)
    }
}

/// FNV-1a over a byte slice (the integrity trailer).
pub fn fnv1a(bytes: &[u8]) -> (h: u64)
    ensures
        h == fnv_spec(bytes@),
{
    let mut h: u64 = 0xCBF2_9CE4_8422_2325;
    let mut i: usize = 0;
    while i < bytes.len()
        invariant
            i <= bytes@.len(),
            h == fnv_spec(bytes@.take(i as int)),
        decreases bytes.len() - i,
    {
        assert(bytes@.take(i + 1).drop_last() =~= bytes@.take(i as int));
        h = (h ^ (bytes[i] as u64)).wrapping_mul(0x0000_0100_0000_01B3);
        i += 1;
    }
    assert(bytes@.take(i as int) =~= bytes@);
    h
}

// ------------------------------------------------------------------- encode

/// A string: byte length, then UTF-8.
pub open spec fn enc_str(s: Seq<char>) -> Seq<u8> {
    bytes::le_bytes(encode_utf8(s).len(), 4) + encode_utf8(s)
}

/// The strings from `i` on.
pub open spec fn enc_strs_from(v: Seq<Seq<char>>, i: int) -> Seq<u8>
    decreases v.len() - i,
{
    if i >= v.len() {
        Seq::empty()
    } else {
        enc_str(v[i]) + enc_strs_from(v, i + 1)
    }
}

/// A list of strings: count, then each.
pub open spec fn enc_strs(v: Seq<Seq<char>>) -> Seq<u8> {
    bytes::le_bytes(v.len(), 4) + enc_strs_from(v, 0)
}

/// The numbers from `i` on, `k` bytes each.
pub open spec fn enc_nums_from(v: Seq<u64>, i: int, k: nat) -> Seq<u8>
    decreases v.len() - i,
{
    if i >= v.len() {
        Seq::empty()
    } else {
        bytes::le_bytes(v[i] as nat, k) + enc_nums_from(v, i + 1, k)
    }
}

/// The cells of the rows, one row after the other.
pub open spec fn flat(rows: Seq<Seq<u64>>) -> Seq<u64>
    decreases rows.len(),
{
    if rows.len() == 0 {
        Seq::empty()
    } else {
        flat(rows.drop_last()) + rows.last()
    }
}

/// Codes as wide numbers.
pub open spec fn widen(codes: Seq<u32>) -> Seq<u64> {
    Seq::new(codes.len(), |i: int| codes[i] as u64)
}

/// Wide numbers as codes.
pub open spec fn narrow(v: Seq<u64>) -> Seq<u32> {
    Seq::new(v.len(), |i: int| v[i] as u32)
}

/// A column behind its name: tag, then the column's data.
pub open spec fn enc_column(c: ColumnView) -> Seq<u8> {
    match c {
        ColumnView::Scalar(v) => seq![TAG_SCALAR_F64] + bytes::le_bytes(v.len(), 8) + enc_nums_from(
            v,
            0,
            8,
        ),
        ColumnView::Dict { codes, dict } => seq![TAG_DICT_U32] + bytes::le_bytes(codes.len(), 8)
            + enc_nums_from(widen(codes), 0, 4) + enc_strs(dict),
        ColumnView::Key { ncols, rows } => seq![TAG_KEY_F64] + bytes::le_bytes(rows.len(), 8) + bytes::le_bytes(
            ncols,
            8,
        ) + enc_nums_from(flat(rows), 0, 8),
    }
}

/// The columns called `names` from `i` on, each with its name.
pub open spec fn enc_columns_from(t: TableView, names: Seq<Seq<char>>, i: int) -> Seq<u8>
    decreases names.len() - i,
{
    if i >= names.len() {
        Seq::empty()
    } else {
        enc_str(names[i]) + enc_column(t[names[i]]) + enc_columns_from(t, names, i + 1)
    }
}

/// The mapped columns in order: scalar, label, key.
pub open spec fn mapped_names(map: TableMapView) -> Seq<Seq<char>> {
    (map.scalar_cols + map.label_cols).push(map.key_col)
}

/// The table map.
pub open spec fn enc_map(map: TableMapView) -> Seq<u8> {
    enc_str(map.table) + enc_str(map.pk) + enc_str(map.key_col) + enc_strs(map.label_cols)
        + enc_strs(map.scalar_cols) + enc_strs(map.key_parts)
}

/// Everything before the trailer.
pub open spec fn body_bytes(m: MirrorView) -> Seq<u8> {
    magic() + bytes::le_bytes(m.last_lsn, 8) + bytes::le_bytes(m.rows_applied, 8) + bytes::le_bytes(m.txs_applied, 8)
        + enc_map(m.map) + bytes::le_bytes(mapped_names(m.map).len(), 4) + enc_columns_from(
        m.table,
        mapped_names(m.map),
        0,
    )
}

/// The durable form of a mirror.
pub open spec fn file_bytes(m: MirrorView) -> Seq<u8> {
    body_bytes(m) + bytes::le_bytes(fnv_spec(body_bytes(m)) as nat, 8)
}

/// The first mapped column, from `i` on, that the table lacks.
pub open spec fn missing_from(t: TableView, names: Seq<Seq<char>>, i: int) -> Option<Seq<char>>
    decreases names.len() - i,
{
    if i >= names.len() {
        None
    } else if !t.contains_key(names[i]) {
        Some(names[i])
    } else {
        missing_from(t, names, i + 1)
    }
}

/// Appends a string.
fn put_str(out: &mut Vec<u8>, s: &str)
    ensures
        final(out)@ == old(out)@ + enc_str(s@),
{
    let b = s.as_bytes();
    push_le(out, b.len() as u64, 4);
    push_all(out, b);
    assert(out@ =~= old(out)@ + enc_str(s@));
}

/// Appends a list of strings.
fn put_strs(out: &mut Vec<u8>, v: &Vec<String>)
    ensures
        final(out)@ == old(out)@ + enc_strs(pgoutput::texts(v@)),
{
    push_le(out, v.len() as u64, 4);
    let ghost base = out@;
    let ghost tv = pgoutput::texts(v@);
    let mut i: usize = 0;
    assert(out@ + enc_strs_from(tv, 0) =~= base + enc_strs_from(tv, 0));
    while i < v.len()
        invariant
            i <= v@.len(),
            tv == pgoutput::texts(v@),
            out@ + enc_strs_from(tv, i as int) == base + enc_strs_from(tv, 0),
        decreases v.len() - i,
    {
        let ghost before = out@;
        put_str(out, v[i].as_str());
        assert(out@ + enc_strs_from(tv, i + 1) =~= before + enc_strs_from(tv, i as int));
        i += 1;
    }
    assert(out@ + enc_strs_from(tv, i as int) =~= out@);
    assert(out@ =~= old(out)@ + enc_strs(tv));
}

/// Appends a list of 8-byte numbers.
fn put_u64s(out: &mut Vec<u8>, v: &Vec<u64>)
    ensures
        final(out)@ == old(out)@ + enc_nums_from(v@, 0, 8),
{
    let ghost base = out@;
    let mut i: usize = 0;
    while i < v.len()
        invariant
            i <= v@.len(),
            out@ + enc_nums_from(v@, i as int, 8) == base + enc_nums_from(v@, 0, 8),
        decreases v.len() - i,
    {
        let ghost before = out@;
        push_le(out, v[i], 8);
        assert(out@ + enc_nums_from(v@, i + 1, 8) =~= before + enc_nums_from(v@, i as int, 8));
        i += 1;
    }
    assert(out@ + enc_nums_from(v@, i as int, 8) =~= out@);
}

/// Appends a list of 4-byte numbers.
fn put_u32s(out: &mut Vec<u8>, v: &Vec<u32>)
    ensures
        final(out)@ == old(out)@ + enc_nums_from(widen(v@), 0, 4),
{
    let ghost base = out@;
    let ghost w = widen(v@);
    let mut i: usize = 0;
    while i < v.len()
        invariant
            i <= v@.len(),
            w == widen(v@),
            out@ + enc_nums_from(w, i as int, 4) == base + enc_nums_from(w, 0, 4),
        decreases v.len() - i,
    {
        let ghost before = out@;
        push_le(out, v[i] as u64, 4);
        assert(out@ + enc_nums_from(w, i + 1, 4) =~= before + enc_nums_from(w, i as int, 4));
        i += 1;
    }
    assert(out@ + enc_nums_from(w, i as int, 4) =~= out@);
}

/// The row-major cells are the rows one after the other.
proof fn lemma_flat_rows(cells: Seq<u64>, nrows: nat, ncols: nat)
    requires
        cells.len() == nrows * ncols,
    ensures
        flat(crate::table::key_rows(cells, nrows, ncols)) == cells,
    decreases nrows,
{
    let rows = crate::table::key_rows(cells, nrows, ncols);
    if nrows == 0 {
        assert(nrows * ncols == 0) by (nonlinear_arith)
            requires
                nrows == 0,
        ;
        assert(flat(rows) =~= cells);
    } else {
        let n = (nrows - 1) as nat;
        assert(n * ncols + ncols == nrows * ncols) by (nonlinear_arith)
            requires
                n + 1 == nrows,
        ;
        let head = cells.take((n * ncols) as int);
        lemma_flat_rows(head, n, ncols);
        assert forall|i: int| 0 <= i < n implies #[trigger] rows[i] =~= crate::table::key_rows(
            head,
            n,
            ncols,
        )[i] by {
            assert(0 <= i * ncols && i * ncols + ncols <= n * ncols) by (nonlinear_arith)
                requires
                    0 <= i < n,
            ;
        }
        assert(rows.drop_last() =~= crate::table::key_rows(head, n, ncols));
        assert(flat(rows) =~= cells);
    }
}

/// Appends a column behind its name.
fn put_column(out: &mut Vec<u8>, c: &Column)
    requires
        c.sound(),
    ensures
        final(out)@ == old(out)@ + enc_column(c@),
{
    match c {
        Column::ScalarF64(v) => {
            out.push(TAG_SCALAR_F64);
            push_le(out, v.len() as u64, 8);
            put_u64s(out, v);
        },
        Column::DictU32 { codes, dict } => {
            out.push(TAG_DICT_U32);
            push_le(out, codes.len() as u64, 8);
            put_u32s(out, codes);
            put_strs(out, dict);
        },
        Column::KeyF64 { nrows, ncols, cells } => {
            out.push(TAG_KEY_F64);
            push_le(out, *nrows as u64, 8);
            push_le(out, *ncols as u64, 8);
            put_u64s(out, cells);
            proof {
                lemma_flat_rows(cells@, *nrows as nat, *ncols as nat);
            }
        },
    }
    assert(out@ =~= old(out)@ + enc_column(c@));
}

/// The mapped columns in order: scalar, label, key.
fn mapped(map: &TableMap) -> (names: Vec<String>)
    ensures
        pgoutput::texts(names@) == mapped_names(map@),
{
    let mut names: Vec<String> = Vec::new();
    let mut i: usize = 0;
    while i < map.scalar_cols.len()
        invariant
            i <= map.scalar_cols@.len(),
            pgoutput::texts(names@) == pgoutput::texts(map.scalar_cols@).take(i as int),
        decreases map.scalar_cols.len() - i,
    {
        let ghost before = pgoutput::texts(names@);
        names.push(map.scalar_cols[i].clone());
        assert(pgoutput::texts(names@) =~= before.push(map.scalar_cols@[i as int]@));
        i += 1;
        assert(pgoutput::texts(names@) =~= pgoutput::texts(map.scalar_cols@).take(i as int));
    }
    assert(pgoutput::texts(names@) =~= pgoutput::texts(map.scalar_cols@));
    let mut i: usize = 0;
    while i < map.label_cols.len()
        invariant
            i <= map.label_cols@.len(),
            pgoutput::texts(names@) == pgoutput::texts(map.scalar_cols@) + pgoutput::texts(map.label_cols@).take(i as int),
        decreases map.label_cols.len() - i,
    {
        let ghost before = pgoutput::texts(names@);
        names.push(map.label_cols[i].clone());
        assert(pgoutput::texts(names@) =~= before.push(map.label_cols@[i as int]@));
        i += 1;
        assert(pgoutput::texts(names@) =~= pgoutput::texts(map.scalar_cols@) + pgoutput::texts(map.label_cols@).take(i as int));
    }
    let ghost before = pgoutput::texts(names@);
    names.push(map.key_col.clone());
    assert(pgoutput::texts(names@) =~= before.push(map.key_col@));
    assert(pgoutput::texts(names@) =~= mapped_names(map@));
    names
}

impl Mirror {
    /// The durable form of the mirror (table + counters + `last_lsn`
    /// watermark). A table that lacks a mapped column is refused.
    pub fn save(&self) -> (r: Result<Vec<u8>, CdcError>)
        requires
            self.table.wf(),
        ensures
            match missing_from(self@.table, mapped_names(self@.map), 0) {
                Some(name) => r matches Err(e) && e@ == CdcErrorView::Apply(
                    "save: mapped column "@ + name + " missing from table"@,
                ),
                None => r matches Ok(b) && b@ == file_bytes(self@),
            },
    {
        let mut out: Vec<u8> = Vec::new();
        out.push(66);
        out.push(82);
        out.push(67);
        out.push(68);
        out.push(67);
        out.push(77);
        out.push(48);
        out.push(49);
        push_le(&mut out, self.last_lsn, 8);
        push_le(&mut out, self.rows_applied as u64, 8);
        push_le(&mut out, self.txs_applied as u64, 8);
        put_str(&mut out, self.map.table.as_str());
        put_str(&mut out, self.map.pk.as_str());
        put_str(&mut out, self.map.key_col.as_str());
        put_strs(&mut out, &self.map.label_cols);
        put_strs(&mut out, &self.map.scalar_cols);
        put_strs(&mut out, &self.map.key_parts);
        // deterministic column order: scalar_cols, label_cols, key_col
        let order = mapped(&self.map);
        push_le(&mut out, order.len() as u64, 4);
        let ghost base = out@;
        let ghost names = mapped_names(self@.map);
        let mut i: usize = 0;
        while i < order.len()
            invariant
                self.table.wf(),
                i <= order@.len(),
                names == pgoutput::texts(order@),
                names == mapped_names(self@.map),
                missing_from(self@.table, names, 0) == missing_from(self@.table, names, i as int),
                out@ + enc_columns_from(self@.table, names, i as int) == base + enc_columns_from(
                    self@.table,
                    names,
                    0,
                ),
            decreases order.len() - i,
        {
            let ghost before = out@;
            match self.table.column(order[i].as_str()) {
                None => {
                    return Err(
                        CdcError::Apply(
                            join3(
                                "save: mapped column ",
                                order[i].as_str(),
                                " missing from table",
                            ),
                        ),
                    );
                },
                Some(c) => {
                    put_str(&mut out, order[i].as_str());
                    put_column(&mut out, c);
                },
            }
            assert(out@ + enc_columns_from(self@.table, names, i + 1) =~= before
                + enc_columns_from(self@.table, names, i as int));
            i += 1;
        }
        assert(out@ + enc_columns_from(self@.table, names, i as int) =~= out@);
        assert(out@ =~= body_bytes(self@));
        let sum: u64 = fnv1a(out.as_slice());
        push_le(&mut out, sum, 8);
        Ok(out)
    }
}

// ------------------------------------------------------------------- decode

/// The complaint about bytes that end too early.
pub open spec fn truncated_text() -> Seq<char> {
    "durable: truncated file"@
}

/// The little-endian number in the `k` bytes from `at` on.
pub open spec fn num(b: Seq<u8>, at: int, k: int) -> nat {
    bytes::le_nat(b.subrange(at, at + k))
}

/// A string at `at`, and the position behind it.
pub open spec fn str_at(b: Seq<u8>, at: int) -> Result<(Seq<char>, int), Seq<char>> {
    if at + 4 > b.len() || at + 4 + num(b, at, 4) > b.len() {
        Err(truncated_text())
    } else {
        let end = at + 4 + num(b, at, 4);
        let raw = b.subrange(at + 4, end);
        if valid_utf8(raw) {
            Ok((decode_utf8(raw), end))
        } else {
            Err("durable: bad utf-8 string: "@ + text::utf8_error_text(raw))
        }
    }
}

/// The `n` strings from `at` on, behind those in `acc`.
pub open spec fn strs_from(b: Seq<u8>, at: int, n: nat, acc: Seq<Seq<char>>) -> Result<
    (Seq<Seq<char>>, int),
    Seq<char>,
>
    decreases n,
{
    if n == 0 {
        Ok((acc, at))
    } else {
        match str_at(b, at) {
            Err(e) => Err(e),
            Ok((s, next)) => strs_from(b, next, (n - 1) as nat, acc.push(s)),
        }
    }
}

/// A list of strings at `at`, and the position behind it.
pub open spec fn strs_at(b: Seq<u8>, at: int) -> Result<(Seq<Seq<char>>, int), Seq<char>> {
    if at + 4 > b.len() {
        Err(truncated_text())
    } else {
        strs_from(b, at + 4, num(b, at, 4), Seq::empty())
    }
}

/// The `n` numbers of `k` bytes from `at` on, behind those in `acc`.
pub open spec fn nums_from(b: Seq<u8>, at: int, n: nat, k: int, acc: Seq<u64>) -> Result<
    (Seq<u64>, int),
    Seq<char>,
>
    decreases n,
{
    if n == 0 {
        Ok((acc, at))
    } else if at + k > b.len() {
        Err(truncated_text())
    } else {
        nums_from(b, at + k, (n - 1) as nat, k, acc.push(num(b, at, k) as u64))
    }
}

/// The first code, from `i` on, that names no label.
pub open spec fn bad_code(codes: Seq<u32>, labels: nat, i: int) -> Option<u32>
    decreases codes.len() - i,
{
    if i >= codes.len() {
        None
    } else if codes[i] >= labels {
        Some(codes[i])
    } else {
        bad_code(codes, labels, i + 1)
    }
}

/// The complaint about a key column whose shape no memory can hold.
pub open spec fn shape_text(name: Seq<char>) -> Seq<char> {
    "durable: key column "@ + name + ": ShapeError/Overflow: arithmetic overflow"@
}

/// A label column behind its tag.
pub open spec fn dict_column_at(b: Seq<u8>, at: int, name: Seq<char>) -> Result<
    (ColumnView, int),
    Seq<char>,
> {
    if at + 8 > b.len() {
        Err(truncated_text())
    } else {
        match nums_from(b, at + 8, num(b, at, 8), 4, Seq::empty()) {
            Err(e) => Err(e),
            Ok((v, p)) => match strs_at(b, p) {
                Err(e) => Err(e),
                Ok((dict, q)) => match bad_code(narrow(v), dict.len(), 0) {
                    Some(bad) => Err(
                        "durable: dict column "@ + name + " code "@ + text::dec(bad as nat)
                            + " out of range (dict has "@ + text::dec(dict.len()) + " labels)"@,
                    ),
                    None => Ok((ColumnView::Dict { codes: narrow(v), dict }, q)),
                },
            },
        }
    }
}

/// A key column behind its tag.
pub open spec fn key_column_at(b: Seq<u8>, at: int, name: Seq<char>) -> Result<
    (ColumnView, int),
    Seq<char>,
> {
    if at + 16 > b.len() {
        Err(truncated_text())
    } else {
        let nrows = num(b, at, 8);
        let ncols = num(b, at + 8, 8);
        if nrows * ncols > u64::MAX {
            Err(shape_text(name))
        } else {
            match nums_from(b, at + 16, nrows * ncols, 8, Seq::empty()) {
                Err(e) => Err(e),
                Ok((v, p)) => if nrows > isize::MAX || ncols > isize::MAX {
                    Err(shape_text(name))
                } else {
                    Ok(
                        (
                            ColumnView::Key {
                                ncols,
                                rows: crate::table::key_rows(v, nrows, ncols),
                            },
                            p,
                        ),
                    )
                },
            }
        }
    }
}

/// A column at `at`, behind its name `name`.
pub open spec fn column_data_at(b: Seq<u8>, at: int, name: Seq<char>) -> Result<
    (ColumnView, int),
    Seq<char>,
> {
    if at + 1 > b.len() {
        Err(truncated_text())
    } else if b[at] == TAG_SCALAR_F64 {
        if at + 9 > b.len() {
            Err(truncated_text())
        } else {
            match nums_from(b, at + 9, num(b, at + 1, 8), 8, Seq::empty()) {
                Err(e) => Err(e),
                Ok((v, p)) => Ok((ColumnView::Scalar(v), p)),
            }
        }
    } else if b[at] == TAG_DICT_U32 {
        dict_column_at(b, at + 1, name)
    } else if b[at] == TAG_KEY_F64 {
        key_column_at(b, at + 1, name)
    } else {
        Err("durable: column "@ + name + " has unknown tag "@ + text::dec(b[at] as nat))
    }
}

/// The `n` columns from `at` on, beside those in `t`.
pub open spec fn columns_from(b: Seq<u8>, at: int, n: nat, t: TableView) -> Result<
    (TableView, int),
    Seq<char>,
>
    decreases n,
{
    if n == 0 {
        Ok((t, at))
    } else {
        match str_at(b, at) {
            Err(e) => Err(e),
            Ok((name, p)) => match column_data_at(b, p, name) {
                Err(e) => Err(e),
                Ok((c, q)) => columns_from(b, q, (n - 1) as nat, t.insert(name, c)),
            },
        }
    }
}

/// The table map at `at`, and the position behind it.
pub open spec fn map_at(b: Seq<u8>, at: int) -> Result<(TableMapView, int), Seq<char>> {
    match str_at(b, at) {
        Err(e) => Err(e),
        Ok((table, p1)) => match str_at(b, p1) {
            Err(e) => Err(e),
            Ok((pk, p2)) => match str_at(b, p2) {
                Err(e) => Err(e),
                Ok((key_col, p3)) => match strs_at(b, p3) {
                    Err(e) => Err(e),
                    Ok((label_cols, p4)) => match strs_at(b, p4) {
                        Err(e) => Err(e),
                        Ok((scalar_cols, p5)) => match strs_at(b, p5) {
                            Err(e) => Err(e),
                            Ok((key_parts, p6)) => Ok(
                                (
                                    TableMapView {
                                        table,
                                        pk,
                                        label_cols,
                                        scalar_cols,
                                        key_col,
                                        key_parts,
                                    },
                                    p6,
                                ),
                            ),
                        },
                    },
                },
            },
        },
    }
}

/// A stored counter, as wide as the machine's counters.
pub open spec fn counter(n: nat) -> nat {
    (n as u64 as usize) as nat
}

/// The mirror in the bytes `b` (all but the trailer), which came from
/// `shown`.
pub open spec fn body_spec(b: Seq<u8>, shown: Seq<char>) -> Result<MirrorView, Seq<char>> {
    if b.len() < 32 {
        Err(truncated_text())
    } else {
        match map_at(b, 32) {
            Err(e) => Err(e),
            Ok((map, p)) => if p + 4 > b.len() {
                Err(truncated_text())
            } else {
                match columns_from(b, p + 4, num(b, p, 4), Map::empty()) {
                    Err(e) => Err(e),
                    Ok((table, q)) => if q != b.len() {
                        Err(
                            "durable: "@ + shown + " trailing garbage ("@ + text::dec(
                                (b.len() - q) as nat,
                            ) + " bytes past the last column)"@,
                        )
                    } else {
                        Ok(
                            MirrorView {
                                table,
                                map,
                                rows_applied: counter(num(b, 16, 8)),
                                txs_applied: counter(num(b, 24, 8)),
                                last_lsn: num(b, 8, 8),
                            },
                        )
                    },
                }
            },
        }
    }
}

/// The mirror whose durable form is `b`, or the complaint about it.
pub open spec fn load_spec(b: Seq<u8>, shown: Seq<char>) -> Result<MirrorView, Seq<char>> {
    if b.len() < 16 {
        Err("durable: "@ + shown + " too short ("@ + text::dec(b.len()) + " bytes)"@)
    } else if b.take(8) != magic() {
        Err("durable: "@ + shown + " has wrong magic (not a BRCDCM01 file)"@)
    } else if fnv_spec(b.take(b.len() - 8)) != num(b, b.len() - 8, 8) {
        Err("durable: "@ + shown + " checksum mismatch (file corrupt)"@)
    } else {
        body_spec(b.take(b.len() - 8), shown)
    }
}

struct Dec<'a> {
    buf: &'a [u8],
    pos: usize,
}

impl<'a> Dec<'a> {
    spec fn wf(self) -> bool {
        self.pos <= self.buf@.len()
    }

    /// Steps over `n` bytes.
    fn take(&mut self, n: u64) -> (r: Result<usize, CdcError>)
        requires
            old(self).wf(),
        ensures
            final(self).wf(),
            final(self).buf == old(self).buf,
            match r {
                Ok(at) => at == old(self).pos && final(self).pos == at + n,
                Err(e) => old(self).pos + n > old(self).buf@.len() && e@ == CdcErrorView::Decode(
                    truncated_text(),
                ),
            },
    {
        if n > (self.buf.len() - self.pos) as u64 {
            return Err(CdcError::Decode(owned("durable: truncated file")));
        }
        let at: usize = self.pos;
        self.pos = self.pos + n as usize;
        Ok(at)
    }

    /// Reads a number of `k` bytes.
    fn number(&mut self, k: usize) -> (r: Result<u64, CdcError>)
        requires
            old(self).wf(),
            k <= 8,
        ensures
            final(self).wf(),
            final(self).buf == old(self).buf,
            match r {
                Ok(v) => final(self).pos == old(self).pos + k && v == num(
                    old(self).buf@,
                    old(self).pos as int,
                    k as int,
                ) && v < bytes::pow256(k as nat),
                Err(e) => old(self).pos + k > old(self).buf@.len() && e@ == CdcErrorView::Decode(
                    truncated_text(),
                ),
            },
    {
        let at: usize = self.take(k as u64)?;
        Ok(read_le(self.buf, at, k))
    }

    /// Reads a string.
    fn str(&mut self) -> (r: Result<String, CdcError>)
        requires
            old(self).wf(),
        ensures
            final(self).wf(),
            final(self).buf == old(self).buf,
            match str_at(old(self).buf@, old(self).pos as int) {
                Ok((s, next)) => (r matches Ok(x) && x@ == s) && final(self).pos == next,
                Err(t) => error::decode_err(r, t),
            },
    {
        let n: u64 = self.number(4)?;
        let at: usize = self.take(n)?;
        match utf8_strict(&self.buf[at..at + n as usize]) {
            Ok(s) => Ok(s),
            Err(why) => {
                let text = join3("durable: bad utf-8 string: ", why.as_str(), "");
                proof {
                    reveal_strlit("");
                    assert(text@ =~= "durable: bad utf-8 string: "@ + why@);
                }
                Err(CdcError::Decode(text))
            },
        }
    }

    /// Reads a list of strings.
    fn strs(&mut self) -> (r: Result<Vec<String>, CdcError>)
        requires
            old(self).wf(),
        ensures
            final(self).wf(),
            final(self).buf == old(self).buf,
            match strs_at(old(self).buf@, old(self).pos as int) {
                Ok((v, next)) => (r matches Ok(x) && pgoutput::texts(x@) == v) && final(self).pos == next,
                Err(t) => error::decode_err(r, t),
            },
    {
        let n: u64 = self.number(4)?;
        let mut v: Vec<String> = Vec::new();
        let mut i: u64 = 0;
        assert(pgoutput::texts(v@) =~= Seq::<Seq<char>>::empty());
        while i < n
            invariant
                i <= n,
                self.wf(),
                self.buf == old(self).buf,
                strs_at(old(self).buf@, old(self).pos as int) == strs_from(
                    self.buf@,
                    self.pos as int,
                    (n - i) as nat,
                    pgoutput::texts(v@),
                ),
            decreases n - i,
        {
            let ghost before = pgoutput::texts(v@);
            let s = self.str()?;
            v.push(s);
            assert(pgoutput::texts(v@) =~= before.push(s@));
            i += 1;
        }
        Ok(v)
    }

    /// Reads `n` numbers of `k` bytes.
    fn numbers(&mut self, n: u64, k: usize) -> (r: Result<Vec<u64>, CdcError>)
        requires
            old(self).wf(),
            1 <= k <= 8,
        ensures
            final(self).wf(),
            final(self).buf == old(self).buf,
            match nums_from(
                old(self).buf@,
                old(self).pos as int,
                n as nat,
                k as int,
                Seq::empty(),
            ) {
                Ok((v, next)) => (r matches Ok(x) && x@ == v && x@.len() == n) && final(self).pos
                    == next,
                Err(t) => error::decode_err(r, t),
            },
            r matches Ok(x) ==> forall|i: int|
                0 <= i < x@.len() ==> #[trigger] x@[i] < bytes::pow256(k as nat),
    {
        let mut v: Vec<u64> = Vec::new();
        let mut i: u64 = 0;
        while i < n
            invariant
                1 <= k <= 8,
                i <= n,
                v@.len() == i,
                self.wf(),
                self.buf == old(self).buf,
                forall|j: int| 0 <= j < v@.len() ==> #[trigger] v@[j] < bytes::pow256(k as nat),
                nums_from(old(self).buf@, old(self).pos as int, n as nat, k as int, Seq::empty())
                    == nums_from(
                    self.buf@,
                    self.pos as int,
                    (n - i) as nat,
                    k as int,
                    v@,
                ),
            decreases n - i,
        {
            let x: u64 = self.number(k)?;
            v.push(x);
            i += 1;
        }
        Ok(v)
    }

    /// Reads a label column behind its tag.
    fn dict_column(&mut self, name: &str) -> (r: Result<Column, CdcError>)
        requires
            old(self).wf(),
        ensures
            final(self).wf(),
            final(self).buf == old(self).buf,
            match dict_column_at(old(self).buf@, old(self).pos as int, name@) {
                Ok((c, next)) => (r matches Ok(x) && x@ == c && x.sound()) && final(self).pos
                    == next,
                Err(t) => error::decode_err(r, t),
            },
    {
        let n: u64 = self.number(8)?;
        let wide = self.numbers(n, 4)?;
        proof {
            bytes::lemma_pow256();
        }
        let dict = self.strs()?;
        let mut codes: Vec<u32> = Vec::new();
        let mut i: usize = 0;
        while i < wide.len()
            invariant
                i <= wide@.len(),
                codes@ == narrow(wide@).take(i as int),
                forall|j: int| 0 <= j < i ==> #[trigger] codes@[j] < dict@.len(),
                bad_code(narrow(wide@), dict@.len(), 0) == bad_code(
                    narrow(wide@),
                    dict@.len(),
                    i as int,
                ),
                forall|j: int| 0 <= j < wide@.len() ==> #[trigger] wide@[j] < 0x1_0000_0000,
                dict_column_at(old(self).buf@, old(self).pos as int, name@) == (match bad_code(
                    narrow(wide@),
                    dict@.len(),
                    0,
                ) {
                    Some(bad) => Err::<(ColumnView, int), Seq<char>>(
                        "durable: dict column "@ + name@ + " code "@ + text::dec(bad as nat)
                            + " out of range (dict has "@ + text::dec(dict@.len()) + " labels)"@,
                    ),
                    None => Ok(
                        (
                            ColumnView::Dict { codes: narrow(wide@), dict: pgoutput::texts(dict@) },
                            self.pos as int,
                        ),
                    ),
                }),
                self.wf(),
                self.buf == old(self).buf,
            decreases wide.len() - i,
        {
            let code: u32 = wide[i] as u32;
            if code as usize >= dict.len() {
                let mut text = join5(
                    "durable: dict column ",
                    name,
                    " code ",
                    dec_string(code as u64).as_str(),
                    " out of range (dict has ",
                );
                text.append(dec_string(dict.len() as u64).as_str());
                text.append(" labels)");
                return Err(CdcError::Decode(text));
            }
            codes.push(code);
            i += 1;
            assert(codes@ =~= narrow(wide@).take(i as int));
        }
        assert(codes@ =~= narrow(wide@));
        Ok(Column::DictU32 { codes, dict })
    }

    /// Reads a key column behind its tag.
    fn key_column(&mut self, name: &str) -> (r: Result<Column, CdcError>)
        requires
            old(self).wf(),
        ensures
            final(self).wf(),
            final(self).buf == old(self).buf,
            match key_column_at(old(self).buf@, old(self).pos as int, name@) {
                Ok((c, next)) => (r matches Ok(x) && x@ == c && x.sound()) && final(self).pos
                    == next,
                Err(t) => error::decode_err(r, t),
            },
    {
        let nrows: u64 = self.number(8)?;
        let ncols: u64 = self.number(8)?;
        match nrows.checked_mul(ncols) {
            None => Err(
                CdcError::Decode(
                    join3(
                        "durable: key column ",
                        name,
                        ": ShapeError/Overflow: arithmetic overflow",
                    ),
                ),
            ),
            Some(total) => {
                let cells = self.numbers(total, 8)?;
                if nrows > isize::MAX as u64 || ncols > isize::MAX as u64 {
                    return Err(
                        CdcError::Decode(
                            join3(
                                "durable: key column ",
                                name,
                                ": ShapeError/Overflow: arithmetic overflow",
                            ),
                        ),
                    );
                }
                Ok(Column::KeyF64 { nrows: nrows as usize, ncols: ncols as usize, cells })
            },
        }
    }

    /// Reads a column behind its name.
    fn column(&mut self, name: &str) -> (r: Result<Column, CdcError>)
        requires
            old(self).wf(),
        ensures
            final(self).wf(),
            final(self).buf == old(self).buf,
            match column_data_at(old(self).buf@, old(self).pos as int, name@) {
                Ok((c, next)) => (r matches Ok(x) && x@ == c && x.sound()) && final(self).pos
                    == next,
                Err(t) => error::decode_err(r, t),
            },
    {
        let at: usize = self.take(1)?;
        let tag: u8 = self.buf[at];
        if tag == TAG_SCALAR_F64 {
            let n: u64 = self.number(8)?;
            let v = self.numbers(n, 8)?;
            Ok(Column::ScalarF64(v))
        } else if tag == TAG_DICT_U32 {
            self.dict_column(name)
        } else if tag == TAG_KEY_F64 {
            self.key_column(name)
        } else {
            let text = join5(
                "durable: column ",
                name,
                " has unknown tag ",
                dec_string(tag as u64).as_str(),
                "",
            );
            proof {
                reveal_strlit("");
                assert(text@ =~= "durable: column "@ + name@ + " has unknown tag "@ + text::dec(
                    tag as nat,
                ));
            }
            Err(CdcError::Decode(text))
        }
    }

    /// Reads the table map.
    fn table_map(&mut self) -> (r: Result<TableMap, CdcError>)
        requires
            old(self).wf(),
        ensures
            final(self).wf(),
            final(self).buf == old(self).buf,
            match map_at(old(self).buf@, old(self).pos as int) {
                Ok((m, next)) => (r matches Ok(x) && x@ == m) && final(self).pos == next,
                Err(t) => error::decode_err(r, t),
            },
    {
        let table = self.str()?;
        let pk = self.str()?;
        let key_col = self.str()?;
        let label_cols = self.strs()?;
        let scalar_cols = self.strs()?;
        let key_parts = self.strs()?;
        Ok(TableMap { table, pk, label_cols, scalar_cols, key_col, key_parts })
    }
}

impl Mirror {
    /// Rebuilds a mirror from its durable form; `shown` names where the
    /// bytes came from. Verifies magic and the FNV-1a trailer before
    /// decoding; any mismatch, truncation or malformed section is a typed
    /// error. See [`Mirror::is_aligned`] before applying changes to a
    /// mirror whose bytes are not the library's own.
    pub fn load(data: &[u8], shown: &str) -> (r: Result<Mirror, CdcError>)
        ensures
            match load_spec(data@, shown@) {
                Ok(m) => r matches Ok(x) && x@ == m && x.table.wf(),
                Err(t) => error::decode_err(r, t),
            },
    {
        if data.len() < 16 {
            return Err(
                CdcError::Decode(
                    join5(
                        "durable: ",
                        shown,
                        " too short (",
                        dec_string(data.len() as u64).as_str(),
                        " bytes)",
                    ),
                ),
            );
        }
        if !(data[0] == 66 && data[1] == 82 && data[2] == 67 && data[3] == 68 && data[4] == 67
            && data[5] == 77 && data[6] == 48 && data[7] == 49) {
            proof {
                assert(data@.take(8) != magic()) by {
                    assert(forall|i: int| 0 <= i < 8 ==> data@.take(8)[i] == data@[i]);
                }
            }
            return Err(
                CdcError::Decode(
                    join3("durable: ", shown, " has wrong magic (not a BRCDCM01 file)"),
                ),
            );
        }
        assert(data@.take(8) =~= magic());
        let n: usize = data.len() - 8;
        let body = &data[0..n];
        assert(body@ =~= data@.take(data@.len() - 8));
        let want: u64 = read_le(data, n, 8);
        let got: u64 = fnv1a(body);
        if got != want {
            return Err(
                CdcError::Decode(
                    join3("durable: ", shown, " checksum mismatch (file corrupt)"),
                ),
            );
        }
        let mut d = Dec { buf: body, pos: 8 };
        let last_lsn: u64 = d.number(8)?;
        let rows_applied: u64 = d.number(8)?;
        let txs_applied: u64 = d.number(8)?;
        let map = d.table_map()?;
        let n_cols: u64 = d.number(4)?;
        let mut table = Table::new();
        let ghost start = d.pos as int;
        let mut i: u64 = 0;
        while i < n_cols
            invariant
                i <= n_cols,
                d.wf(),
                d.buf == body,
                table.wf(),
                columns_from(body@, start, n_cols as nat, Map::empty()) == columns_from(
                    body@,
                    d.pos as int,
                    (n_cols - i) as nat,
                    table@,
                ),
                body@.len() >= 32,
                map_at(body@, 32) == Ok::<(TableMapView, int), Seq<char>>((map@, start - 4)),
                start <= body@.len(),
                n_cols == num(body@, start - 4, 4),
                load_spec(data@, shown@) == body_spec(body@, shown@),
            decreases n_cols - i,
        {
            let name = d.str()?;
            let column = d.column(name.as_str())?;
            table.insert(name, column);
            i += 1;
        }
        if d.pos != body.len() {
            return Err(
                CdcError::Decode(
                    join5(
                        "durable: ",
                        shown,
                        " trailing garbage (",
                        dec_string((body.len() - d.pos) as u64).as_str(),
                        " bytes past the last column)",
                    ),
                ),
            );
        }
        Ok(
            Mirror {
                table,
                map,
                rows_applied: rows_applied as usize,
                txs_applied: txs_applied as usize,
                last_lsn,
            },
        )
    }
}

// --------------------------------------------------------------- round trip

/// `e` stands in `b` at `at`.
spec fn has_at(b: Seq<u8>, at: int, e: Seq<u8>) -> bool {
    0 <= at && at + e.len() <= b.len() && b.subrange(at, at + e.len()) == e
}

proof fn lemma_has_split(b: Seq<u8>, at: int, e1: Seq<u8>, e2: Seq<u8>)
    requires
        has_at(b, at, e1 + e2),
    ensures
        has_at(b, at, e1),
        has_at(b, at + e1.len(), e2),
{
    let e = e1 + e2;
    let sub = b.subrange(at, at + e.len());
    assert(b.subrange(at, at + e1.len()) =~= e1) by {
        assert forall|i: int| 0 <= i < e1.len() implies b[at + i] == e1[i] by {
            assert(sub[i] == e[i]);
        }
    }
    assert(b.subrange(at + e1.len(), at + e1.len() + e2.len()) =~= e2) by {
        assert forall|i: int| 0 <= i < e2.len() implies b[at + e1.len() + i] == e2[i] by {
            assert(sub[e1.len() + i] == e[e1.len() + i]);
        }
    }
}

proof fn lemma_num(b: Seq<u8>, at: int, n: nat, k: nat)
    requires
        has_at(b, at, bytes::le_bytes(n, k)),
        n < bytes::pow256(k),
    ensures
        at + k <= b.len(),
        bytes::le_bytes(n, k).len() == k,
        num(b, at, k as int) == n,
{
    bytes::le_round_trip(n, k);
}

/// A string whose length fits the format.
pub open spec fn short(s: Seq<char>) -> bool {
    encode_utf8(s).len() < 0x1_0000_0000
}

/// A list of strings that fits the format.
pub open spec fn short_list(v: Seq<Seq<char>>) -> bool {
    v.len() < 0x1_0000_0000 && forall|i: int| 0 <= i < v.len() ==> short(#[trigger] v[i])
}

proof fn lemma_str(b: Seq<u8>, at: int, s: Seq<char>)
    requires
        has_at(b, at, enc_str(s)),
        short(s),
    ensures
        str_at(b, at) == Ok::<(Seq<char>, int), Seq<char>>((s, at + enc_str(s).len())),
{
    broadcast use {encode_utf8_valid_utf8, encode_utf8_decode_utf8};

    let e = encode_utf8(s);
    bytes::lemma_pow256();
    lemma_has_split(b, at, bytes::le_bytes(e.len(), 4), e);
    lemma_num(b, at, e.len(), 4);
    assert(b.subrange(at + 4, at + 4 + e.len()) == e);
    assert(valid_utf8(encode_utf8(s)));
    assert(decode_utf8(encode_utf8(s)) == s);
}

proof fn lemma_strs(b: Seq<u8>, at: int, v: Seq<Seq<char>>, i: int, acc: Seq<Seq<char>>)
    requires
        0 <= i <= v.len(),
        short_list(v),
        has_at(b, at, enc_strs_from(v, i)),
    ensures
        strs_from(b, at, (v.len() - i) as nat, acc) == Ok::<(Seq<Seq<char>>, int), Seq<char>>(
            (acc + v.skip(i), at + enc_strs_from(v, i).len()),
        ),
    decreases v.len() - i,
{
    if i < v.len() {
        lemma_has_split(b, at, enc_str(v[i]), enc_strs_from(v, i + 1));
        lemma_str(b, at, v[i]);
        lemma_strs(b, at + enc_str(v[i]).len(), v, i + 1, acc.push(v[i]));
        assert(acc.push(v[i]) + v.skip(i + 1) =~= acc + v.skip(i));
    } else {
        assert(acc + v.skip(i) =~= acc);
    }
}

proof fn lemma_str_list(b: Seq<u8>, at: int, v: Seq<Seq<char>>)
    requires
        has_at(b, at, enc_strs(v)),
        short_list(v),
    ensures
        strs_at(b, at) == Ok::<(Seq<Seq<char>>, int), Seq<char>>((v, at + enc_strs(v).len())),
{
    bytes::lemma_pow256();
    lemma_has_split(b, at, bytes::le_bytes(v.len(), 4), enc_strs_from(v, 0));
    lemma_num(b, at, v.len(), 4);
    lemma_strs(b, at + 4, v, 0, Seq::empty());
    assert(Seq::<Seq<char>>::empty() + v.skip(0) =~= v);
}

proof fn lemma_nums(b: Seq<u8>, at: int, v: Seq<u64>, i: int, k: nat, acc: Seq<u64>)
    requires
        0 <= i <= v.len(),
        forall|j: int| 0 <= j < v.len() ==> #[trigger] v[j] < bytes::pow256(k),
        has_at(b, at, enc_nums_from(v, i, k)),
    ensures
        nums_from(b, at, (v.len() - i) as nat, k as int, acc) == Ok::<(Seq<u64>, int), Seq<char>>(
            (acc + v.skip(i), at + enc_nums_from(v, i, k).len()),
        ),
    decreases v.len() - i,
{
    if i < v.len() {
        let e = bytes::le_bytes(v[i] as nat, k);
        lemma_has_split(b, at, e, enc_nums_from(v, i + 1, k));
        lemma_num(b, at, v[i] as nat, k);
        lemma_nums(b, at + k, v, i + 1, k, acc.push(v[i]));
        assert(acc.push(v[i]) + v.skip(i + 1) =~= acc + v.skip(i));
    } else {
        assert(acc + v.skip(i) =~= acc);
    }
}

/// A column that fits the format: counts and labels within bounds, every
/// code naming a label, key rows all of one width.
pub open spec fn storable_column(c: ColumnView) -> bool {
    match c {
        ColumnView::Scalar(v) => v.len() <= u64::MAX,
        ColumnView::Dict { codes, dict } => codes.len() <= u64::MAX && short_list(dict)
            && forall|i: int| 0 <= i < codes.len() ==> #[trigger] codes[i] < dict.len(),
        ColumnView::Key { ncols, rows } => rows.len() <= isize::MAX && ncols <= isize::MAX
            && rows.len() * ncols <= u64::MAX && forall|i: int|
            0 <= i < rows.len() ==> (#[trigger] rows[i]).len() == ncols,
    }
}

proof fn lemma_no_bad_code(codes: Seq<u32>, labels: nat, i: int)
    requires
        0 <= i,
        forall|j: int| 0 <= j < codes.len() ==> #[trigger] codes[j] < labels,
    ensures
        bad_code(codes, labels, i) is None,
    decreases codes.len() - i,
{
    if i < codes.len() {
        lemma_no_bad_code(codes, labels, i + 1);
    }
}

proof fn lemma_rows_of_flat(rows: Seq<Seq<u64>>, ncols: nat)
    requires
        forall|i: int| 0 <= i < rows.len() ==> (#[trigger] rows[i]).len() == ncols,
    ensures
        flat(rows).len() == rows.len() * ncols,
        crate::table::key_rows(flat(rows), rows.len(), ncols) == rows,
    decreases rows.len(),
{
    if rows.len() == 0 {
        assert(rows.len() * ncols == 0) by (nonlinear_arith)
            requires
                rows.len() == 0,
        ;
        assert(crate::table::key_rows(flat(rows), 0, ncols) =~= rows);
    } else {
        let head = rows.drop_last();
        assert forall|i: int| 0 <= i < head.len() implies (#[trigger] head[i]).len() == ncols by {
            assert(head[i] == rows[i]);
        }
        lemma_rows_of_flat(head, ncols);
        assert(rows.last() == rows[rows.len() - 1]);
        table::lemma_key_rows_push(flat(head), head.len(), ncols, rows.last());
        assert(head.push(rows.last()) =~= rows);
    }
}

proof fn lemma_column(b: Seq<u8>, at: int, name: Seq<char>, c: ColumnView)
    requires
        has_at(b, at, enc_column(c)),
        storable_column(c),
    ensures
        column_data_at(b, at, name) == Ok::<(ColumnView, int), Seq<char>>(
            (c, at + enc_column(c).len()),
        ),
{
    bytes::lemma_pow256();
    match c {
        ColumnView::Scalar(v) => {
            let e1 = seq![TAG_SCALAR_F64] + bytes::le_bytes(v.len(), 8);
            let e2 = enc_nums_from(v, 0, 8);
            lemma_has_split(b, at, e1, e2);
            lemma_has_split(b, at, seq![TAG_SCALAR_F64], bytes::le_bytes(v.len(), 8));
            assert(b.subrange(at, at + 1)[0] == TAG_SCALAR_F64);
            lemma_num(b, at + 1, v.len(), 8);
            lemma_nums(b, at + 9, v, 0, 8, Seq::empty());
            assert(Seq::<u64>::empty() + v.skip(0) =~= v);
        },
        ColumnView::Dict { codes, dict } => {
            let w = widen(codes);
            let e1 = seq![TAG_DICT_U32] + bytes::le_bytes(codes.len(), 8);
            let e2 = enc_nums_from(w, 0, 4);
            lemma_has_split(b, at, e1 + e2, enc_strs(dict));
            lemma_has_split(b, at, e1, e2);
            lemma_has_split(b, at, seq![TAG_DICT_U32], bytes::le_bytes(codes.len(), 8));
            assert(b.subrange(at, at + 1)[0] == TAG_DICT_U32);
            lemma_num(b, at + 1, codes.len(), 8);
            lemma_nums(b, at + 9, w, 0, 4, Seq::empty());
            assert(Seq::<u64>::empty() + w.skip(0) =~= w);
            assert(narrow(w) =~= codes);
            lemma_str_list(b, at + 9 + e2.len(), dict);
            lemma_no_bad_code(codes, dict.len(), 0);
        },
        ColumnView::Key { ncols, rows } => {
            let f = flat(rows);
            lemma_rows_of_flat(rows, ncols);
            let e1 = seq![TAG_KEY_F64] + bytes::le_bytes(rows.len(), 8);
            let e2 = bytes::le_bytes(ncols, 8);
            let e3 = enc_nums_from(f, 0, 8);
            lemma_has_split(b, at, e1 + e2, e3);
            lemma_has_split(b, at, e1, e2);
            lemma_has_split(b, at, seq![TAG_KEY_F64], bytes::le_bytes(rows.len(), 8));
            assert(b.subrange(at, at + 1)[0] == TAG_KEY_F64);
            lemma_num(b, at + 1, rows.len(), 8);
            lemma_num(b, at + 9, ncols, 8);
            lemma_nums(b, at + 17, f, 0, 8, Seq::empty());
            assert(Seq::<u64>::empty() + f.skip(0) =~= f);
        },
    }
}

/// A table with the columns of `t` called `names` from `i` on.
spec fn insert_all(acc: TableView, t: TableView, names: Seq<Seq<char>>, i: int) -> TableView
    decreases names.len() - i,
{
    if i >= names.len() {
        acc
    } else {
        insert_all(acc.insert(names[i], t[names[i]]), t, names, i + 1)
    }
}

proof fn lemma_insert_all(acc: TableView, t: TableView, names: Seq<Seq<char>>, i: int)
    requires
        0 <= i <= names.len(),
        forall|n: Seq<char>| #[trigger] acc.contains_key(n) ==> t.contains_key(n) && acc[n] == t[n],
        forall|n: Seq<char>|
            #![trigger t.contains_key(n)]
            t.contains_key(n) ==> acc.contains_key(n) || names.skip(i).contains(n),
        forall|j: int| 0 <= j < names.len() ==> t.contains_key(#[trigger] names[j]),
    ensures
        insert_all(acc, t, names, i) == t,
    decreases names.len() - i,
{
    if i < names.len() {
        let next = acc.insert(names[i], t[names[i]]);
        assert forall|n: Seq<char>|
            #![trigger t.contains_key(n)]
            t.contains_key(n) implies next.contains_key(n) || names.skip(i + 1).contains(n) by {
            if !next.contains_key(n) {
                let k = choose|k: int| 0 <= k < names.skip(i).len() && names.skip(i)[k] == n;
                assert(k > 0);
                assert(names.skip(i + 1)[k - 1] == n);
            }
        }
        lemma_insert_all(next, t, names, i + 1);
    } else {
        assert forall|n: Seq<char>| acc.dom().contains(n) == t.dom().contains(n) by {
            if t.contains_key(n) {
                assert(names.skip(i).len() == 0);
                assert(acc.contains_key(n));
            }
            if acc.contains_key(n) {
                assert(t.contains_key(n));
            }
        }
        assert(acc.dom() =~= t.dom());
        assert(acc =~= t);
    }
}

proof fn lemma_columns(
    b: Seq<u8>,
    at: int,
    t: TableView,
    names: Seq<Seq<char>>,
    i: int,
    acc: TableView,
)
    requires
        0 <= i <= names.len(),
        has_at(b, at, enc_columns_from(t, names, i)),
        forall|j: int|
            0 <= j < names.len() ==> short(#[trigger] names[j]) && storable_column(t[names[j]]),
    ensures
        columns_from(b, at, (names.len() - i) as nat, acc) == Ok::<(TableView, int), Seq<char>>(
            (insert_all(acc, t, names, i), at + enc_columns_from(t, names, i).len()),
        ),
    decreases names.len() - i,
{
    if i < names.len() {
        let e1 = enc_str(names[i]);
        let e2 = enc_column(t[names[i]]);
        let e3 = enc_columns_from(t, names, i + 1);
        lemma_has_split(b, at, e1 + e2, e3);
        lemma_has_split(b, at, e1, e2);
        lemma_str(b, at, names[i]);
        lemma_column(b, at + e1.len(), names[i], t[names[i]]);
        lemma_columns(
            b,
            at + e1.len() + e2.len(),
            t,
            names,
            i + 1,
            acc.insert(names[i], t[names[i]]),
        );
    }
}

/// A table map that fits the format.
pub open spec fn storable_map(map: TableMapView) -> bool {
    &&& short(map.table) && short(map.pk) && short(map.key_col)
    &&& short_list(map.label_cols) && short_list(map.scalar_cols) && short_list(map.key_parts)
    &&& map.scalar_cols.len() + map.label_cols.len() + 1 < 0x1_0000_0000
}

/// A mirror that fits the format: texts and counts within bounds, and the
/// table holds every mapped column.
pub open spec fn storable(m: MirrorView) -> bool {
    &&& storable_map(m.map)
    &&& m.last_lsn <= u64::MAX && m.rows_applied <= usize::MAX && m.txs_applied <= usize::MAX
    &&& forall|n: Seq<char>| #[trigger]
        mapped_names(m.map).contains(n) ==> m.table.contains_key(n) && storable_column(m.table[n])
}

/// A mirror without the columns that its map does not name.
pub open spec fn mapped_only(m: MirrorView) -> MirrorView {
    MirrorView { table: m.table.restrict(mapped_names(m.map).to_set()), ..m }
}

proof fn lemma_map(b: Seq<u8>, at: int, map: TableMapView)
    requires
        has_at(b, at, enc_map(map)),
        storable_map(map),
    ensures
        map_at(b, at) == Ok::<(TableMapView, int), Seq<char>>((map, at + enc_map(map).len())),
{
    let e1 = enc_str(map.table);
    let e2 = enc_str(map.pk);
    let e3 = enc_str(map.key_col);
    let e4 = enc_strs(map.label_cols);
    let e5 = enc_strs(map.scalar_cols);
    let e6 = enc_strs(map.key_parts);
    lemma_has_split(b, at, e1 + e2 + e3 + e4 + e5, e6);
    lemma_has_split(b, at, e1 + e2 + e3 + e4, e5);
    lemma_has_split(b, at, e1 + e2 + e3, e4);
    lemma_has_split(b, at, e1 + e2, e3);
    lemma_has_split(b, at, e1, e2);
    lemma_str(b, at, map.table);
    lemma_str(b, at + e1.len(), map.pk);
    lemma_str(b, at + e1.len() + e2.len(), map.key_col);
    lemma_str_list(b, at + (e1 + e2 + e3).len(), map.label_cols);
    lemma_str_list(b, at + (e1 + e2 + e3 + e4).len(), map.scalar_cols);
    lemma_str_list(b, at + (e1 + e2 + e3 + e4 + e5).len(), map.key_parts);
}

proof fn lemma_layout(
    g: Seq<u8>,
    a1: Seq<u8>,
    a2: Seq<u8>,
    a3: Seq<u8>,
    a4: Seq<u8>,
    a5: Seq<u8>,
    a6: Seq<u8>,
)
    requires
        g.len() == 8,
        a1.len() == 8,
        a2.len() == 8,
        a3.len() == 8,
        a5.len() == 4,
    ensures
        ({
            let b = g + a1 + a2 + a3 + a4 + a5 + a6;
            &&& b.len() == 36 + a4.len() + a6.len()
            &&& b.take(8) == g
            &&& has_at(b, 8, a1)
            &&& has_at(b, 16, a2)
            &&& has_at(b, 24, a3)
            &&& has_at(b, 32, a4)
            &&& has_at(b, 32int + a4.len(), a5)
            &&& has_at(b, 36int + a4.len(), a6)
        }),
{
    let b = g + a1 + a2 + a3 + a4 + a5 + a6;
    assert(b.subrange(0, b.len() as int) =~= b);
    assert(has_at(b, 0, b));
    lemma_has_split(b, 0, g + a1 + a2 + a3 + a4 + a5, a6);
    lemma_has_split(b, 0, g + a1 + a2 + a3 + a4, a5);
    lemma_has_split(b, 0, g + a1 + a2 + a3, a4);
    lemma_has_split(b, 0, g + a1 + a2, a3);
    lemma_has_split(b, 0, g + a1, a2);
    lemma_has_split(b, 0, g, a1);
    assert(b.take(8) =~= g);
}

proof fn lemma_names(m: MirrorView)
    requires
        storable(m),
    ensures
        forall|j: int|
            0 <= j < mapped_names(m.map).len() ==> short(#[trigger] mapped_names(m.map)[j])
                && storable_column(m.table[mapped_names(m.map)[j]]) && m.table.contains_key(
                mapped_names(m.map)[j],
            ),
{
    let names = mapped_names(m.map);
    assert forall|j: int| 0 <= j < names.len() implies short(#[trigger] names[j])
        && storable_column(m.table[names[j]]) && m.table.contains_key(names[j]) by {
        assert(names.contains(names[j]));
        if j < m.map.scalar_cols.len() {
            assert(names[j] == m.map.scalar_cols[j]);
        } else if j < m.map.scalar_cols.len() + m.map.label_cols.len() {
            assert(names[j] == m.map.label_cols[j - m.map.scalar_cols.len()]);
        }
    }
}

proof fn lemma_all_columns(b: Seq<u8>, at: int, m: MirrorView)
    requires
        storable(m),
        has_at(b, at, enc_columns_from(m.table, mapped_names(m.map), 0)),
    ensures
        columns_from(b, at, mapped_names(m.map).len(), Map::empty()) == Ok::<
            (TableView, int),
            Seq<char>,
        >((mapped_only(m).table, at + enc_columns_from(m.table, mapped_names(m.map), 0).len())),
{
    let names = mapped_names(m.map);
    let t = mapped_only(m).table;
    lemma_names(m);
    lemma_columns(b, at, m.table, names, 0, Map::empty());
    assert(names.skip(0) =~= names);
    assert forall|j: int| 0 <= j < names.len() implies t.contains_key(#[trigger] names[j]) && t[names[j]]
        == m.table[names[j]] by {
        assert(names.contains(names[j]));
    }
    assert forall|n: Seq<char>|
        #![trigger t.contains_key(n)]
        t.contains_key(n) implies names.skip(0).contains(n) by {}
    lemma_insert_same(Map::empty(), m.table, t, names, 0);
    lemma_insert_all(Map::empty(), t, names, 0);
}

proof fn lemma_insert_same(
    acc: TableView,
    t: TableView,
    u: TableView,
    names: Seq<Seq<char>>,
    i: int,
)
    requires
        0 <= i <= names.len(),
        forall|j: int| 0 <= j < names.len() ==> t[names[j]] == u[#[trigger] names[j]],
    ensures
        insert_all(acc, t, names, i) == insert_all(acc, u, names, i),
    decreases names.len() - i,
{
    if i < names.len() {
        assert(t[names[i]] == u[names[i]]);
        lemma_insert_same(acc.insert(names[i], t[names[i]]), t, u, names, i + 1);
    }
}

proof fn lemma_body_parts(m: MirrorView)
    requires
        storable(m),
    ensures
        ({
            let b = body_bytes(m);
            let names = mapped_names(m.map);
            let p = 32int + enc_map(m.map).len();
            &&& b.len() == p + 4 + enc_columns_from(m.table, names, 0).len()
            &&& b.take(8) == magic()
            &&& num(b, 8, 8) == m.last_lsn
            &&& num(b, 16, 8) == m.rows_applied
            &&& num(b, 24, 8) == m.txs_applied
            &&& has_at(b, 32, enc_map(m.map))
            &&& num(b, p, 4) == names.len()
            &&& has_at(b, p + 4, enc_columns_from(m.table, names, 0))
        }),
{
    bytes::lemma_pow256();
    let b = body_bytes(m);
    let names = mapped_names(m.map);
    let a1 = bytes::le_bytes(m.last_lsn, 8);
    let a2 = bytes::le_bytes(m.rows_applied, 8);
    let a3 = bytes::le_bytes(m.txs_applied, 8);
    let a4 = enc_map(m.map);
    let a5 = bytes::le_bytes(names.len(), 4);
    let a6 = enc_columns_from(m.table, names, 0);
    bytes::le_round_trip(m.last_lsn, 8);
    bytes::le_round_trip(m.rows_applied, 8);
    bytes::le_round_trip(m.txs_applied, 8);
    bytes::le_round_trip(names.len(), 4);
    lemma_layout(magic(), a1, a2, a3, a4, a5, a6);
    lemma_num(b, 8, m.last_lsn, 8);
    lemma_num(b, 16, m.rows_applied, 8);
    lemma_num(b, 24, m.txs_applied, 8);
    lemma_num(b, 32int + a4.len(), names.len(), 4);
}

proof fn lemma_body(m: MirrorView, shown: Seq<char>)
    requires
        storable(m),
    ensures
        body_bytes(m).len() >= 36,
        body_bytes(m).take(8) == magic(),
        body_spec(body_bytes(m), shown) == Ok::<MirrorView, Seq<char>>(mapped_only(m)),
{
    let b = body_bytes(m);
    let p = 32int + enc_map(m.map).len();
    lemma_body_parts(m);
    lemma_map(b, 32, m.map);
    lemma_all_columns(b, p + 4, m);
    assert(counter(m.rows_applied) == m.rows_applied);
    assert(counter(m.txs_applied) == m.txs_applied);
}

/// The durable form gives the mirror back: loading what was saved yields
/// the same map, counters and watermark, and every mapped column of the
/// table. Columns that the map does not name are not saved; where there are
/// none, the whole mirror comes back.
pub proof fn load_undoes_save(m: MirrorView, shown: Seq<char>)
    requires
        storable(m),
    ensures
        load_spec(file_bytes(m), shown) == Ok::<MirrorView, Seq<char>>(mapped_only(m)),
        forall|n: Seq<char>| #[trigger]
            mapped_names(m.map).contains(n) ==> mapped_only(m).table.contains_key(n)
                && mapped_only(m).table[n] == m.table[n],
        (forall|n: Seq<char>| #[trigger]
            m.table.contains_key(n) ==> mapped_names(m.map).contains(n)) ==> mapped_only(m) == m,
{
    bytes::lemma_pow256();
    let body = body_bytes(m);
    let sum = fnv_spec(body) as nat;
    let file = file_bytes(m);
    bytes::le_round_trip(sum, 8);
    lemma_body(m, shown);
    assert(file.take(file.len() - 8) =~= body);
    assert(file.subrange(file.len() - 8, file.len() as int) =~= bytes::le_bytes(sum, 8));
    assert(file.take(8) =~= body.take(8));
    if forall|n: Seq<char>| #[trigger]
        m.table.contains_key(n) ==> mapped_names(m.map).contains(n) {
        assert(mapped_only(m).table =~= m.table);
    }
}

/// A column within the format's bounds: counts and labels fit their fields.
pub open spec fn bounded_column(c: ColumnView) -> bool {
    match c {
        ColumnView::Scalar(v) => v.len() <= u64::MAX,
        ColumnView::Dict { codes, dict } => codes.len() <= u64::MAX && short_list(dict),
        ColumnView::Key { ncols, rows } => rows.len() <= isize::MAX && ncols <= isize::MAX
            && rows.len() * ncols <= u64::MAX,
    }
}

/// A well-formed mirror that can be saved is storable once its texts and
/// counts fit their fields; and one with the columns of its map, as snapshots
/// and changes leave it, holds no others.
pub proof fn mirrors_are_storable(m: Mirror)
    requires
        m.table.wf(),
        missing_from(m@.table, mapped_names(m@.map), 0) is None,
        storable_map(m@.map),
        forall|n: Seq<char>| #[trigger]
            m@.table.contains_key(n) ==> bounded_column(m@.table[n]),
    ensures
        storable(m@),
        apply::conforms(m@.map, m@.table) ==> mapped_only(m@) == m@,
{
    let names = mapped_names(m@.map);
    let t = m@.table;
    let (a, b) = (m@.map.scalar_cols, m@.map.label_cols);
    m.table.lemma_columns_hold_together();
    assert forall|n: Seq<char>| #[trigger] names.contains(n) implies t.contains_key(n)
        && storable_column(t[n]) by {
        lemma_none_missing(t, names, 0, names.index_of(n));
    }
    if apply::conforms(m@.map, t) {
        assert forall|n: Seq<char>| #[trigger] t.contains_key(n) implies names.contains(n) by {
            if a.contains(n) {
                let i = a.index_of(n);
                assert(names[i] == n);
            } else if b.contains(n) {
                let i = b.index_of(n);
                assert(names[a.len() + i] == n);
            } else {
                assert(names[a.len() as int + b.len()] == n);
            }
        }
        assert(mapped_only(m@).table =~= t);
    }
}

proof fn lemma_none_missing(t: TableView, names: Seq<Seq<char>>, i: int, j: int)
    requires
        0 <= i <= j < names.len(),
        missing_from(t, names, i) is None,
    ensures
        t.contains_key(names[j]),
    decreases names.len() - i,
{
    if i < j {
        lemma_none_missing(t, names, i + 1, j);
    }
}

/// A round of the checksum loses nothing: its multiplier has an inverse
/// modulo `2^64`.
proof fn lemma_round_injective(x: u64, y: u64)
    requires
        x.wrapping_mul(0x0000_0100_0000_01B3) == y.wrapping_mul(0x0000_0100_0000_01B3),
    ensures
        x == y,
{
    let m: int = 0x1_0000_0000_0000_0000;
    let p: int = 0x0000_0100_0000_01B3;
    let q: int = 0xCE965057AFF6957B;
    let k: int = 0xCE9650590F;
    assert(p * q == 1 + k * m) by (nonlinear_arith)
        requires
            m == 0x1_0000_0000_0000_0000,
            p == 0x0000_0100_0000_01B3,
            q == 0xCE965057AFF6957B,
            k == 0xCE9650590F,
    ;
    assert((x * p) % m == (y * p) % m);
    lemma_undone(x as int, p, q, k, m);
    lemma_undone(y as int, p, q, k, m);
}

proof fn lemma_undone(x: int, p: int, q: int, k: int, m: int)
    requires
        0 <= x < m,
        p * q == 1 + k * m,
    ensures
        (((x * p) % m) * q) % m == x,
{
    vstd::arithmetic::div_mod::lemma_mul_mod_noop_left(x * p, q, m);
    assert((x * p) * q == x + (x * k) * m) by (nonlinear_arith)
        requires
            p * q == 1 + k * m,
    ;
    vstd::arithmetic::div_mod::lemma_mod_multiples_vanish(x * k, x, m);
    assert(m * (x * k) + x == x + (x * k) * m) by (nonlinear_arith);
    vstd::arithmetic::div_mod::lemma_small_mod(x as nat, m as nat);
}

/// Two byte strings that differ in one place have different checksums.
proof fn lemma_one_byte(a: Seq<u8>, i: int, x: u8)
    requires
        0 <= i < a.len(),
        a[i] != x,
    ensures
        fnv_spec(a) != fnv_spec(a.update(i, x)),
    decreases a.len(),
{
    let b = a.update(i, x);
    let (p, q) = (fnv_spec(a.drop_last()), fnv_spec(b.drop_last()));
    let (c, d) = (a.last() as u64, b.last() as u64);
    if i < a.len() - 1 {
        lemma_one_byte(a.drop_last(), i, x);
        assert(b.drop_last() =~= a.drop_last().update(i, x));
        assert(p != q ==> p ^ c != q ^ c) by (bit_vector);
    } else {
        assert(b.drop_last() =~= a.drop_last());
        assert(c != d ==> p ^ c != p ^ d) by (bit_vector);
    }
    if fnv_spec(a) == fnv_spec(b) {
        lemma_round_injective(p ^ c, q ^ d);
    }
}

/// Different bytes stand for different numbers.
proof fn lemma_le_injective(a: Seq<u8>, b: Seq<u8>)
    requires
        a.len() == b.len(),
        bytes::le_nat(a) == bytes::le_nat(b),
    ensures
        a == b,
    decreases a.len(),
{
    if a.len() > 0 {
        lemma_le_injective(a.drop_first(), b.drop_first());
        assert(a =~= seq![a[0]] + a.drop_first());
        assert(b =~= seq![b[0]] + b.drop_first());
    } else {
        assert(a =~= b);
    }
}

/// A durable form with one byte changed is refused, whichever byte it is
/// and whatever it is changed to.
pub proof fn one_changed_byte_is_refused(b: Seq<u8>, i: int, x: u8, shown: Seq<char>)
    requires
        load_spec(b, shown) is Ok,
        0 <= i < b.len(),
        b[i] != x,
    ensures
        load_spec(b.update(i, x), shown) is Err,
{
    let c = b.update(i, x);
    let n = b.len() - 8;
    if i < n {
        lemma_one_byte(b.take(n), i, x);
        assert(c.take(n) =~= b.take(n).update(i, x));
        assert(c.subrange(n, n + 8) =~= b.subrange(n, n + 8));
    } else {
        assert(c.take(n) =~= b.take(n));
        let (s, t) = (b.subrange(n, n + 8), c.subrange(n, n + 8));
        assert(s[i - n] != t[i - n]);
        if bytes::le_nat(s) == bytes::le_nat(t) {
            lemma_le_injective(s, t);
        }
    }
}

/// What was read of bytes is read of longer bytes too.
proof fn lemma_longer_num(b: Seq<u8>, e: Seq<u8>, at: int, k: int)
    requires
        0 <= at,
        0 <= k,
        at + k <= b.len(),
    ensures
        num(b + e, at, k) == num(b, at, k),
{
    assert((b + e).subrange(at, at + k) =~= b.subrange(at, at + k));
}

proof fn lemma_longer_str(b: Seq<u8>, e: Seq<u8>, at: int)
    requires
        0 <= at,
        str_at(b, at) is Ok,
    ensures
        str_at(b + e, at) == str_at(b, at),
        at <= str_at(b, at)->Ok_0.1 <= b.len(),
{
    lemma_longer_num(b, e, at, 4);
    let end = at + 4 + num(b, at, 4);
    assert((b + e).subrange(at + 4, end) =~= b.subrange(at + 4, end));
}

proof fn lemma_longer_strs_from(b: Seq<u8>, e: Seq<u8>, at: int, n: nat, acc: Seq<Seq<char>>)
    requires
        0 <= at <= b.len(),
        strs_from(b, at, n, acc) is Ok,
    ensures
        strs_from(b + e, at, n, acc) == strs_from(b, at, n, acc),
        at <= strs_from(b, at, n, acc)->Ok_0.1 <= b.len(),
    decreases n,
{
    if n > 0 {
        lemma_longer_str(b, e, at);
        let (s, next) = str_at(b, at)->Ok_0;
        lemma_longer_strs_from(b, e, next, (n - 1) as nat, acc.push(s));
    }
}

proof fn lemma_longer_strs(b: Seq<u8>, e: Seq<u8>, at: int)
    requires
        0 <= at,
        strs_at(b, at) is Ok,
    ensures
        strs_at(b + e, at) == strs_at(b, at),
        at <= strs_at(b, at)->Ok_0.1 <= b.len(),
{
    lemma_longer_num(b, e, at, 4);
    lemma_longer_strs_from(b, e, at + 4, num(b, at, 4), Seq::empty());
}

proof fn lemma_longer_nums(b: Seq<u8>, e: Seq<u8>, at: int, n: nat, k: int, acc: Seq<u64>)
    requires
        0 <= at <= b.len(),
        0 <= k,
        nums_from(b, at, n, k, acc) is Ok,
    ensures
        nums_from(b + e, at, n, k, acc) == nums_from(b, at, n, k, acc),
        at <= nums_from(b, at, n, k, acc)->Ok_0.1 <= b.len(),
    decreases n,
{
    if n > 0 {
        lemma_longer_num(b, e, at, k);
        lemma_longer_nums(b, e, at + k, (n - 1) as nat, k, acc.push(num(b, at, k) as u64));
    }
}

proof fn lemma_longer_column(b: Seq<u8>, e: Seq<u8>, at: int, name: Seq<char>)
    requires
        0 <= at,
        column_data_at(b, at, name) is Ok,
    ensures
        column_data_at(b + e, at, name) == column_data_at(b, at, name),
        at <= column_data_at(b, at, name)->Ok_0.1 <= b.len(),
{
    assert((b + e)[at] == b[at]);
    if b[at] == TAG_SCALAR_F64 {
        lemma_longer_num(b, e, at + 1, 8);
        lemma_longer_nums(b, e, at + 9, num(b, at + 1, 8), 8, Seq::empty());
    } else if b[at] == TAG_DICT_U32 {
        lemma_longer_num(b, e, at + 1, 8);
        lemma_longer_nums(b, e, at + 9, num(b, at + 1, 8), 4, Seq::empty());
        let (v, p) = nums_from(b, at + 9, num(b, at + 1, 8), 4, Seq::empty())->Ok_0;
        lemma_longer_strs(b, e, p);
    } else {
        lemma_longer_num(b, e, at + 1, 8);
        lemma_longer_num(b, e, at + 9, 8);
        let n = num(b, at + 1, 8) * num(b, at + 9, 8);
        lemma_longer_nums(b, e, at + 17, n, 8, Seq::empty());
    }
}

proof fn lemma_longer_columns(b: Seq<u8>, e: Seq<u8>, at: int, n: nat, t: TableView)
    requires
        0 <= at <= b.len(),
        columns_from(b, at, n, t) is Ok,
    ensures
        columns_from(b + e, at, n, t) == columns_from(b, at, n, t),
        at <= columns_from(b, at, n, t)->Ok_0.1 <= b.len(),
    decreases n,
{
    if n > 0 {
        lemma_longer_str(b, e, at);
        let (name, p) = str_at(b, at)->Ok_0;
        lemma_longer_column(b, e, p, name);
        let (c, q) = column_data_at(b, p, name)->Ok_0;
        lemma_longer_columns(b, e, q, (n - 1) as nat, t.insert(name, c));
    }
}

proof fn lemma_longer_map(b: Seq<u8>, e: Seq<u8>, at: int)
    requires
        0 <= at,
        map_at(b, at) is Ok,
    ensures
        map_at(b + e, at) == map_at(b, at),
        at <= map_at(b, at)->Ok_0.1 <= b.len(),
{
    lemma_longer_str(b, e, at);
    let p1 = str_at(b, at)->Ok_0.1;
    lemma_longer_str(b, e, p1);
    let p2 = str_at(b, p1)->Ok_0.1;
    lemma_longer_str(b, e, p2);
    let p3 = str_at(b, p2)->Ok_0.1;
    lemma_longer_strs(b, e, p3);
    let p4 = strs_at(b, p3)->Ok_0.1;
    lemma_longer_strs(b, e, p4);
    let p5 = strs_at(b, p4)->Ok_0.1;
    lemma_longer_strs(b, e, p5);
}

/// A durable form that was cut off is refused, wherever it was cut.
pub proof fn cut_off_bytes_are_refused(b: Seq<u8>, n: int, shown: Seq<char>)
    requires
        load_spec(b, shown) is Ok,
        0 <= n < b.len(),
    ensures
        load_spec(b.take(n), shown) is Err,
{
    let c = b.take(n);
    if load_spec(c, shown) is Ok {
        let body = b.take(b.len() - 8);
        let less = c.take(n - 8);
        let e = body.skip(n - 8);
        assert(less + e =~= body);
        lemma_longer_map(less, e, 32);
        let p = map_at(less, 32)->Ok_0.1;
        lemma_longer_num(less, e, p, 4);
        lemma_longer_columns(less, e, p + 4, num(less, p, 4), Map::empty());
    }
}

/// Every proper prefix of a mirror's durable form is refused.
pub proof fn cut_off_mirrors_are_refused(m: MirrorView, n: int, shown: Seq<char>)
    requires
        storable(m),
        0 <= n < file_bytes(m).len(),
    ensures
        load_spec(file_bytes(m).take(n), shown) is Err,
{
    load_undoes_save(m, shown);
    cut_off_bytes_are_refused(file_bytes(m), n, shown);
}

/// A byte string that is too short, or whose trailer does not match its
/// contents, is refused.
pub proof fn damaged_bytes_are_refused(b: Seq<u8>, shown: Seq<char>)
    requires
        b.len() < 16 || fnv_spec(b.take(b.len() - 8)) != num(b, b.len() - 8, 8),
    ensures
        load_spec(b, shown) is Err,
{
}

/// The trailer chains: one more byte is mixed into the hash of those before
/// it, by exclusive or and a multiplication with the FNV prime, from the FNV
/// offset basis on.
pub proof fn hash_takes_in_byte_by_byte(s: Seq<u8>, x: u8)
    ensures
        fnv_spec(Seq::empty()) == 14695981039346656037,
        fnv_spec(s.push(x)) == (fnv_spec(s) ^ (x as u64)).wrapping_mul(1099511628211),
{
    assert(s.push(x).drop_last() =~= s);
}

/// A saved mirror starts with its magic and its three marks, the watermark
/// first, and ends with the hash of all that is before.
pub proof fn saved_mirror_carries_its_marks(m: MirrorView)
    requires
        m.last_lsn <= u64::MAX,
        m.rows_applied <= u64::MAX,
        m.txs_applied <= u64::MAX,
    ensures
        ({
            let b = file_bytes(m);
            let n = b.len() - 8;
            &&& n >= 32
            &&& b.take(8) == seq![66u8, 82, 67, 68, 67, 77, 48, 49]
            &&& num(b, 8, 8) == m.last_lsn
            &&& num(b, 16, 8) == m.rows_applied
            &&& num(b, 24, 8) == m.txs_applied
            &&& num(b, n, 8) == fnv_spec(b.take(n))
        }),
{
    bytes::lemma_pow256();
    bytes::le_round_trip(m.last_lsn, 8);
    bytes::le_round_trip(m.rows_applied, 8);
    bytes::le_round_trip(m.txs_applied, 8);
    let body = body_bytes(m);
    bytes::le_round_trip(fnv_spec(body) as nat, 8);
    let b = file_bytes(m);
    assert(b.take(8) =~= magic());
    assert(b.subrange(8, 16) =~= bytes::le_bytes(m.last_lsn, 8));
    assert(b.subrange(16, 24) =~= bytes::le_bytes(m.rows_applied, 8));
    assert(b.subrange(24, 32) =~= bytes::le_bytes(m.txs_applied, 8));
    let n = b.len() - 8;
    assert(b.take(n) =~= body);
    assert(b.subrange(n, n + 8) =~= bytes::le_bytes(fnv_spec(body) as nat, 8));
}

} // verus!

//! The apply path: committed transactions -> the mirror table, through
//! one write path (append a row / delete by key).

use vstd::prelude::*;

use crate::bits;
use crate::bits::eq;
use crate::error;
use crate::error::CdcError;
use crate::named;
use crate::pgoutput;
use crate::pgoutput::{DatumView, TupleDatum};
use crate::protocol;
use crate::source;
use crate::source::{find_column, ChangeView, CommittedTx, NamedTuple, RowChange, TxView};
use crate::table;
use crate::table::{Column, ColumnView, RowValues, RowView, Table, TableView};
use crate::text;
use crate::text::{dec_string, join3, join5, owned, same_text, str_debug};

verus! {

// ------------------------------------------------------------------ numbers

/// A number read from its text.
#[derive(Debug)]
pub struct Number {
    /// The IEEE-754 double-precision bit pattern.
    pub bits: u64,
    /// How the number is shown in messages.
    pub shown: String,
}

/// What reading a number from text comes to: its bit pattern and how it is
/// shown, or why the text is no number.
pub type Reading = spec_fn(Seq<char>) -> Result<(u64, Seq<char>), Seq<char>>;

/// The outcome of a reading as a mathematical value.
pub open spec fn number_view(r: Result<Number, String>) -> Result<(u64, Seq<char>), Seq<char>> {
    match r {
        Ok(n) => Ok((n.bits, n.shown@)),
        Err(e) => Err(e@),
    }
}

/// `v` is what `read` makes of `text`.
pub open spec fn reads_as<F: Fn(&str) -> Result<Number, String>>(
    read: F,
    text: Seq<char>,
    v: Result<(u64, Seq<char>), Seq<char>>,
) -> bool {
    exists|a: &str, x: Result<Number, String>|
        a@ == text && #[trigger] call_ensures(read, (a,), x) && number_view(x) == v
}

/// What `read` makes of each text.
pub open spec fn reading<F: Fn(&str) -> Result<Number, String>>(read: F) -> Reading {
    |text: Seq<char>| choose|v: Result<(u64, Seq<char>), Seq<char>>| reads_as(read, text, v)
}

/// `read` accepts every text and makes the same of the same text.
pub open spec fn steady<F: Fn(&str) -> Result<Number, String>>(read: F) -> bool {
    &&& forall|a: &str| #[trigger] call_requires(read, (a,))
    &&& forall|a: &str, b: &str, x: Result<Number, String>, y: Result<Number, String>|
        a@ == b@ && #[trigger] call_ensures(read, (a,), x) && #[trigger] call_ensures(
            read,
            (b,),
            y,
        ) ==> number_view(x) == number_view(y)
}

/// The complaint about a cell that is no number.
pub open spec fn not_number_text(text: Seq<char>, col: Seq<char>, why: Seq<char>) -> Seq<char> {
    "column "@ + col + ": "@ + text::debug_str(text) + " is not an f64: "@ + why
}

/// The number in a cell of column `col`.
pub open spec fn number_spec(rd: Reading, text: Seq<char>, col: Seq<char>) -> Result<
    (u64, Seq<char>),
    Seq<char>,
> {
    match rd(text) {
        Ok(n) => Ok(n),
        Err(why) => Err(not_number_text(text, col, why)),
    }
}

/// The number in a cell of column `col`.
fn parse_number<F: Fn(&str) -> Result<Number, String>>(read: &F, text: &str, col: &str) -> (r:
    Result<Number, CdcError>)
    requires
        steady(*read),
    ensures
        match number_spec(reading(*read), text@, col@) {
            Ok(n) => r matches Ok(x) && (x.bits, x.shown@) == n,
            Err(t) => error::apply_err(r, t),
        },
{
    let x = read(text);
    proof {
        assert(reads_as(*read, text@, number_view(x)));
    }
    match x {
        Ok(n) => Ok(n),
        Err(why) => {
            let mut s = join5("column ", col, ": ", str_debug(text).as_str(), " is not an f64: ");
            s.append(why.as_str());
            Err(CdcError::Apply(s))
        },
    }
}

// ---------------------------------------------------------------- table map

/// How one PG relation maps onto one mirror table. The key column is
/// assembled from scalar parts.
#[derive(Debug, Clone)]
pub struct TableMap {
    /// Table name on both sides.
    pub table: String,
    /// Primary key column (scalar; drives deletes).
    pub pk: String,
    /// Dictionary-encoded label columns.
    pub label_cols: Vec<String>,
    /// Scalar columns (includes `pk` and the key parts).
    pub scalar_cols: Vec<String>,
    /// Name of the assembled key column on the mirror side.
    pub key_col: String,
    /// PG columns forming the key vector, in order.
    pub key_parts: Vec<String>,
}

/// A table map as a mathematical value.
pub struct TableMapView {
    pub table: Seq<char>,
    pub pk: Seq<char>,
    pub label_cols: Seq<Seq<char>>,
    pub scalar_cols: Seq<Seq<char>>,
    pub key_col: Seq<char>,
    pub key_parts: Seq<Seq<char>>,
}

impl View for TableMap {
    type V = TableMapView;

    open spec fn view(&self) -> TableMapView {
        TableMapView {
            table: self.table@,
            pk: self.pk@,
            label_cols: pgoutput::texts(self.label_cols@),
            scalar_cols: pgoutput::texts(self.scalar_cols@),
            key_col: self.key_col@,
            key_parts: pgoutput::texts(self.key_parts@),
        }
    }
}

impl TableMap {
    /// The demo schema: cdc_movies(movie_id, genre, rating, year, e0, e1).
    pub fn cdc_movies() -> (r: Self)
        ensures
            r@ == (TableMapView {
                table: "cdc_movies"@,
                pk: "movie_id"@,
                label_cols: seq!["genre"@],
                scalar_cols: seq!["movie_id"@, "rating"@, "year"@, "e0"@, "e1"@],
                key_col: "emb"@,
                key_parts: seq!["e0"@, "e1"@],
            }),
    {
        let mut label_cols: Vec<String> = Vec::new();
        label_cols.push(owned("genre"));
        let mut scalar_cols: Vec<String> = Vec::new();
        scalar_cols.push(owned("movie_id"));
        scalar_cols.push(owned("rating"));
        scalar_cols.push(owned("year"));
        scalar_cols.push(owned("e0"));
        scalar_cols.push(owned("e1"));
        let mut key_parts: Vec<String> = Vec::new();
        key_parts.push(owned("e0"));
        key_parts.push(owned("e1"));
        assert(pgoutput::texts(label_cols@) =~= seq!["genre"@]);
        assert(pgoutput::texts(scalar_cols@) =~= seq!["movie_id"@, "rating"@, "year"@, "e0"@, "e1"@]);
        assert(pgoutput::texts(key_parts@) =~= seq!["e0"@, "e1"@]);
        TableMap {
            table: owned("cdc_movies"),
            pk: owned("movie_id"),
            label_cols,
            scalar_cols,
            key_col: owned("emb"),
            key_parts,
        }
    }
}

// ------------------------------------------------------------ tuple lookups

/// The datum of the first column called `name`, from `i` on.
pub open spec fn datum_from(cols: Seq<(Seq<char>, DatumView)>, name: Seq<char>, i: int) -> Option<
    DatumView,
>
    decreases cols.len() - i,
{
    if i >= cols.len() {
        None
    } else if cols[i].0 == name {
        Some(cols[i].1)
    } else {
        datum_from(cols, name, i + 1)
    }
}

/// The datum of column `name`; a tuple without that column fails loudly.
pub open spec fn datum_spec(cols: Seq<(Seq<char>, DatumView)>, name: Seq<char>) -> Result<
    DatumView,
    Seq<char>,
> {
    match datum_from(cols, name, 0) {
        Some(d) => Ok(d),
        None => Err("tuple missing column "@ + name),
    }
}

/// The datum of column `name`.
fn datum_of<'a>(cols: &'a NamedTuple, name: &str) -> (r: Result<&'a TupleDatum, CdcError>)
    ensures
        match datum_spec(source::named_view(cols@), name@) {
            Ok(d) => r matches Ok(x) && x@ == d,
            Err(t) => error::apply_err(r, t),
        },
{
    let mut i: usize = 0;
    while i < cols.len()
        invariant
            i <= cols@.len(),
            datum_from(source::named_view(cols@), name@, 0) == datum_from(
                source::named_view(cols@),
                name@,
                i as int,
            ),
        decreases cols.len() - i,
    {
        if same_text(cols[i].0.as_str(), name) {
            return Ok(&cols[i].1);
        }
        i += 1;
    }
    Err(CdcError::Apply(message2("tuple missing column ", name)))
}

/// Two pieces of text, one behind the other.
fn message2(a: &str, b: &str) -> (s: String)
    ensures
        s@ == a@ + b@,
{
    let mut s = owned(a);
    s.append(b);
    s
}

/// The complaint about a NULL.
pub open spec fn null_text(name: Seq<char>) -> Seq<char> {
    "NULL in column "@ + name + " (schema forbids)"@
}

/// The complaint about an unchanged-TOAST marker where no old row can
/// supply the value.
pub open spec fn toast_text(name: Seq<char>) -> Seq<char> {
    "unchanged-TOAST marker in column "@ + name + " outside an update new-tuple"@
}

/// The materialized text of column `name`.
pub open spec fn lookup_spec(cols: Seq<(Seq<char>, DatumView)>, name: Seq<char>) -> Result<
    Seq<char>,
    Seq<char>,
> {
    match datum_spec(cols, name) {
        Err(t) => Err(t),
        Ok(DatumView::Text(v)) => Ok(v),
        Ok(DatumView::Null) => Err(null_text(name)),
        Ok(DatumView::Unchanged) => Err(toast_text(name)),
    }
}

/// The materialized text of column `name`.
fn lookup(cols: &NamedTuple, name: &str) -> (r: Result<String, CdcError>)
    ensures
        match lookup_spec(source::named_view(cols@), name@) {
            Ok(v) => r matches Ok(x) && x@ == v,
            Err(t) => error::apply_err(r, t),
        },
{
    match datum_of(cols, name)? {
        TupleDatum::Text(v) => Ok(v.clone()),
        TupleDatum::Null => Err(
            CdcError::Apply(join3("NULL in column ", name, " (schema forbids)")),
        ),
        TupleDatum::Unchanged => Err(
            CdcError::Apply(
                join3(
                    "unchanged-TOAST marker in column ",
                    name,
                    " outside an update new-tuple",
                ),
            ),
        ),
    }
}

// ----------------------------------------------------------- tuples as rows

/// Where an unchanged-TOAST datum is resolved: nowhere, or in a row of the
/// mirror.
pub enum Resolve {
    Nowhere,
    Row(TableView, int),
}

/// The labels of a dictionary column.
pub open spec fn dict_of(t: TableView, name: Seq<char>) -> Option<(Seq<u32>, Seq<Seq<char>>)> {
    if t.contains_key(name) {
        match t[name] {
            ColumnView::Dict { codes, dict } => Some((codes, dict)),
            _ => None,
        }
    } else {
        None
    }
}

/// The number of column `c` in a tuple.
pub open spec fn scalar_cell(
    rd: Reading,
    cols: Seq<(Seq<char>, DatumView)>,
    c: Seq<char>,
    res: Resolve,
) -> Result<u64, Seq<char>> {
    match datum_spec(cols, c) {
        Err(t) => Err(t),
        Ok(DatumView::Text(v)) => match number_spec(rd, v, c) {
            Ok(n) => Ok(n.0),
            Err(t) => Err(t),
        },
        Ok(DatumView::Null) => Err(null_text(c)),
        Ok(DatumView::Unchanged) => match res {
            Resolve::Nowhere => Err(toast_text(c)),
            Resolve::Row(t, i) => match table::scalar_of(t, c) {
                Some(v) => Ok(v[i]),
                None => Err("unchanged-TOAST column "@ + c + " not a mirror scalar"@),
            },
        },
    }
}

/// The label of column `c` in a tuple.
pub open spec fn label_cell(cols: Seq<(Seq<char>, DatumView)>, c: Seq<char>, res: Resolve) -> Result<
    Seq<char>,
    Seq<char>,
> {
    match datum_spec(cols, c) {
        Err(t) => Err(t),
        Ok(DatumView::Text(v)) => Ok(v),
        Ok(DatumView::Null) => Err(null_text(c)),
        Ok(DatumView::Unchanged) => match res {
            Resolve::Nowhere => Err(toast_text(c)),
            Resolve::Row(t, i) => match dict_of(t, c) {
                Some((codes, dict)) => Ok(dict[codes[i] as int]),
                None => Err("unchanged-TOAST column "@ + c + " not a mirror dict column"@),
            },
        },
    }
}

/// The numbers of the columns `names` from `i` on, beside those in `acc`.
pub open spec fn scalars_from(
    rd: Reading,
    cols: Seq<(Seq<char>, DatumView)>,
    names: Seq<Seq<char>>,
    i: int,
    res: Resolve,
    acc: Map<Seq<char>, u64>,
) -> Result<Map<Seq<char>, u64>, Seq<char>>
    decreases names.len() - i,
{
    if i >= names.len() {
        Ok(acc)
    } else {
        match scalar_cell(rd, cols, names[i], res) {
            Ok(x) => scalars_from(rd, cols, names, i + 1, res, acc.insert(names[i], x)),
            Err(t) => Err(t),
        }
    }
}

/// The labels of the columns `names` from `i` on, beside those in `acc`.
pub open spec fn labels_from(
    cols: Seq<(Seq<char>, DatumView)>,
    names: Seq<Seq<char>>,
    i: int,
    res: Resolve,
    acc: Map<Seq<char>, Seq<char>>,
) -> Result<Map<Seq<char>, Seq<char>>, Seq<char>>
    decreases names.len() - i,
{
    if i >= names.len() {
        Ok(acc)
    } else {
        match label_cell(cols, names[i], res) {
            Ok(x) => labels_from(cols, names, i + 1, res, acc.insert(names[i], x)),
            Err(t) => Err(t),
        }
    }
}

/// The numbers of the key parts from `i` on, behind those in `acc`.
pub open spec fn key_from(
    rd: Reading,
    cols: Seq<(Seq<char>, DatumView)>,
    parts: Seq<Seq<char>>,
    i: int,
    res: Resolve,
    acc: Seq<u64>,
) -> Result<Seq<u64>, Seq<char>>
    decreases parts.len() - i,
{
    if i >= parts.len() {
        Ok(acc)
    } else {
        match scalar_cell(rd, cols, parts[i], res) {
            Ok(x) => key_from(rd, cols, parts, i + 1, res, acc.push(x)),
            Err(t) => Err(t),
        }
    }
}

/// The row that a tuple describes: its numbers, its labels, its key.
pub open spec fn row_spec(
    rd: Reading,
    map: TableMapView,
    cols: Seq<(Seq<char>, DatumView)>,
    res: Resolve,
) -> Result<RowView, Seq<char>> {
    match scalars_from(rd, cols, map.scalar_cols, 0, res, Map::empty()) {
        Err(t) => Err(t),
        Ok(scalars) => match labels_from(cols, map.label_cols, 0, res, Map::empty()) {
            Err(t) => Err(t),
            Ok(labels) => match key_from(rd, cols, map.key_parts, 0, res, Seq::empty()) {
                Err(t) => Err(t),
                Ok(key) => Ok(
                    RowView { scalars, labels, keys: Map::empty().insert(map.key_col, key) },
                ),
            },
        },
    }
}

/// Where unchanged-TOAST datums are resolved, as a mathematical value.
pub open spec fn resolve_view(res: Option<(&Table, usize)>) -> Resolve {
    match res {
        Some((t, i)) => Resolve::Row(t@, i as int),
        None => Resolve::Nowhere,
    }
}

/// The row of the mirror that is pointed to is there.
pub open spec fn resolve_ok(res: Option<(&Table, usize)>) -> bool {
    res matches Some((t, i)) ==> t.wf() && exists|n: nat| i < n && table::table_rows(t@, n)
}

/// The number of column `c` in a tuple.
fn resolve_scalar<F: Fn(&str) -> Result<Number, String>>(
    read: &F,
    cols: &NamedTuple,
    c: &str,
    res: Option<(&Table, usize)>,
) -> (r: Result<u64, CdcError>)
    requires
        steady(*read),
        resolve_ok(res),
    ensures
        match scalar_cell(reading(*read), source::named_view(cols@), c@, resolve_view(res)) {
            Ok(v) => r matches Ok(x) && x == v,
            Err(t) => error::apply_err(r, t),
        },
{
    match datum_of(cols, c)? {
        TupleDatum::Text(v) => {
            let n = parse_number(read, v.as_str(), c)?;
            Ok(n.bits)
        },
        TupleDatum::Null => Err(
            CdcError::Apply(join3("NULL in column ", c, " (schema forbids)")),
        ),
        TupleDatum::Unchanged => match res {
            None => Err(
                CdcError::Apply(
                    join3(
                        "unchanged-TOAST marker in column ",
                        c,
                        " outside an update new-tuple",
                    ),
                ),
            ),
            Some((t, i)) => match t.column(c) {
                Some(Column::ScalarF64(v)) => Ok(v[i]),
                _ => Err(
                    CdcError::Apply(
                        join3("unchanged-TOAST column ", c, " not a mirror scalar"),
                    ),
                ),
            },
        },
    }
}

/// The label of column `c` in a tuple.
fn resolve_label(cols: &NamedTuple, c: &str, res: Option<(&Table, usize)>) -> (r: Result<
    String,
    CdcError,
>)
    requires
        resolve_ok(res),
    ensures
        match label_cell(source::named_view(cols@), c@, resolve_view(res)) {
            Ok(v) => r matches Ok(x) && x@ == v,
            Err(t) => error::apply_err(r, t),
        },
{
    match datum_of(cols, c)? {
        TupleDatum::Text(v) => Ok(v.clone()),
        TupleDatum::Null => Err(
            CdcError::Apply(join3("NULL in column ", c, " (schema forbids)")),
        ),
        TupleDatum::Unchanged => match res {
            None => Err(
                CdcError::Apply(
                    join3(
                        "unchanged-TOAST marker in column ",
                        c,
                        " outside an update new-tuple",
                    ),
                ),
            ),
            Some((t, i)) => match t.column(c) {
                Some(Column::DictU32 { codes, dict }) => {
                    let code: u32 = codes[i];
                    Ok(dict[code as usize].clone())
                },
                _ => Err(
                    CdcError::Apply(
                        join3("unchanged-TOAST column ", c, " not a mirror dict column"),
                    ),
                ),
            },
        },
    }
}

/// The row that a tuple describes.
fn row_values<F: Fn(&str) -> Result<Number, String>>(
    read: &F,
    map: &TableMap,
    cols: &NamedTuple,
    res: Option<(&Table, usize)>,
) -> (r: Result<RowValues, CdcError>)
    requires
        steady(*read),
        resolve_ok(res),
    ensures
        match row_spec(reading(*read), map@, source::named_view(cols@), resolve_view(res)) {
            Ok(v) => r matches Ok(x) && x@ == v,
            Err(t) => error::apply_err(r, t),
        },
{
    let ghost rd = reading(*read);
    let ghost tuple = source::named_view(cols@);
    let ghost rv = resolve_view(res);
    let mut scalars: Vec<(String, u64)> = Vec::new();
    let mut i: usize = 0;
    while i < map.scalar_cols.len()
        invariant
            steady(*read),
            resolve_ok(res),
            rd == reading(*read),
            tuple == source::named_view(cols@),
            rv == resolve_view(res),
            i <= map.scalar_cols@.len(),
            scalars_from(rd, tuple, map@.scalar_cols, 0, rv, Map::empty()) == scalars_from(
                rd,
                tuple,
                map@.scalar_cols,
                i as int,
                rv,
                named::assoc(scalars@),
            ),
        decreases map.scalar_cols.len() - i,
    {
        let x: u64 = resolve_scalar(read, cols, map.scalar_cols[i].as_str(), res)?;
        let ghost before = scalars@;
        scalars.push((map.scalar_cols[i].clone(), x));
        assert(scalars@.drop_last() =~= before);
        i += 1;
    }
    let mut labels: Vec<(String, String)> = Vec::new();
    assert(named::assoc(labels@).map_values(|l: String| l@) =~= Map::empty());
    let mut i: usize = 0;
    while i < map.label_cols.len()
        invariant
            resolve_ok(res),
            tuple == source::named_view(cols@),
            rv == resolve_view(res),
            i <= map.label_cols@.len(),
            scalars_from(rd, tuple, map@.scalar_cols, 0, rv, Map::empty()) == Ok::<
                Map<Seq<char>, u64>,
                Seq<char>,
            >(named::assoc(scalars@)),
            rd == reading(*read),
            labels_from(tuple, map@.label_cols, 0, rv, Map::empty()) == labels_from(
                tuple,
                map@.label_cols,
                i as int,
                rv,
                named::assoc(labels@).map_values(|l: String| l@),
            ),
        decreases map.label_cols.len() - i,
    {
        let x = resolve_label(cols, map.label_cols[i].as_str(), res)?;
        let ghost before = labels@;
        labels.push((map.label_cols[i].clone(), x));
        proof {
            assert(labels@.drop_last() =~= before);
            assert(named::assoc(labels@).map_values(|l: String| l@) =~= named::assoc(before).map_values(
                |l: String| l@,
            ).insert(map.label_cols@[i as int]@, x@));
        }
        i += 1;
    }
    let mut key: Vec<u64> = Vec::new();
    let mut i: usize = 0;
    while i < map.key_parts.len()
        invariant
            steady(*read),
            resolve_ok(res),
            rd == reading(*read),
            tuple == source::named_view(cols@),
            rv == resolve_view(res),
            i <= map.key_parts@.len(),
            scalars_from(rd, tuple, map@.scalar_cols, 0, rv, Map::empty()) == Ok::<
                Map<Seq<char>, u64>,
                Seq<char>,
            >(named::assoc(scalars@)),
            labels_from(tuple, map@.label_cols, 0, rv, Map::empty()) == Ok::<
                Map<Seq<char>, Seq<char>>,
                Seq<char>,
            >(named::assoc(labels@).map_values(|l: String| l@)),
            key_from(rd, tuple, map@.key_parts, 0, rv, Seq::empty()) == key_from(
                rd,
                tuple,
                map@.key_parts,
                i as int,
                rv,
                key@,
            ),
        decreases map.key_parts.len() - i,
    {
        let x: u64 = resolve_scalar(read, cols, map.key_parts[i].as_str(), res)?;
        key.push(x);
        i += 1;
    }
    let mut keys: Vec<(String, Vec<u64>)> = Vec::new();
    let ghost none = keys@;
    keys.push((map.key_col.clone(), key));
    proof {
        assert(keys@.drop_last() =~= none);
        assert(named::assoc(none) =~= Map::empty());
        assert(named::assoc(keys@).map_values(|k: Vec<u64>| k@) =~= Map::empty().insert(
            map.key_col@,
            key@,
        ));
    }
    Ok(RowValues { scalars, labels, keys })
}

// ------------------------------------------------------------------- mirror

/// The mirror: a table kept fresh from a change stream.
///
/// Consistency contract: the source yields only whole committed
/// transactions; a reader between two calls of `apply_tx` sees none or all
/// of a transaction; and `last_lsn` filters transactions that a resumed
/// stream delivers again, so that each is applied exactly once.
#[derive(Debug)]
pub struct Mirror {
    /// The mirrored table.
    pub table: Table,
    /// The relation that is mirrored.
    pub map: TableMap,
    /// Row changes applied since the snapshot.
    pub rows_applied: usize,
    /// Transactions applied since the snapshot.
    pub txs_applied: usize,
    /// `end_lsn` of the last applied transaction — the exactly-once
    /// watermark.
    pub last_lsn: u64,
}

/// A mirror as a mathematical value.
pub struct MirrorView {
    pub table: TableView,
    pub map: TableMapView,
    pub rows_applied: nat,
    pub txs_applied: nat,
    pub last_lsn: nat,
}

impl View for Mirror {
    type V = MirrorView;

    open spec fn view(&self) -> MirrorView {
        MirrorView {
            table: self.table@,
            map: self.map@,
            rows_applied: self.rows_applied as nat,
            txs_applied: self.txs_applied as nat,
            last_lsn: self.last_lsn as nat,
        }
    }
}

/// All columns of a table have the same number of rows.
pub open spec fn aligned(t: TableView) -> bool {
    exists|n: nat| table::table_rows(t, n)
}

/// The place of the first number that equals `key`, from `i` on.
pub open spec fn first_match(v: Seq<u64>, key: u64, i: int) -> Option<int>
    decreases v.len() - i,
{
    if i >= v.len() {
        None
    } else if bits::num_eq(v[i], key) {
        Some(i)
    } else {
        first_match(v, key, i + 1)
    }
}

/// The complaint about a primary key column that is no scalar column.
pub open spec fn pk_text(pk: Seq<char>) -> Seq<char> {
    "pk column "@ + pk + " is not ScalarF64"@
}

/// The row of the mirror that an update refers to.
pub open spec fn find_row_spec(t: TableView, pk: Seq<char>, key: (u64, Seq<char>)) -> Result<
    int,
    Seq<char>,
> {
    match table::scalar_of(t, pk) {
        None => Err(pk_text(pk)),
        Some(v) => match first_match(v, key.0, 0) {
            Some(i) => Ok(i),
            None => Err(
                "update "@ + pk + "="@ + key.1 + ": row not in mirror (out of sync)"@,
            ),
        },
    }
}

/// Some datum of the tuple is an unchanged-TOAST marker.
pub open spec fn has_unchanged(cols: Seq<(Seq<char>, DatumView)>) -> bool {
    exists|i: int| 0 <= i < cols.len() && (#[trigger] cols[i]).1 is Unchanged
}

/// The text of the key by which an update finds its row: the old tuple's,
/// where one was sent, else the new tuple's.
pub open spec fn update_key_spec(
    map: TableMapView,
    before: Option<Seq<(Seq<char>, DatumView)>>,
    after: Seq<(Seq<char>, DatumView)>,
) -> Result<Seq<char>, Seq<char>> {
    match before {
        Some(o) => lookup_spec(o, map.pk),
        None => match datum_spec(after, map.pk) {
            Err(t) => Err(t),
            Ok(DatumView::Text(v)) => Ok(v),
            Ok(DatumView::Unchanged) => Err(
                "update: key column "@ + map.pk
                    + " is unchanged-TOAST and no old tuple was sent; cannot locate the row"@,
            ),
            Ok(DatumView::Null) => Err(
                "update: NULL key column "@ + map.pk + " (schema forbids)"@,
            ),
        },
    }
}

/// The row that an update leaves behind; unchanged-TOAST datums are read
/// from the mirror's current row.
pub open spec fn updated_row_spec(
    rd: Reading,
    map: TableMapView,
    t: TableView,
    key: (u64, Seq<char>),
    after: Seq<(Seq<char>, DatumView)>,
) -> Result<RowView, Seq<char>> {
    if has_unchanged(after) {
        match find_row_spec(t, map.pk, key) {
            Err(e) => Err(e),
            Ok(i) => row_spec(rd, map, after, Resolve::Row(t, i)),
        }
    } else {
        row_spec(rd, map, after, Resolve::Nowhere)
    }
}

/// The complaint about a delete or update that did not hit exactly one
/// row.
pub open spec fn out_of_sync_text(
    what: Seq<char>,
    pk: Seq<char>,
    shown: Seq<char>,
    n: nat,
) -> Seq<char> {
    what + pk + "="@ + shown + " removed "@ + text::dec(n) + " rows, want 1 (mirror out of sync)"@
}

/// Removes the rows with key `key`: the table, and whether exactly one row
/// went.
pub open spec fn delete_spec(
    what: Seq<char>,
    t: TableView,
    pk: Seq<char>,
    key: (u64, Seq<char>),
) -> (TableView, Result<(), Seq<char>>) {
    match table::scalar_of(t, pk) {
        None => (t, Err(pk_text(pk))),
        Some(v) => (
            table::table_without(t, v, key.0),
            if table::matches(v, key.0) == 1 {
                Ok(())
            } else {
                Err(out_of_sync_text(what, pk, key.1, table::matches(v, key.0)))
            },
        ),
    }
}

/// Appends a row: the table, and whether the row fitted.
pub open spec fn insert_spec(t: TableView, row: RowView) -> (TableView, Result<(), Seq<char>>) {
    if table::row_fits(t, row) {
        (table::table_pushed(t, row), Ok(()))
    } else {
        (t, Err(table::row_text()))
    }
}

/// What one row change does to the table: the table after it, and whether
/// it was applied (a change of another relation is not), or the complaint.
pub open spec fn change_effect(rd: Reading, map: TableMapView, t: TableView, c: ChangeView) -> (
    TableView,
    Result<bool, Seq<char>>,
) {
    match c {
        ChangeView::Insert(rel, cols) => if rel != map.table {
            (t, Ok(false))
        } else {
            match row_spec(rd, map, cols, Resolve::Nowhere) {
                Err(e) => (t, Err(e)),
                Ok(row) => match insert_spec(t, row) {
                    (t2, Ok(())) => (t2, Ok(true)),
                    (t2, Err(e)) => (t2, Err(e)),
                },
            }
        },
        ChangeView::Delete(rel, cols) => if rel != map.table {
            (t, Ok(false))
        } else {
            match lookup_spec(cols, map.pk) {
                Err(e) => (t, Err(e)),
                Ok(text) => match number_spec(rd, text, map.pk) {
                    Err(e) => (t, Err(e)),
                    Ok(key) => match delete_spec("delete "@, t, map.pk, key) {
                        (t2, Ok(())) => (t2, Ok(true)),
                        (t2, Err(e)) => (t2, Err(e)),
                    },
                },
            }
        },
        ChangeView::Update(rel, before, after) => if rel != map.table {
            (t, Ok(false))
        } else {
            match update_key_spec(map, before, after) {
                Err(e) => (t, Err(e)),
                Ok(text) => match number_spec(rd, text, map.pk) {
                    Err(e) => (t, Err(e)),
                    Ok(key) => match updated_row_spec(rd, map, t, key, after) {
                        Err(e) => (t, Err(e)),
                        Ok(row) => match delete_spec("update "@, t, map.pk, key) {
                            (t2, Err(e)) => (t2, Err(e)),
                            (t2, Ok(())) => match insert_spec(t2, row) {
                                (t3, Ok(())) => (t3, Ok(true)),
                                (t3, Err(e)) => (t3, Err(e)),
                            },
                        },
                    },
                },
            }
        },
    }
}

/// What the changes from `i` on do to the table: the table after them, and
/// how many were applied on top of `applied`, or the first complaint.
pub open spec fn changes_effect(
    rd: Reading,
    map: TableMapView,
    t: TableView,
    changes: Seq<ChangeView>,
    i: int,
    applied: nat,
) -> (TableView, Result<nat, Seq<char>>)
    decreases changes.len() - i,
{
    if i >= changes.len() {
        (t, Ok(applied))
    } else {
        match change_effect(rd, map, t, changes[i]) {
            (t2, Err(e)) => (t2, Err(e)),
            (t2, Ok(hit)) => changes_effect(
                rd,
                map,
                t2,
                changes,
                i + 1,
                if hit {
                    applied + 1
                } else {
                    applied
                },
            ),
        }
    }
}

/// What a transaction does to the mirror: nothing if its `end_lsn` is not
/// past the watermark; else its changes in order, if all of them apply, and
/// nothing if one does not.
pub open spec fn tx_effect(rd: Reading, m: MirrorView, tx: TxView) -> (
    MirrorView,
    Result<nat, Seq<char>>,
) {
    if tx.end_lsn <= m.last_lsn {
        (m, Ok(0))
    } else {
        match changes_effect(rd, m.map, m.table, tx.changes, 0, 0) {
            (_, Err(e)) => (m, Err(e)),
            (t, Ok(n)) => (
                MirrorView {
                    table: t,
                    rows_applied: m.rows_applied + n,
                    txs_applied: m.txs_applied + 1,
                    last_lsn: tx.end_lsn,
                    ..m
                },
                Ok(n),
            ),
        }
    }
}

/// The table has at most `n` rows, in every column alike.
pub open spec fn rows_within(t: TableView, n: int) -> bool {
    exists|k: nat| k <= n && table::table_rows(t, k)
}

/// The row of the mirror that an update refers to.
fn find_row(t: &Table, pk: &str, key: &Number) -> (r: Result<usize, CdcError>)
    requires
        t.wf(),
        aligned(t@),
    ensures
        match find_row_spec(t@, pk@, (key.bits, key.shown@)) {
            Ok(i) => (r matches Ok(x) && x == i) && exists|n: nat| i < n && table::table_rows(t@, n),
            Err(e) => error::apply_err(r, e),
        },
{
    match t.column(pk) {
        Some(Column::ScalarF64(v)) => {
            let mut i: usize = 0;
            while i < v.len()
                invariant
                    i <= v@.len(),
                    first_match(v@, key.bits, 0) == first_match(v@, key.bits, i as int),
                    table::scalar_of(t@, pk@) == Some(v@),
                    aligned(t@),
                decreases v.len() - i,
            {
                if eq(v[i], key.bits) {
                    proof {
                        let n = choose|n: nat| table::table_rows(t@, n);
                        assert(t@.contains_key(pk@));
                        assert(i < n && table::table_rows(t@, n));
                    }
                    return Ok(i);
                }
                i += 1;
            }
            Err(
                CdcError::Apply(
                    join5(
                        "update ",
                        pk,
                        "=",
                        key.shown.as_str(),
                        ": row not in mirror (out of sync)",
                    ),
                ),
            )
        },
        _ => Err(CdcError::Apply(join3("pk column ", pk, " is not ScalarF64"))),
    }
}

/// Removes the rows with key `key`; exactly one must go.
fn delete_key(t: &mut Table, what: &str, pk: &str, key: &Number) -> (r: Result<(), CdcError>)
    requires
        old(t).wf(),
        aligned(old(t)@),
    ensures
        final(t).wf(),
        ({
            let (t2, out) = delete_spec(what@, old(t)@, pk@, (key.bits, key.shown@));
            &&& final(t)@ == t2
            &&& match out {
                Ok(()) => r is Ok,
                Err(e) => error::apply_err(r, e),
            }
        }),
{
    match t.delete_where(pk, key.bits) {
        None => Err(CdcError::Apply(join3("pk column ", pk, " is not ScalarF64"))),
        Some(n) => {
            if n == 1 {
                Ok(())
            } else {
                let mut s = join5(what, pk, "=", key.shown.as_str(), " removed ");
                s.append(dec_string(n as u64).as_str());
                s.append(" rows, want 1 (mirror out of sync)");
                Err(CdcError::Apply(s))
            }
        },
    }
}

/// The text of the key by which an update finds its row.
fn update_key(map: &TableMap, before: &Option<NamedTuple>, after: &NamedTuple) -> (r: Result<
    String,
    CdcError,
>)
    ensures
        match update_key_spec(
            map@,
            match *before {
                Some(o) => Some(source::named_view(o@)),
                None => None,
            },
            source::named_view(after@),
        ) {
            Ok(v) => r matches Ok(x) && x@ == v,
            Err(t) => error::apply_err(r, t),
        },
{
    match before {
        Some(o) => lookup(o, map.pk.as_str()),
        None => match datum_of(after, map.pk.as_str())? {
            TupleDatum::Text(v) => Ok(v.clone()),
            TupleDatum::Unchanged => Err(
                CdcError::Apply(
                    join3(
                        "update: key column ",
                        map.pk.as_str(),
                        " is unchanged-TOAST and no old tuple was sent; cannot locate the row",
                    ),
                ),
            ),
            TupleDatum::Null => Err(
                CdcError::Apply(
                    join3("update: NULL key column ", map.pk.as_str(), " (schema forbids)"),
                ),
            ),
        },
    }
}

/// The row that an update leaves behind. Must run before the old row is
/// deleted: unchanged-TOAST datums are read from it.
fn resolve_update_row<F: Fn(&str) -> Result<Number, String>>(
    read: &F,
    map: &TableMap,
    t: &Table,
    key: &Number,
    after: &NamedTuple,
) -> (r: Result<RowValues, CdcError>)
    requires
        steady(*read),
        t.wf(),
        aligned(t@),
    ensures
        match updated_row_spec(
            reading(*read),
            map@,
            t@,
            (key.bits, key.shown@),
            source::named_view(after@),
        ) {
            Ok(v) => r matches Ok(x) && x@ == v,
            Err(e) => error::apply_err(r, e),
        },
{
    let mut i: usize = 0;
    let mut found: bool = false;
    while i < after.len()
        invariant
            i <= after@.len(),
            found == exists|j: int| 0 <= j < i && (#[trigger] source::named_view(after@)[j]).1 is Unchanged,
        decreases after.len() - i,
    {
        let hit: bool = match &after[i].1 {
            TupleDatum::Unchanged => true,
            _ => false,
        };
        assert(hit == source::named_view(after@)[i as int].1 is Unchanged);
        found = found || hit;
        i += 1;
    }
    if found {
        let at: usize = find_row(t, map.pk.as_str(), key)?;
        row_values(read, map, after, Some((t, at)))
    } else {
        row_values(read, map, after, None)
    }
}

/// Applies one row change; `true` if it concerned the mirrored relation.
fn apply_change<F: Fn(&str) -> Result<Number, String>>(
    read: &F,
    map: &TableMap,
    t: &mut Table,
    c: &RowChange,
    Ghost(room): Ghost<int>,
) -> (r: Result<bool, CdcError>)
    requires
        steady(*read),
        old(t).wf(),
        rows_within(old(t)@, room),
        room < usize::MAX,
    ensures
        final(t).wf(),
        rows_within(final(t)@, room + 1),
        ({
            let (t2, out) = change_effect(reading(*read), map@, old(t)@, c@);
            &&& final(t)@ == t2
            &&& match out {
                Ok(hit) => r matches Ok(b) && b == hit,
                Err(e) => error::apply_err(r, e),
            }
        }),
{
    let ghost start = t@;
    let ghost k = choose|k: nat| k <= room && table::table_rows(start, k);
    assert(table::table_rows(start, k));
    match c {
        RowChange::Insert { rel, cols } => {
            if !same_text(rel.as_str(), map.table.as_str()) {
                return Ok(false);
            }
            let row = row_values(read, map, cols, None)?;
            t.insert_row(&row)?;
            proof {
                table::lemma_table_pushed_rows(start, row@, k);
            }
            Ok(true)
        },
        RowChange::Delete { rel, old } => {
            if !same_text(rel.as_str(), map.table.as_str()) {
                return Ok(false);
            }
            let text = lookup(old, map.pk.as_str())?;
            let key = parse_number(read, text.as_str(), map.pk.as_str())?;
            proof {
                lemma_delete_rows("delete "@, start, map@.pk, (key.bits, key.shown@), k);
            }
            delete_key(t, "delete ", map.pk.as_str(), &key)?;
            Ok(true)
        },
        RowChange::Update { rel, old, new } => {
            if !same_text(rel.as_str(), map.table.as_str()) {
                return Ok(false);
            }
            let text = update_key(map, old, new)?;
            let key = parse_number(read, text.as_str(), map.pk.as_str())?;
            let row = resolve_update_row(read, map, t, &key, new)?;
            proof {
                lemma_delete_rows("update "@, start, map@.pk, (key.bits, key.shown@), k);
            }
            delete_key(t, "update ", map.pk.as_str(), &key)?;
            let ghost mid = t@;
            let ghost k2 = choose|n: nat| n <= k && table::table_rows(mid, n);
            t.insert_row(&row)?;
            proof {
                table::lemma_table_pushed_rows(mid, row@, k2);
            }
            Ok(true)
        },
    }
}

proof fn lemma_delete_rows(what: Seq<char>, t: TableView, pk: Seq<char>, key: (u64, Seq<char>), k: nat)
    requires
        table::table_rows(t, k),
    ensures
        rows_within(delete_spec(what, t, pk, key).0, k as int),
{
    match table::scalar_of(t, pk) {
        None => {},
        Some(v) => {
            assert(t.contains_key(pk));
            table::lemma_without_rows(t, v, key.0);
        },
    }
}

impl Mirror {
    /// The table's columns are sound and aligned.
    pub open spec fn wf(self) -> bool {
        self.table.wf() && aligned(self@.table)
    }

    /// Apply one committed transaction. Returns rows applied (0 for
    /// transactions that only touched other relations, and 0 for a
    /// replayed transaction — `end_lsn <= last_lsn` — which is skipped
    /// without touching the mirror or the counters; the caller still acks
    /// it so the slot advances). A change that does not apply leaves the
    /// mirror as it was. `read` reads a number from its text.
    pub fn apply_tx<F: Fn(&str) -> Result<Number, String>>(
        &mut self,
        tx: &CommittedTx,
        read: &F,
    ) -> (r: Result<usize, CdcError>)
        requires
            old(self).wf(),
            steady(*read),
            rows_within(old(self)@.table, usize::MAX - tx@.changes.len()),
            old(self)@.rows_applied + tx@.changes.len() <= usize::MAX,
            old(self)@.txs_applied < usize::MAX,
        ensures
            final(self).wf(),
            ({
                let (m, out) = tx_effect(reading(*read), old(self)@, tx@);
                &&& final(self)@ == m
                &&& match out {
                    Ok(n) => r matches Ok(x) && x == n,
                    Err(e) => error::apply_err(r, e),
                }
            }),
    {
        if tx.end_lsn <= self.last_lsn {
            return Ok(0);
        }
        let ghost rd = reading(*read);
        let ghost changes = tx@.changes;
        let ghost room = usize::MAX - changes.len();
        let mut table = self.table.copy();
        let mut applied: usize = 0;
        let mut i: usize = 0;
        while i < tx.changes.len()
            invariant
                steady(*read),
                rd == reading(*read),
                changes == source::changes_view(tx.changes@),
                room == usize::MAX - changes.len(),
                i <= tx.changes@.len() == changes.len(),
                applied <= i,
                table.wf(),
                rows_within(table@, room + i),
                *self == *old(self),
                self.wf(),
                changes_effect(rd, old(self)@.map, old(self)@.table, changes, 0, 0)
                    == changes_effect(
                    rd,
                    old(self)@.map,
                    table@,
                    changes,
                    i as int,
                    applied as nat,
                ),
                tx@ == (TxView {
                    changes,
                    commit_ts_us: tx.commit_ts_us as int,
                    end_lsn: tx.end_lsn as nat,
                }),
                tx.end_lsn > old(self)@.last_lsn,
            decreases tx.changes.len() - i,
        {
            let hit: bool = match apply_change(
                read,
                &self.map,
                &mut table,
                &tx.changes[i],
                Ghost(room + i),
            ) {
                Ok(hit) => hit,
                Err(e) => return Err(e),
            };
            if hit {
                applied += 1;
            }
            i += 1;
        }
        self.table = table;
        self.rows_applied = self.rows_applied + applied;
        self.txs_applied = self.txs_applied + 1;
        self.last_lsn = tx.end_lsn;
        Ok(applied)
    }

    /// True where all columns of the table have the same number of rows:
    /// always so for a snapshot, to be asked of a mirror that was loaded.
    pub fn is_aligned(&self) -> (r: bool)
        requires
            self.table.wf(),
        ensures
            r == self.wf(),
    {
        self.table.is_aligned()
    }

    /// Number of rows currently in the mirror table.
    pub fn n_rows(&self) -> (n: usize)
        requires
            self.table.wf(),
        ensures
            n == n_rows_spec(self@),
    {
        match self.table.column(self.map.pk.as_str()) {
            Some(c) => c.len(),
            None => 0,
        }
    }
}

/// Number of rows of a mirror.
pub open spec fn n_rows_spec(m: MirrorView) -> nat {
    if m.table.contains_key(m.map.pk) {
        table::column_len(m.table[m.map.pk])
    } else {
        0
    }
}

// ----------------------------------------------------------------- snapshot

/// The complaint about a NULL (or a missing cell) in a snapshot row.
pub open spec fn snapshot_null_text() -> Seq<char> {
    "NULL in snapshot (schema forbids)"@
}

/// The text of cell `i` of a snapshot row.
pub open spec fn cell_spec(row: Seq<Option<Seq<char>>>, i: int) -> Result<Seq<char>, Seq<char>> {
    if i < row.len() && row[i] is Some {
        Ok(row[i]->0)
    } else {
        Err(snapshot_null_text())
    }
}

/// The place of a snapshot column.
pub open spec fn snapshot_column(names: Seq<Seq<char>>, c: Seq<char>) -> Result<int, Seq<char>> {
    match source::column_at(names, c, 0) {
        Some(i) => Ok(i),
        None => Err("snapshot missing column "@ + c),
    }
}

/// The numbers in cell `i` of the rows from `r` on, behind those in `acc`.
pub open spec fn snapshot_scalars(
    rd: Reading,
    rows: Seq<Seq<Option<Seq<char>>>>,
    i: int,
    c: Seq<char>,
    r: int,
    acc: Seq<u64>,
) -> Result<Seq<u64>, Seq<char>>
    decreases rows.len() - r,
{
    if r >= rows.len() {
        Ok(acc)
    } else {
        match cell_spec(rows[r], i) {
            Err(t) => Err(t),
            Ok(text) => match number_spec(rd, text, c) {
                Err(t) => Err(t),
                Ok(n) => snapshot_scalars(rd, rows, i, c, r + 1, acc.push(n.0)),
            },
        }
    }
}

/// The labels in cell `i` of the rows from `r` on, behind those already
/// coded.
pub open spec fn snapshot_labels(
    rows: Seq<Seq<Option<Seq<char>>>>,
    i: int,
    r: int,
    codes: Seq<u32>,
    dict: Seq<Seq<char>>,
) -> Result<(Seq<u32>, Seq<Seq<char>>), Seq<char>>
    decreases rows.len() - r,
{
    if r >= rows.len() {
        Ok((codes, dict))
    } else {
        match cell_spec(rows[r], i) {
            Err(t) => Err(t),
            Ok(label) => {
                let (d, k) = table::dict_code(dict, label);
                snapshot_labels(rows, i, r + 1, codes.push(k as u32), d)
            },
        }
    }
}

/// The places of the columns `names` from `i` on, behind those in `acc`.
pub open spec fn snapshot_places(
    cols: Seq<Seq<char>>,
    names: Seq<Seq<char>>,
    i: int,
    acc: Seq<int>,
) -> Result<Seq<int>, Seq<char>>
    decreases names.len() - i,
{
    if i >= names.len() {
        Ok(acc)
    } else {
        match snapshot_column(cols, names[i]) {
            Err(t) => Err(t),
            Ok(k) => snapshot_places(cols, names, i + 1, acc.push(k)),
        }
    }
}

/// The key parts of one row from `j` on, behind those in `acc`.
pub open spec fn snapshot_key(
    rd: Reading,
    row: Seq<Option<Seq<char>>>,
    places: Seq<int>,
    parts: Seq<Seq<char>>,
    j: int,
    acc: Seq<u64>,
) -> Result<Seq<u64>, Seq<char>>
    decreases places.len() - j,
{
    if j >= places.len() {
        Ok(acc)
    } else {
        match cell_spec(row, places[j]) {
            Err(t) => Err(t),
            Ok(text) => match number_spec(rd, text, parts[j]) {
                Err(t) => Err(t),
                Ok(n) => snapshot_key(rd, row, places, parts, j + 1, acc.push(n.0)),
            },
        }
    }
}

/// The keys of the rows from `r` on, behind those in `acc`.
pub open spec fn snapshot_keys(
    rd: Reading,
    rows: Seq<Seq<Option<Seq<char>>>>,
    places: Seq<int>,
    parts: Seq<Seq<char>>,
    r: int,
    acc: Seq<Seq<u64>>,
) -> Result<Seq<Seq<u64>>, Seq<char>>
    decreases rows.len() - r,
{
    if r >= rows.len() {
        Ok(acc)
    } else {
        match snapshot_key(rd, rows[r], places, parts, 0, Seq::empty()) {
            Err(t) => Err(t),
            Ok(key) => snapshot_keys(rd, rows, places, parts, r + 1, acc.push(key)),
        }
    }
}

/// The table with the scalar columns `names` from `i` on.
pub open spec fn snapshot_scalar_cols(
    rd: Reading,
    cols: Seq<Seq<char>>,
    rows: Seq<Seq<Option<Seq<char>>>>,
    names: Seq<Seq<char>>,
    i: int,
    t: TableView,
) -> Result<TableView, Seq<char>>
    decreases names.len() - i,
{
    if i >= names.len() {
        Ok(t)
    } else {
        match snapshot_column(cols, names[i]) {
            Err(e) => Err(e),
            Ok(k) => match snapshot_scalars(rd, rows, k, names[i], 0, Seq::empty()) {
                Err(e) => Err(e),
                Ok(v) => snapshot_scalar_cols(
                    rd,
                    cols,
                    rows,
                    names,
                    i + 1,
                    t.insert(names[i], ColumnView::Scalar(v)),
                ),
            },
        }
    }
}

/// The table with the label columns `names` from `i` on.
pub open spec fn snapshot_label_cols(
    cols: Seq<Seq<char>>,
    rows: Seq<Seq<Option<Seq<char>>>>,
    names: Seq<Seq<char>>,
    i: int,
    t: TableView,
) -> Result<TableView, Seq<char>>
    decreases names.len() - i,
{
    if i >= names.len() {
        Ok(t)
    } else {
        match snapshot_column(cols, names[i]) {
            Err(e) => Err(e),
            Ok(k) => match snapshot_labels(rows, k, 0, Seq::empty(), Seq::empty()) {
                Err(e) => Err(e),
                Ok((codes, dict)) => snapshot_label_cols(
                    cols,
                    rows,
                    names,
                    i + 1,
                    t.insert(names[i], ColumnView::Dict { codes, dict }),
                ),
            },
        }
    }
}

/// The table of a snapshot: scalar columns, label columns, the key column.
pub open spec fn snapshot_table(
    rd: Reading,
    map: TableMapView,
    cols: Seq<Seq<char>>,
    rows: Seq<Seq<Option<Seq<char>>>>,
) -> Result<TableView, Seq<char>> {
    match snapshot_scalar_cols(rd, cols, rows, map.scalar_cols, 0, Map::empty()) {
        Err(e) => Err(e),
        Ok(t1) => match snapshot_label_cols(cols, rows, map.label_cols, 0, t1) {
            Err(e) => Err(e),
            Ok(t2) => match snapshot_places(cols, map.key_parts, 0, Seq::empty()) {
                Err(e) => Err(e),
                Ok(places) => match snapshot_keys(rd, rows, places, map.key_parts, 0, Seq::empty()) {
                    Err(e) => Err(e),
                    Ok(keys) => Ok(
                        t2.insert(
                            map.key_col,
                            ColumnView::Key { ncols: places.len(), rows: keys },
                        ),
                    ),
                },
            },
        },
    }
}

/// The place of a snapshot column.
fn snapshot_place(names: &[String], c: &str) -> (r: Result<usize, CdcError>)
    ensures
        match snapshot_column(pgoutput::texts(names@), c@) {
            Ok(i) => r matches Ok(x) && x == i,
            Err(t) => error::apply_err(r, t),
        },
{
    match find_column(names, c) {
        Some(i) => Ok(i),
        None => Err(CdcError::Apply(message2("snapshot missing column ", c))),
    }
}

/// The text of cell `i` of a snapshot row.
fn snapshot_cell<'a>(row: &'a Vec<Option<String>>, i: usize) -> (r: Result<&'a str, CdcError>)
    ensures
        match cell_spec(protocol::cells(row@), i as int) {
            Ok(v) => r matches Ok(x) && x@ == v,
            Err(t) => error::apply_err(r, t),
        },
{
    if i < row.len() {
        if let Some(s) = &row[i] {
            return Ok(s.as_str());
        }
    }
    Err(CdcError::Apply(owned("NULL in snapshot (schema forbids)")))
}

/// The scalar column `c` of a snapshot.
fn scalar_column<F: Fn(&str) -> Result<Number, String>>(
    read: &F,
    rows: &[Vec<Option<String>>],
    at: usize,
    c: &str,
) -> (r: Result<Vec<u64>, CdcError>)
    requires
        steady(*read),
    ensures
        match snapshot_scalars(
            reading(*read),
            protocol::rows_view(rows@),
            at as int,
            c@,
            0,
            Seq::empty(),
        ) {
            Ok(v) => (r matches Ok(x) && x@ == v) && v.len() == rows@.len(),
            Err(t) => error::apply_err(r, t),
        },
{
    let mut v: Vec<u64> = Vec::new();
    let mut k: usize = 0;
    while k < rows.len()
        invariant
            steady(*read),
            k <= rows@.len(),
            v@.len() == k,
            snapshot_scalars(reading(*read), protocol::rows_view(rows@), at as int, c@, 0, Seq::empty())
                == snapshot_scalars(
                reading(*read),
                protocol::rows_view(rows@),
                at as int,
                c@,
                k as int,
                v@,
            ),
        decreases rows.len() - k,
    {
        let text = snapshot_cell(&rows[k], at)?;
        let n = parse_number(read, text, c)?;
        v.push(n.bits);
        k += 1;
    }
    Ok(v)
}

/// The label column in cell `at` of a snapshot.
fn label_column(rows: &[Vec<Option<String>>], at: usize) -> (r: Result<
    (Vec<u32>, Vec<String>),
    CdcError,
>)
    ensures
        match snapshot_labels(protocol::rows_view(rows@), at as int, 0, Seq::empty(), Seq::empty()) {
            Ok(v) => (r matches Ok(x) && (x.0@, pgoutput::texts(x.1@)) == v && (forall|i: int|
                0 <= i < x.0@.len() ==> #[trigger] x.0@[i] < x.1@.len())) && v.0.len()
                == rows@.len(),
            Err(t) => error::apply_err(r, t),
        },
{
    let mut codes: Vec<u32> = Vec::new();
    let mut dict: Vec<String> = Vec::new();
    let mut k: usize = 0;
    assert(pgoutput::texts(dict@) =~= Seq::<Seq<char>>::empty());
    while k < rows.len()
        invariant
            k <= rows@.len(),
            codes@.len() == k,
            forall|i: int| 0 <= i < codes@.len() ==> #[trigger] codes@[i] < dict@.len(),
            snapshot_labels(protocol::rows_view(rows@), at as int, 0, Seq::empty(), Seq::empty())
                == snapshot_labels(
                protocol::rows_view(rows@),
                at as int,
                k as int,
                codes@,
                pgoutput::texts(dict@),
            ),
        decreases rows.len() - k,
    {
        let label = snapshot_cell(&rows[k], at)?;
        let code: usize = match find_column(dict.as_slice(), label) {
            Some(j) => j,
            None => {
                let ghost before = pgoutput::texts(dict@);
                dict.push(owned(label));
                assert(pgoutput::texts(dict@) =~= before.push(label@));
                dict.len() - 1
            },
        };
        assert((code as u32) <= code) by (bit_vector);
        codes.push(code as u32);
        k += 1;
    }
    Ok((codes, dict))
}

/// A list of places as mathematical values.
pub open spec fn places_view(v: Seq<usize>) -> Seq<int> {
    Seq::new(v.len(), |i: int| v[i] as int)
}

/// The places of the columns `names`.
fn column_places(cols: &[String], names: &Vec<String>) -> (r: Result<Vec<usize>, CdcError>)
    ensures
        match snapshot_places(pgoutput::texts(cols@), pgoutput::texts(names@), 0, Seq::empty()) {
            Ok(v) => (r matches Ok(x) && places_view(x@) == v) && v.len() == names@.len(),
            Err(t) => error::apply_err(r, t),
        },
{
    let mut v: Vec<usize> = Vec::new();
    let mut i: usize = 0;
    assert(places_view(v@) =~= Seq::<int>::empty());
    while i < names.len()
        invariant
            i <= names@.len(),
            v@.len() == i,
            snapshot_places(pgoutput::texts(cols@), pgoutput::texts(names@), 0, Seq::empty()) == snapshot_places(
                pgoutput::texts(cols@),
                pgoutput::texts(names@),
                i as int,
                places_view(v@),
            ),
        decreases names.len() - i,
    {
        let k: usize = snapshot_place(cols, names[i].as_str())?;
        let ghost before = places_view(v@);
        v.push(k);
        assert(places_view(v@) =~= before.push(k as int));
        i += 1;
    }
    Ok(v)
}

/// The key column of a snapshot, row-major.
fn key_column<F: Fn(&str) -> Result<Number, String>>(
    read: &F,
    rows: &[Vec<Option<String>>],
    places: &Vec<usize>,
    parts: &Vec<String>,
) -> (r: Result<Vec<u64>, CdcError>)
    requires
        steady(*read),
        places@.len() == parts@.len(),
    ensures
        match snapshot_keys(
            reading(*read),
            protocol::rows_view(rows@),
            places_view(places@),
            pgoutput::texts(parts@),
            0,
            Seq::empty(),
        ) {
            Ok(keys) => (r matches Ok(x) && x@.len() == rows@.len() * places@.len() && table::key_rows(
                x@,
                rows@.len(),
                places@.len(),
            ) == keys) && keys.len() == rows@.len(),
            Err(t) => error::apply_err(r, t),
        },
{
    let ghost rd = reading(*read);
    let ghost rv = protocol::rows_view(rows@);
    let ghost pv = places_view(places@);
    let ghost tv = pgoutput::texts(parts@);
    let mut out: Vec<u64> = Vec::new();
    let mut k: usize = 0;
    assert(table::key_rows(out@, 0, places@.len()) =~= Seq::empty());
    assert(0 * places@.len() == 0);
    while k < rows.len()
        invariant
            steady(*read),
            places@.len() == parts@.len(),
            rd == reading(*read),
            rv == protocol::rows_view(rows@),
            pv == places_view(places@),
            tv == pgoutput::texts(parts@),
            k <= rows@.len(),
            out@.len() == k * places@.len(),
            snapshot_keys(rd, rv, pv, tv, 0, Seq::empty()) == snapshot_keys(
                rd,
                rv,
                pv,
                tv,
                k as int,
                table::key_rows(out@, k as nat, places@.len()),
            ),
        decreases rows.len() - k,
    {
        let ghost before = out@;
        let ghost row = Seq::<u64>::empty();
        let mut j: usize = 0;
        assert(out@ =~= before + row);
        while j < places.len()
            invariant
                steady(*read),
                places@.len() == parts@.len(),
                rd == reading(*read),
                rv == protocol::rows_view(rows@),
                pv == places_view(places@),
                tv == pgoutput::texts(parts@),
                k < rows@.len(),
                j <= places@.len(),
                row.len() == j,
                out@ == before + row,
                snapshot_keys(rd, rv, pv, tv, 0, Seq::empty()) == snapshot_keys(
                    rd,
                    rv,
                    pv,
                    tv,
                    k as int,
                    table::key_rows(before, k as nat, places@.len()),
                ),
                snapshot_key(rd, rv[k as int], pv, tv, 0, Seq::empty()) == snapshot_key(
                    rd,
                    rv[k as int],
                    pv,
                    tv,
                    j as int,
                    row,
                ),
            decreases places.len() - j,
        {
            let text = snapshot_cell(&rows[k], places[j])?;
            let n = parse_number(read, text, parts[j].as_str())?;
            out.push(n.bits);
            proof {
                row = row.push(n.bits);
                assert(out@ =~= before + row);
            }
            j += 1;
        }
        proof {
            table::lemma_key_rows_push(before, k as nat, places@.len(), row);
        }
        k += 1;
    }
    Ok(out)
}

impl Mirror {
    /// Build the mirror table from snapshot rows (text values as the wire
    /// delivers them). `read` reads a number from its text.
    pub fn from_snapshot<F: Fn(&str) -> Result<Number, String>>(
        map: TableMap,
        col_names: &[String],
        rows: &[Vec<Option<String>>],
        read: &F,
    ) -> (r: Result<Self, CdcError>)
        requires
            steady(*read),
        ensures
            match snapshot_table(reading(*read), map@, pgoutput::texts(col_names@), protocol::rows_view(rows@)) {
                Ok(t) => r matches Ok(m) && m.wf() && table::table_rows(t, rows@.len()) && m@ == (
                MirrorView { table: t, map: map@, rows_applied: 0, txs_applied: 0, last_lsn: 0 }),
                Err(t) => error::apply_err(r, t),
            },
    {
        let ghost rd = reading(*read);
        let ghost cv = pgoutput::texts(col_names@);
        let ghost rv = protocol::rows_view(rows@);
        let mut table = Table::new();
        let mut i: usize = 0;
        while i < map.scalar_cols.len()
            invariant
                steady(*read),
                rd == reading(*read),
                cv == pgoutput::texts(col_names@),
                rv == protocol::rows_view(rows@),
                i <= map.scalar_cols@.len(),
                table.wf(),
                table::table_rows(table@, rows@.len()),
                snapshot_scalar_cols(rd, cv, rv, map@.scalar_cols, 0, Map::empty())
                    == snapshot_scalar_cols(
                    rd,
                    cv,
                    rv,
                    map@.scalar_cols,
                    i as int,
                    table@,
                ),
            decreases map.scalar_cols.len() - i,
        {
            let at: usize = snapshot_place(col_names, map.scalar_cols[i].as_str())?;
            let v = scalar_column(read, rows, at, map.scalar_cols[i].as_str())?;
            table.insert(map.scalar_cols[i].clone(), Column::ScalarF64(v));
            i += 1;
        }
        let ghost t1 = table@;
        let mut i: usize = 0;
        while i < map.label_cols.len()
            invariant
                cv == pgoutput::texts(col_names@),
                rv == protocol::rows_view(rows@),
                i <= map.label_cols@.len(),
                table.wf(),
                table::table_rows(table@, rows@.len()),
                snapshot_scalar_cols(rd, cv, rv, map@.scalar_cols, 0, Map::empty()) == Ok::<
                    TableView,
                    Seq<char>,
                >(t1),
                rd == reading(*read),
                snapshot_label_cols(cv, rv, map@.label_cols, 0, t1) == snapshot_label_cols(
                    cv,
                    rv,
                    map@.label_cols,
                    i as int,
                    table@,
                ),
            decreases map.label_cols.len() - i,
        {
            let at: usize = snapshot_place(col_names, map.label_cols[i].as_str())?;
            let (codes, dict) = label_column(rows, at)?;
            table.insert(map.label_cols[i].clone(), Column::DictU32 { codes, dict });
            i += 1;
        }
        let places = column_places(col_names, &map.key_parts)?;
        let cells = key_column(read, rows, &places, &map.key_parts)?;
        table.insert(
            map.key_col.clone(),
            Column::KeyF64 { nrows: rows.len(), ncols: places.len(), cells },
        );
        let m = Mirror { table, map, rows_applied: 0, txs_applied: 0, last_lsn: 0 };
        proof {
            assert(table::table_rows(m@.table, rows@.len()));
            assert(aligned(m@.table));
        }
        Ok(m)
    }
}

// --------------------------------------------------------------------- laws

/// A transaction at or below the watermark is skipped: the mirror stays as
/// it is and no row counts as applied.
pub proof fn replayed_transaction_is_skipped(rd: Reading, m: MirrorView, tx: TxView)
    requires
        tx.end_lsn <= m.last_lsn,
    ensures
        tx_effect(rd, m, tx) == (m, Ok::<nat, Seq<char>>(0)),
{
}

/// None or all of a transaction: one that fails leaves the mirror as it was,
/// and one that applies moves the watermark to its end.
pub proof fn failed_transaction_changes_nothing(rd: Reading, m: MirrorView, tx: TxView)
    ensures
        tx_effect(rd, m, tx).1 is Err ==> tx_effect(rd, m, tx).0 == m,
        tx_effect(rd, m, tx).1 is Ok && tx.end_lsn > m.last_lsn ==> tx_effect(rd, m, tx).0.last_lsn
            == tx.end_lsn && tx_effect(rd, m, tx).0.table == changes_effect(
            rd,
            m.map,
            m.table,
            tx.changes,
            0,
            0,
        ).0,
{
}

/// The watermark never moves back, and a transaction that was applied is
/// at or below it.
pub proof fn watermark_never_moves_back(rd: Reading, m: MirrorView, tx: TxView)
    ensures
        tx_effect(rd, m, tx).0.last_lsn >= m.last_lsn,
        tx_effect(rd, m, tx).1 is Ok ==> tx_effect(rd, m, tx).0.last_lsn >= tx.end_lsn,
{
}

/// The mirror after a run of transactions, one after the other.
pub open spec fn txs_run(rd: Reading, m: MirrorView, txs: Seq<TxView>) -> MirrorView
    decreases txs.len(),
{
    if txs.len() == 0 {
        m
    } else {
        tx_effect(rd, txs_run(rd, m, txs.drop_last()), txs.last()).0
    }
}

/// Every transaction of the run applies (or is skipped).
pub open spec fn txs_succeed(rd: Reading, m: MirrorView, txs: Seq<TxView>) -> bool
    decreases txs.len(),
{
    txs.len() == 0 || (txs_succeed(rd, m, txs.drop_last()) && tx_effect(
        rd,
        txs_run(rd, m, txs.drop_last()),
        txs.last(),
    ).1 is Ok)
}

proof fn lemma_run_watermark(rd: Reading, m: MirrorView, txs: Seq<TxView>)
    requires
        txs_succeed(rd, m, txs),
    ensures
        txs_run(rd, m, txs).last_lsn >= m.last_lsn,
        forall|i: int| 0 <= i < txs.len() ==> (#[trigger] txs[i]).end_lsn <= txs_run(rd, m, txs).last_lsn,
    decreases txs.len(),
{
    if txs.len() > 0 {
        lemma_run_watermark(rd, m, txs.drop_last());
        let before = txs_run(rd, m, txs.drop_last());
        watermark_never_moves_back(rd, before, txs.last());
        assert forall|i: int| 0 <= i < txs.len() implies (#[trigger] txs[i]).end_lsn <= txs_run(
            rd,
            m,
            txs,
        ).last_lsn by {
            if i < txs.len() - 1 {
                assert(txs.drop_last()[i] == txs[i]);
            }
        }
    }
}

/// Exactly once across a resume: whatever transactions of the run the
/// stream delivers again, in whatever order, the mirror stays as it is.
pub proof fn redelivery_changes_nothing(
    rd: Reading,
    m: MirrorView,
    txs: Seq<TxView>,
    again: Seq<TxView>,
)
    requires
        txs_succeed(rd, m, txs),
        forall|i: int| 0 <= i < again.len() ==> txs.contains(#[trigger] again[i]),
    ensures
        txs_run(rd, txs_run(rd, m, txs), again) == txs_run(rd, m, txs),
        txs_succeed(rd, txs_run(rd, m, txs), again),
    decreases again.len(),
{
    lemma_run_watermark(rd, m, txs);
    if again.len() > 0 {
        assert forall|i: int| 0 <= i < again.drop_last().len() implies txs.contains(
            #[trigger] again.drop_last()[i],
        ) by {
            assert(again.drop_last()[i] == again[i]);
        }
        redelivery_changes_nothing(rd, m, txs, again.drop_last());
        assert(again.last() == again[again.len() - 1]);
        let k = choose|k: int| 0 <= k < txs.len() && txs[k] == again.last();
        assert(txs[k].end_lsn <= txs_run(rd, m, txs).last_lsn);
    }
}

/// Changes of other relations leave the table alone and do not count.
pub proof fn other_relations_are_skipped(rd: Reading, map: TableMapView, t: TableView, c: ChangeView)
    requires
        match c {
            ChangeView::Insert(rel, _) => rel != map.table,
            ChangeView::Delete(rel, _) => rel != map.table,
            ChangeView::Update(rel, _, _) => rel != map.table,
        },
    ensures
        change_effect(rd, map, t, c) == (t, Ok::<bool, Seq<char>>(false)),
{
}

/// An applied insert adds one row, an applied delete removes one, an
/// applied update keeps the number of rows.
pub proof fn applied_change_row_count(
    rd: Reading,
    map: TableMapView,
    t: TableView,
    c: ChangeView,
    n: nat,
)
    requires
        table::table_rows(t, n),
        change_effect(rd, map, t, c).1 == Ok::<bool, Seq<char>>(true),
    ensures
        match c {
            ChangeView::Insert(..) => table::table_rows(change_effect(rd, map, t, c).0, n + 1),
            ChangeView::Delete(..) => n > 0 && table::table_rows(
                change_effect(rd, map, t, c).0,
                (n - 1) as nat,
            ),
            ChangeView::Update(..) => table::table_rows(change_effect(rd, map, t, c).0, n),
        },
{
    match c {
        ChangeView::Insert(_, cols) => {
            table::lemma_table_pushed_rows(t, row_spec(rd, map, cols, Resolve::Nowhere)->Ok_0, n);
        },
        ChangeView::Delete(_, cols) => {
            let text = lookup_spec(cols, map.pk)->Ok_0;
            let key = number_spec(rd, text, map.pk)->Ok_0;
            let v = table::scalar_of(t, map.pk)->0;
            assert(t.contains_key(map.pk));
            table::lemma_without_rows(t, v, key.0);
        },
        ChangeView::Update(_, before, after) => {
            let text = update_key_spec(map, before, after)->Ok_0;
            let key = number_spec(rd, text, map.pk)->Ok_0;
            let row = updated_row_spec(rd, map, t, key, after)->Ok_0;
            let v = table::scalar_of(t, map.pk)->0;
            assert(t.contains_key(map.pk));
            table::lemma_without_rows(t, v, key.0);
            let t2 = table::table_without(t, v, key.0);
            table::lemma_table_pushed_rows(t2, row, (n - 1) as nat);
        },
    }
}

/// The table's columns are those of the map, each of its kind.
pub open spec fn conforms(map: TableMapView, t: TableView) -> bool {
    forall|name: Seq<char>| #[trigger]
        t.contains_key(name) ==> match t[name] {
            ColumnView::Scalar(_) => map.scalar_cols.contains(name),
            ColumnView::Dict { .. } => map.label_cols.contains(name),
            ColumnView::Key { ncols, .. } => name == map.key_col && ncols == map.key_parts.len(),
        }
}

/// Every column of the map is there.
pub open spec fn complete(map: TableMapView, t: TableView) -> bool {
    &&& forall|i: int| 0 <= i < map.scalar_cols.len() ==> t.contains_key(#[trigger] map.scalar_cols[i])
    &&& forall|i: int| 0 <= i < map.label_cols.len() ==> t.contains_key(#[trigger] map.label_cols[i])
    &&& t.contains_key(map.key_col)
}

/// No primary key occurs twice.
pub open spec fn unique_keys(map: TableMapView, t: TableView) -> bool {
    table::scalar_of(t, map.pk) matches Some(v) ==> forall|key: u64| #[trigger] table::matches(v, key) <= 1
}

proof fn lemma_scalars_has(
    rd: Reading,
    cols: Seq<(Seq<char>, DatumView)>,
    names: Seq<Seq<char>>,
    i: int,
    res: Resolve,
    acc: Map<Seq<char>, u64>,
    name: Seq<char>,
)
    requires
        0 <= i <= names.len(),
        scalars_from(rd, cols, names, i, res, acc) is Ok,
        acc.contains_key(name) || names.skip(i).contains(name),
    ensures
        scalars_from(rd, cols, names, i, res, acc)->Ok_0.contains_key(name),
    decreases names.len() - i,
{
    if i < names.len() {
        let x = scalar_cell(rd, cols, names[i], res)->Ok_0;
        if !acc.insert(names[i], x).contains_key(name) {
            let k = choose|k: int| 0 <= k < names.skip(i).len() && names.skip(i)[k] == name;
            assert(k > 0);
            assert(names.skip(i + 1)[k - 1] == name);
        }
        lemma_scalars_has(rd, cols, names, i + 1, res, acc.insert(names[i], x), name);
    }
}

proof fn lemma_labels_has(
    cols: Seq<(Seq<char>, DatumView)>,
    names: Seq<Seq<char>>,
    i: int,
    res: Resolve,
    acc: Map<Seq<char>, Seq<char>>,
    name: Seq<char>,
)
    requires
        0 <= i <= names.len(),
        labels_from(cols, names, i, res, acc) is Ok,
        acc.contains_key(name) || names.skip(i).contains(name),
    ensures
        labels_from(cols, names, i, res, acc)->Ok_0.contains_key(name),
    decreases names.len() - i,
{
    if i < names.len() {
        let x = label_cell(cols, names[i], res)->Ok_0;
        if !acc.insert(names[i], x).contains_key(name) {
            let k = choose|k: int| 0 <= k < names.skip(i).len() && names.skip(i)[k] == name;
            assert(k > 0);
            assert(names.skip(i + 1)[k - 1] == name);
        }
        lemma_labels_has(cols, names, i + 1, res, acc.insert(names[i], x), name);
    }
}

proof fn lemma_key_len(
    rd: Reading,
    cols: Seq<(Seq<char>, DatumView)>,
    parts: Seq<Seq<char>>,
    i: int,
    res: Resolve,
    acc: Seq<u64>,
)
    requires
        0 <= i <= parts.len(),
        key_from(rd, cols, parts, i, res, acc) is Ok,
    ensures
        key_from(rd, cols, parts, i, res, acc)->Ok_0.len() == acc.len() + parts.len() - i,
    decreases parts.len() - i,
{
    if i < parts.len() {
        let x = scalar_cell(rd, cols, parts[i], res)->Ok_0;
        lemma_key_len(rd, cols, parts, i + 1, res, acc.push(x));
    }
}

proof fn lemma_scalar_cols_conform(
    rd: Reading,
    map: TableMapView,
    cols: Seq<Seq<char>>,
    rows: Seq<Seq<Option<Seq<char>>>>,
    i: int,
    t: TableView,
)
    requires
        0 <= i <= map.scalar_cols.len(),
        conforms(map, t),
        snapshot_scalar_cols(rd, cols, rows, map.scalar_cols, i, t) is Ok,
    ensures
        conforms(map, snapshot_scalar_cols(rd, cols, rows, map.scalar_cols, i, t)->Ok_0),
        t.dom().subset_of(
            snapshot_scalar_cols(rd, cols, rows, map.scalar_cols, i, t)->Ok_0.dom(),
        ),
        forall|j: int|
            i <= j < map.scalar_cols.len() ==> snapshot_scalar_cols(
                rd,
                cols,
                rows,
                map.scalar_cols,
                i,
                t,
            )->Ok_0.contains_key(#[trigger] map.scalar_cols[j]),
    decreases map.scalar_cols.len() - i,
{
    if i < map.scalar_cols.len() {
        let c = map.scalar_cols[i];
        let k = snapshot_column(cols, c)->Ok_0;
        let v = snapshot_scalars(rd, rows, k, c, 0, Seq::empty())->Ok_0;
        assert(map.scalar_cols.contains(c));
        let next = t.insert(c, ColumnView::Scalar(v));
        lemma_scalar_cols_conform(rd, map, cols, rows, i + 1, next);
        assert(next.dom().contains(c));
    }
}

proof fn lemma_label_cols_conform(
    map: TableMapView,
    cols: Seq<Seq<char>>,
    rows: Seq<Seq<Option<Seq<char>>>>,
    i: int,
    t: TableView,
)
    requires
        0 <= i <= map.label_cols.len(),
        conforms(map, t),
        snapshot_label_cols(cols, rows, map.label_cols, i, t) is Ok,
    ensures
        conforms(map, snapshot_label_cols(cols, rows, map.label_cols, i, t)->Ok_0),
        t.dom().subset_of(snapshot_label_cols(cols, rows, map.label_cols, i, t)->Ok_0.dom()),
        forall|j: int|
            i <= j < map.label_cols.len() ==> snapshot_label_cols(
                cols,
                rows,
                map.label_cols,
                i,
                t,
            )->Ok_0.contains_key(#[trigger] map.label_cols[j]),
    decreases map.label_cols.len() - i,
{
    if i < map.label_cols.len() {
        let c = map.label_cols[i];
        let k = snapshot_column(cols, c)->Ok_0;
        let (codes, dict) = snapshot_labels(rows, k, 0, Seq::empty(), Seq::empty())->Ok_0;
        assert(map.label_cols.contains(c));
        let next = t.insert(c, ColumnView::Dict { codes, dict });
        lemma_label_cols_conform(map, cols, rows, i + 1, next);
        assert(next.dom().contains(c));
    }
}

proof fn lemma_places_len(cols: Seq<Seq<char>>, names: Seq<Seq<char>>, i: int, acc: Seq<int>)
    requires
        0 <= i <= names.len(),
        snapshot_places(cols, names, i, acc) is Ok,
    ensures
        snapshot_places(cols, names, i, acc)->Ok_0.len() == acc.len() + names.len() - i,
    decreases names.len() - i,
{
    if i < names.len() {
        let k = snapshot_column(cols, names[i])->Ok_0;
        lemma_places_len(cols, names, i + 1, acc.push(k));
    }
}

/// A snapshot's table has exactly the columns of its map, each of its kind.
pub proof fn snapshot_conforms(
    rd: Reading,
    map: TableMapView,
    cols: Seq<Seq<char>>,
    rows: Seq<Seq<Option<Seq<char>>>>,
)
    requires
        snapshot_table(rd, map, cols, rows) is Ok,
    ensures
        conforms(map, snapshot_table(rd, map, cols, rows)->Ok_0),
        complete(map, snapshot_table(rd, map, cols, rows)->Ok_0),
{
    lemma_scalar_cols_conform(rd, map, cols, rows, 0, Map::empty());
    let t1 = snapshot_scalar_cols(rd, cols, rows, map.scalar_cols, 0, Map::empty())->Ok_0;
    lemma_label_cols_conform(map, cols, rows, 0, t1);
    lemma_places_len(cols, map.key_parts, 0, Seq::empty());
    let t2 = snapshot_label_cols(cols, rows, map.label_cols, 0, t1)->Ok_0;
    assert forall|i: int| 0 <= i < map.scalar_cols.len() implies t2.contains_key(
        #[trigger] map.scalar_cols[i],
    ) by {
        assert(t1.dom().contains(map.scalar_cols[i]));
    }
}

/// A row change, applied or refused, keeps the table's columns: none is
/// lost, none added, and each stays of its kind.
pub proof fn changes_keep_conforming(rd: Reading, map: TableMapView, t: TableView, c: ChangeView)
    requires
        conforms(map, t),
    ensures
        conforms(map, change_effect(rd, map, t, c).0),
        change_effect(rd, map, t, c).0.dom() == t.dom(),
{
}

/// A row that a tuple describes fits every table of the map.
pub proof fn described_row_fits(
    rd: Reading,
    map: TableMapView,
    t: TableView,
    cols: Seq<(Seq<char>, DatumView)>,
    res: Resolve,
)
    requires
        conforms(map, t),
        row_spec(rd, map, cols, res) is Ok,
    ensures
        table::row_fits(t, row_spec(rd, map, cols, res)->Ok_0),
{
    let row = row_spec(rd, map, cols, res)->Ok_0;
    lemma_key_len(rd, cols, map.key_parts, 0, res, Seq::empty());
    assert forall|name: Seq<char>| #[trigger] t.contains_key(name) implies table::column_fits(
        name,
        t[name],
        row,
    ) by {
        match t[name] {
            ColumnView::Scalar(_) => {
                assert(map.scalar_cols.skip(0) =~= map.scalar_cols);
                lemma_scalars_has(rd, cols, map.scalar_cols, 0, res, Map::empty(), name);
            },
            ColumnView::Dict { .. } => {
                assert(map.label_cols.skip(0) =~= map.label_cols);
                lemma_labels_has(cols, map.label_cols, 0, res, Map::empty(), name);
            },
            ColumnView::Key { .. } => {},
        }
    }
}

/// A mask of marks alone keeps everything.
pub proof fn lemma_kept_all<T>(s: Seq<T>, mask: Seq<bool>)
    requires
        s.len() == mask.len(),
        forall|i: int| 0 <= i < mask.len() ==> #[trigger] mask[i],
    ensures
        table::kept(s, mask) == s,
    decreases s.len(),
{
    if s.len() > 0 {
        assert forall|i: int| 0 <= i < mask.drop_last().len() implies #[trigger] mask.drop_last()[i] by {
            assert(mask.drop_last()[i] == mask[i]);
        }
        lemma_kept_all(s.drop_last(), mask.drop_last());
        assert(mask.last() == mask[mask.len() - 1]);
        assert(table::kept(s, mask) =~= s);
    } else {
        assert(table::kept(s, mask) =~= s);
    }
}

/// Where none match, each differs.
pub proof fn lemma_no_match(v: Seq<u64>, key: u64)
    requires
        table::matches(v, key) == 0,
    ensures
        forall|i: int| 0 <= i < v.len() ==> !bits::num_eq(#[trigger] v[i], key),
    decreases v.len(),
{
    if v.len() > 0 {
        lemma_no_match(v.drop_last(), key);
        assert forall|i: int| 0 <= i < v.len() implies !bits::num_eq(#[trigger] v[i], key) by {
            if i < v.len() - 1 {
                assert(v.drop_last()[i] == v[i]);
            }
        }
    }
}

proof fn lemma_without_none(t: TableView, v: Seq<u64>, key: u64)
    requires
        table::table_rows(t, v.len()),
        table::matches(v, key) == 0,
    ensures
        table::table_without(t, v, key) == t,
{
    lemma_no_match(v, key);
    let mask = table::mask_without(v, key);
    assert forall|i: int| 0 <= i < mask.len() implies #[trigger] mask[i] by {
        assert(!bits::num_eq(v[i], key));
    }
    let t2 = table::table_kept(t, mask);
    assert(t2.dom() =~= t.dom());
    assert forall|name: Seq<char>| t.dom().contains(name) implies t2[name] == t[name] by {
        assert(t.contains_key(name));
        match t[name] {
            ColumnView::Scalar(x) => lemma_kept_all(x, mask),
            ColumnView::Dict { codes, .. } => lemma_kept_all(codes, mask),
            ColumnView::Key { rows, .. } => lemma_kept_all(rows, mask),
        }
    }
    assert(t2 =~= t);
}

/// A change that is refused leaves the table exactly as it was, as long as
/// the table's columns are those of the map and no key occurs twice.
pub proof fn refused_change_changes_nothing(
    rd: Reading,
    map: TableMapView,
    t: TableView,
    c: ChangeView,
)
    requires
        aligned(t),
        conforms(map, t),
        unique_keys(map, t),
        change_effect(rd, map, t, c).1 is Err,
    ensures
        change_effect(rd, map, t, c).0 == t,
{
    let n = choose|n: nat| table::table_rows(t, n);
    match c {
        ChangeView::Insert(..) => {},
        ChangeView::Delete(rel, cols) => {
            if rel == map.table && lookup_spec(cols, map.pk) is Ok {
                let text = lookup_spec(cols, map.pk)->Ok_0;
                if number_spec(rd, text, map.pk) is Ok && table::scalar_of(t, map.pk) is Some {
                    let key = number_spec(rd, text, map.pk)->Ok_0;
                    let v = table::scalar_of(t, map.pk)->0;
                    assert(t.contains_key(map.pk));
                    assert(table::matches(v, key.0) <= 1);
                    lemma_without_none(t, v, key.0);
                }
            }
        },
        ChangeView::Update(rel, before, after) => {
            if rel == map.table && update_key_spec(map, before, after) is Ok {
                let text = update_key_spec(map, before, after)->Ok_0;
                if number_spec(rd, text, map.pk) is Ok && table::scalar_of(t, map.pk) is Some {
                    let key = number_spec(rd, text, map.pk)->Ok_0;
                    if updated_row_spec(rd, map, t, key, after) is Ok {
                        let v = table::scalar_of(t, map.pk)->0;
                        assert(t.contains_key(map.pk));
                        assert(table::matches(v, key.0) <= 1);
                        if table::matches(v, key.0) == 0 {
                            lemma_without_none(t, v, key.0);
                        } else {
                            let t2 = table::table_without(t, v, key.0);
                            assert(conforms(map, t2));
                            let res = if has_unchanged(after) {
                                Resolve::Row(t, find_row_spec(t, map.pk, key)->Ok_0)
                            } else {
                                Resolve::Nowhere
                            };
                            described_row_fits(rd, map, t2, after, res);
                        }
                    }
                }
            }
        },
    }
}

/// The last value of each label.
pub open spec fn labelled(labels: Seq<Seq<char>>, values: Seq<u64>, n: nat) -> Map<Seq<char>, u64>
    decreases n,
{
    if n == 0 {
        Map::empty()
    } else {
        labelled(labels, values, (n - 1) as nat).insert(labels[n - 1], values[n - 1])
    }
}

/// Result of one query, as label -> value, for comparisons. Labels or
/// values beyond the shorter of the two lists are left out.
pub fn result_map(labels: &[String], values: &[u64]) -> (r: Vec<(String, u64)>)
    ensures
        named::distinct_names(r@),
        named::assoc(r@) == labelled(
            pgoutput::texts(labels@),
            values@,
            if labels@.len() < values@.len() {
                labels@.len()
            } else {
                values@.len()
            },
        ),
{
    let n: usize = if labels.len() < values.len() {
        labels.len()
    } else {
        values.len()
    };
    let mut r: Vec<(String, u64)> = Vec::new();
    let mut i: usize = 0;
    while i < n
        invariant
            i <= n,
            n <= labels@.len(),
            n <= values@.len(),
            named::distinct_names(r@),
            named::assoc(r@) == labelled(pgoutput::texts(labels@), values@, i as nat),
        decreases n - i,
    {
        let ghost before = named::assoc(r@);
        if let Some(k) = named::place_of(&r, labels[i].as_str()) {
            proof {
                named::lemma_assoc_remove(r@, k as int);
            }
            r.remove(k);
        }
        let ghost rest = r@;
        proof {
            assert(!named::assoc(rest).contains_key(labels@[i as int]@));
            assert forall|j: int| 0 <= j < rest.len() implies (#[trigger] rest[j]).0@
                != labels@[i as int]@ by {
                named::lemma_assoc_has(rest, j);
            }
        }
        r.push((labels[i].clone(), values[i]));
        proof {
            assert(r@.drop_last() =~= rest);
            assert(named::assoc(r@) =~= before.insert(labels@[i as int]@, values@[i as int]));
        }
        i += 1;
    }
    r
}

/// Each label stands for the value that was listed with it last, and only
/// labels that were listed do.
pub proof fn labels_stand_for_their_last_value(
    labels: Seq<Seq<char>>,
    values: Seq<u64>,
    n: nat,
    i: int,
)
    requires
        n <= labels.len(),
        n <= values.len(),
        0 <= i < n,
        forall|j: int| i < j < n ==> #[trigger] labels[j] != labels[i],
    ensures
        labelled(labels, values, n).contains_key(labels[i]),
        labelled(labels, values, n)[labels[i]] == values[i],
        forall|l: Seq<char>| #[trigger]
            labelled(labels, values, n).contains_key(l) ==> labels.take(n as int).contains(l),
    decreases n,
{
    let m = (n - 1) as nat;
    if i < m {
        assert(labels[m as int] != labels[i]);
        labels_stand_for_their_last_value(labels, values, m, i);
    }
    lemma_labelled(labels, values, n);
}

proof fn lemma_labelled(labels: Seq<Seq<char>>, values: Seq<u64>, n: nat)
    requires
        n <= labels.len(),
    ensures
        forall|l: Seq<char>| #[trigger]
            labelled(labels, values, n).contains_key(l) ==> labels.take(n as int).contains(l),
    decreases n,
{
    if n > 0 {
        let m = (n - 1) as nat;
        lemma_labelled(labels, values, m);
        assert forall|l: Seq<char>| #[trigger] labelled(labels, values, n).contains_key(l) implies labels.take(
            n as int,
        ).contains(l) by {
            if l == labels[m as int] {
                assert(labels.take(n as int)[m as int] == l);
            } else {
                assert(labelled(labels, values, m).contains_key(l));
                let t = choose|t: int| 0 <= t < m && labels.take(m as int)[t] == l;
                assert(labels.take(n as int)[t] == l);
            }
        }
    }
}

} // verus!

//! The mirror's columnar table: scalar columns, dictionary-encoded label
//! columns and key-vector columns, all of one length. Scalars are
//! double-precision values held as their bit patterns.

use vstd::prelude::*;

use crate::bits;
use crate::bits::eq;
use crate::error::{CdcError, CdcErrorView};
use crate::fold::copied;
use crate::named;
use crate::named::assoc_get;
use crate::pgoutput;
use crate::source::find_column;
use crate::text::{owned, same_text};

verus! {

/// One column of a table.
#[derive(Debug)]
pub enum Column {
    /// One number per row.
    ScalarF64(Vec<u64>),
    /// One label per row, as an index into the dictionary.
    DictU32 {
        /// Index into `dict`, per row.
        codes: Vec<u32>,
        /// The labels, in order of first appearance.
        dict: Vec<String>,
    },
    /// One vector of `ncols` numbers per row, row after row.
    KeyF64 {
        /// Number of rows.
        nrows: usize,
        /// Numbers per row.
        ncols: usize,
        /// The numbers, row-major.
        cells: Vec<u64>,
    },
}

/// A column as a mathematical value.
pub enum ColumnView {
    Scalar(Seq<u64>),
    Dict { codes: Seq<u32>, dict: Seq<Seq<char>> },
    Key { ncols: nat, rows: Seq<Seq<u64>> },
}

/// The rows of a row-major array.
pub open spec fn key_rows(cells: Seq<u64>, nrows: nat, ncols: nat) -> Seq<Seq<u64>> {
    Seq::new(nrows, |i: int| cells.subrange(i * ncols, i * ncols + ncols))
}

impl View for Column {
    type V = ColumnView;

    open spec fn view(&self) -> ColumnView {
        match self {
            Column::ScalarF64(v) => ColumnView::Scalar(v@),
            Column::DictU32 { codes, dict } => ColumnView::Dict {
                codes: codes@,
                dict: pgoutput::texts(dict@),
            },
            Column::KeyF64 { nrows, ncols, cells } => ColumnView::Key {
                ncols: *ncols as nat,
                rows: key_rows(cells@, *nrows as nat, *ncols as nat),
            },
        }
    }
}

impl Column {
    /// The stored parts fit together: every code names a label, and a key
    /// column holds all its cells.
    pub open spec fn sound(self) -> bool {
        match self {
            Column::ScalarF64(_) => true,
            Column::DictU32 { codes, dict } => forall|i: int|
                0 <= i < codes@.len() ==> #[trigger] codes@[i] < dict@.len(),
            Column::KeyF64 { nrows, ncols, cells } => cells@.len() == nrows * ncols,
        }
    }

    /// Another column of the same contents.
    fn copy(&self) -> (c: Column)
        ensures
            c@ == self@,
            self.sound() ==> c.sound(),
    {
        match self {
            Column::ScalarF64(v) => Column::ScalarF64(copied(v.as_slice())),
            Column::DictU32 { codes, dict } => {
                let c: Vec<u32> = codes.clone();
                assert(c@ =~= codes@);
                Column::DictU32 { codes: c, dict: copied_texts(dict) }
            },
            Column::KeyF64 { nrows, ncols, cells } => Column::KeyF64 {
                nrows: *nrows,
                ncols: *ncols,
                cells: copied(cells.as_slice()),
            },
        }
    }

    /// Number of rows.
    pub fn len(&self) -> (n: usize)
        ensures
            n == column_len(self@),
    {
        match self {
            Column::ScalarF64(v) => v.len(),
            Column::DictU32 { codes, .. } => codes.len(),
            Column::KeyF64 { nrows, .. } => *nrows,
        }
    }
}

fn copied_texts(v: &Vec<String>) -> (r: Vec<String>)
    ensures
        r@.len() == v@.len(),
        pgoutput::texts(r@) == pgoutput::texts(v@),
{
    let mut r: Vec<String> = Vec::new();
    let mut i: usize = 0;
    while i < v.len()
        invariant
            i <= v@.len(),
            r@.len() == i,
            forall|j: int| 0 <= j < i ==> (#[trigger] r@[j])@ == v@[j]@,
        decreases v.len() - i,
    {
        r.push(owned(v[i].as_str()));
        i += 1;
    }
    assert(pgoutput::texts(r@) =~= pgoutput::texts(v@));
    r
}

/// Number of rows of a column.
pub open spec fn column_len(c: ColumnView) -> nat {
    match c {
        ColumnView::Scalar(v) => v.len(),
        ColumnView::Dict { codes, .. } => codes.len(),
        ColumnView::Key { rows, .. } => rows.len(),
    }
}

/// The elements whose place in `mask` is marked.
pub open spec fn kept<T>(s: Seq<T>, mask: Seq<bool>) -> Seq<T>
    decreases s.len(),
{
    if s.len() == 0 {
        Seq::empty()
    } else {
        let r = kept(s.drop_last(), mask.drop_last());
        if mask.last() {
            r.push(s.last())
        } else {
            r
        }
    }
}

/// A column without the rows whose place in `mask` is not marked.
pub open spec fn column_kept(c: ColumnView, mask: Seq<bool>) -> ColumnView {
    match c {
        ColumnView::Scalar(v) => ColumnView::Scalar(kept(v, mask)),
        ColumnView::Dict { codes, dict } => ColumnView::Dict { codes: kept(codes, mask), dict },
        ColumnView::Key { ncols, rows } => ColumnView::Key { ncols, rows: kept(rows, mask) },
    }
}

/// The values of one row, by column name.
pub struct RowView {
    pub scalars: Map<Seq<char>, u64>,
    pub labels: Map<Seq<char>, Seq<char>>,
    pub keys: Map<Seq<char>, Seq<u64>>,
}

/// The dictionary with `label` in it, and the label's code.
pub open spec fn dict_code(dict: Seq<Seq<char>>, label: Seq<char>) -> (Seq<Seq<char>>, int) {
    match crate::source::column_at(dict, label, 0) {
        Some(k) => (dict, k),
        None => (dict.push(label), dict.len() as int),
    }
}

/// The row has a value for this column, of the right kind and width.
pub open spec fn column_fits(name: Seq<char>, c: ColumnView, row: RowView) -> bool {
    match c {
        ColumnView::Scalar(_) => row.scalars.contains_key(name),
        ColumnView::Dict { .. } => row.labels.contains_key(name),
        ColumnView::Key { ncols, .. } => row.keys.contains_key(name) && row.keys[name].len()
            == ncols,
    }
}

/// A column with the row's value behind its own.
pub open spec fn column_pushed(name: Seq<char>, c: ColumnView, row: RowView) -> ColumnView {
    match c {
        ColumnView::Scalar(v) => ColumnView::Scalar(v.push(row.scalars[name])),
        ColumnView::Dict { codes, dict } => {
            let (d, k) = dict_code(dict, row.labels[name]);
            ColumnView::Dict { codes: codes.push(k as u32), dict: d }
        },
        ColumnView::Key { ncols, rows } => ColumnView::Key {
            ncols,
            rows: rows.push(row.keys[name]),
        },
    }
}

pub type TableView = Map<Seq<char>, ColumnView>;

/// A table without the rows whose place in `mask` is not marked.
pub open spec fn table_kept(t: TableView, mask: Seq<bool>) -> TableView {
    t.map_values(|c: ColumnView| column_kept(c, mask))
}

/// A table with one row more.
pub open spec fn table_pushed(t: TableView, row: RowView) -> TableView {
    Map::new(|n: Seq<char>| t.contains_key(n), |n: Seq<char>| column_pushed(n, t[n], row))
}

/// The row has a fitting value for every column of the table.
pub open spec fn row_fits(t: TableView, row: RowView) -> bool {
    forall|n: Seq<char>| #[trigger] t.contains_key(n) ==> column_fits(n, t[n], row)
}

/// How many places are marked.
pub open spec fn marked(mask: Seq<bool>) -> nat
    decreases mask.len(),
{
    if mask.len() == 0 {
        0
    } else {
        marked(mask.drop_last()) + if mask.last() {
            1nat
        } else {
            0
        }
    }
}

/// As many elements are kept as places are marked.
pub proof fn lemma_kept_len<T>(s: Seq<T>, mask: Seq<bool>)
    requires
        s.len() == mask.len(),
    ensures
        kept(s, mask).len() == marked(mask) <= s.len(),
    decreases s.len(),
{
    if s.len() > 0 {
        lemma_kept_len(s.drop_last(), mask.drop_last());
    }
}

/// Dropping the same rows from every column keeps the columns aligned.
pub proof fn lemma_table_kept_rows(t: TableView, mask: Seq<bool>)
    requires
        table_rows(t, mask.len()),
    ensures
        table_rows(table_kept(t, mask), marked(mask)),
        marked(mask) <= mask.len(),
{
    lemma_kept_len(mask, mask);
    assert forall|name: Seq<char>| #[trigger] table_kept(t, mask).contains_key(name) implies
        column_len(table_kept(t, mask)[name]) == marked(mask) by {
        assert(t.contains_key(name));
        match t[name] {
            ColumnView::Scalar(v) => lemma_kept_len(v, mask),
            ColumnView::Dict { codes, .. } => lemma_kept_len(codes, mask),
            ColumnView::Key { rows, .. } => lemma_kept_len(rows, mask),
        }
    }
}

/// Appending a row makes every column one longer.
pub proof fn lemma_table_pushed_rows(t: TableView, row: RowView, n: nat)
    requires
        table_rows(t, n),
    ensures
        table_rows(table_pushed(t, row), n + 1),
{
}

/// Dropping the rows with a key removes as many as match it.
pub proof fn lemma_without_rows(t: TableView, v: Seq<u64>, key: u64)
    requires
        table_rows(t, v.len()),
    ensures
        matches(v, key) <= v.len(),
        table_rows(table_without(t, v, key), (v.len() - matches(v, key)) as nat),
{
    lemma_mask_without(v, key);
    lemma_table_kept_rows(t, mask_without(v, key));
}

proof fn lemma_mask_without(v: Seq<u64>, key: u64)
    ensures
        matches(v, key) + marked(mask_without(v, key)) == v.len(),
    decreases v.len(),
{
    if v.len() > 0 {
        lemma_mask_without(v.drop_last(), key);
        assert(mask_without(v, key).drop_last() =~= mask_without(v.drop_last(), key));
    }
}

/// A row of `ncols` cells behind a row-major array is one row more.
pub proof fn lemma_key_rows_push(cells: Seq<u64>, nrows: nat, ncols: nat, row: Seq<u64>)
    requires
        cells.len() == nrows * ncols,
        row.len() == ncols,
    ensures
        key_rows(cells + row, nrows + 1, ncols) == key_rows(cells, nrows, ncols).push(row),
        (cells + row).len() == (nrows + 1) * ncols,
{
    assert((nrows + 1) * ncols == nrows * ncols + ncols) by (nonlinear_arith);
    assert forall|i: int| 0 <= i < nrows + 1 implies #[trigger] key_rows(
        cells + row,
        nrows + 1,
        ncols,
    )[i] =~= key_rows(cells, nrows, ncols).push(row)[i] by {
        if i < nrows {
            assert(0 <= i * ncols && i * ncols + ncols <= nrows * ncols) by (nonlinear_arith)
                requires
                    0 <= i < nrows,
            ;
        } else {
            assert(i * ncols == nrows * ncols);
        }
    }
    assert(key_rows(cells + row, nrows + 1, ncols) =~= key_rows(cells, nrows, ncols).push(row));
}

/// The marked elements of a list of copyable values.
fn keep_marked<T: Copy>(v: &Vec<T>, mask: &Vec<bool>) -> (out: Vec<T>)
    requires
        v@.len() == mask@.len(),
    ensures
        out@ == kept(v@, mask@),
{
    let mut out: Vec<T> = Vec::new();
    let mut i: usize = 0;
    while i < v.len()
        invariant
            i <= v@.len() == mask@.len(),
            out@ == kept(v@.take(i as int), mask@.take(i as int)),
        decreases v.len() - i,
    {
        proof {
            assert(v@.take(i + 1).drop_last() =~= v@.take(i as int));
            assert(mask@.take(i + 1).drop_last() =~= mask@.take(i as int));
        }
        if mask[i] {
            out.push(v[i]);
        }
        i += 1;
    }
    assert(v@.take(i as int) =~= v@);
    assert(mask@.take(i as int) =~= mask@);
    out
}

proof fn lemma_kept_codes(codes: Seq<u32>, mask: Seq<bool>, bound: nat)
    requires
        forall|i: int| 0 <= i < codes.len() ==> #[trigger] codes[i] < bound,
    ensures
        forall|i: int| 0 <= i < kept(codes, mask).len() ==> #[trigger] kept(codes, mask)[i] < bound,
    decreases codes.len(),
{
    if codes.len() > 0 {
        assert(codes.last() == codes[codes.len() - 1]);
        assert forall|i: int| 0 <= i < codes.drop_last().len() implies #[trigger] codes.drop_last()[i]
            < bound by {
            assert(codes.drop_last()[i] == codes[i]);
        }
        lemma_kept_codes(codes.drop_last(), mask.drop_last(), bound);
        let r = kept(codes.drop_last(), mask.drop_last());
        assert forall|i: int| 0 <= i < kept(codes, mask).len() implies #[trigger] kept(codes, mask)[i]
            < bound by {
            if i < r.len() {
                assert(kept(codes, mask)[i] == r[i]);
            } else {
                assert(kept(codes, mask)[i] == codes.last());
            }
        }
    }
}

/// The marked rows of a row-major array, and their number.
fn keep_rows(cells: &Vec<u64>, nrows: usize, ncols: usize, mask: &Vec<bool>) -> (out: (
    usize,
    Vec<u64>,
))
    requires
        cells@.len() == nrows * ncols,
        mask@.len() == nrows,
    ensures
        out.1@.len() == out.0 * ncols,
        key_rows(out.1@, out.0 as nat, ncols as nat) == kept(
            key_rows(cells@, nrows as nat, ncols as nat),
            mask@,
        ),
{
    let ghost rows = key_rows(cells@, nrows as nat, ncols as nat);
    let total: usize = cells.len();
    let mut out: Vec<u64> = Vec::new();
    let mut n: usize = 0;
    let mut i: usize = 0;
    let mut at: usize = 0;
    assert(key_rows(out@, 0, ncols as nat) =~= Seq::empty());
    assert(0 * ncols == 0);
    while i < nrows
        invariant
            i <= nrows == mask@.len(),
            n <= i,
            at == i * ncols,
            total == cells@.len() == nrows * ncols,
            rows == key_rows(cells@, nrows as nat, ncols as nat),
            out@.len() == n * ncols,
            key_rows(out@, n as nat, ncols as nat) == kept(
                rows.take(i as int),
                mask@.take(i as int),
            ),
        decreases nrows - i,
    {
        proof {
            assert(rows.take(i + 1).drop_last() =~= rows.take(i as int));
            assert(mask@.take(i + 1).drop_last() =~= mask@.take(i as int));
            assert(i * ncols + ncols == (i + 1) * ncols) by (nonlinear_arith);
            assert((i + 1) * ncols <= nrows * ncols) by (nonlinear_arith)
                requires
                    i + 1 <= nrows,
            ;
        }
        if mask[i] {
            let ghost before = out@;
            let ghost row = rows[i as int];
            let mut j: usize = 0;
            while j < ncols
                invariant
                    j <= ncols,
                    at + ncols <= total == cells@.len(),
                    row == cells@.subrange(at as int, at + ncols),
                    out@ == before + row.take(j as int),
                decreases ncols - j,
            {
                out.push(cells[at + j]);
                j += 1;
                assert(out@ =~= before + row.take(j as int));
            }
            proof {
                assert(row.take(j as int) =~= row);
                lemma_key_rows_push(before, n as nat, ncols as nat, row);
            }
            n += 1;
        }
        at = at + ncols;
        i += 1;
    }
    assert(rows.take(i as int) =~= rows);
    assert(mask@.take(i as int) =~= mask@);
    (n, out)
}

impl Column {
    /// Drops the rows whose place in `mask` is not marked.
    fn keep(&mut self, mask: &Vec<bool>)
        requires
            old(self).sound(),
            column_len(old(self)@) == mask@.len(),
        ensures
            final(self).sound(),
            final(self)@ == column_kept(old(self)@, mask@),
    {
        match self {
            Column::ScalarF64(v) => {
                *v = keep_marked(v, mask);
            },
            Column::DictU32 { codes, dict } => {
                proof {
                    lemma_kept_codes(codes@, mask@, dict@.len());
                }
                *codes = keep_marked(codes, mask);
            },
            Column::KeyF64 { nrows, ncols, cells } => {
                let (n, out) = keep_rows(cells, *nrows, *ncols, mask);
                *nrows = n;
                *cells = out;
            },
        }
    }
}

// -------------------------------------------------------------------- rows

/// The values of one row, by column name.
#[derive(Debug)]
pub struct RowValues {
    /// Numbers, as bit patterns.
    pub scalars: Vec<(String, u64)>,
    /// Labels.
    pub labels: Vec<(String, String)>,
    /// Key vectors.
    pub keys: Vec<(String, Vec<u64>)>,
}

impl View for RowValues {
    type V = RowView;

    open spec fn view(&self) -> RowView {
        RowView {
            scalars: named::assoc(self.scalars@),
            labels: named::assoc(self.labels@).map_values(|l: String| l@),
            keys: named::assoc(self.keys@).map_values(|k: Vec<u64>| k@),
        }
    }
}

impl Column {
    /// True where the row has a value for this column, of the right kind
    /// and width.
    fn fits(&self, name: &str, row: &RowValues) -> (r: bool)
        ensures
            r == column_fits(name@, self@, row@),
    {
        match self {
            Column::ScalarF64(_) => assoc_get(&row.scalars, name).is_some(),
            Column::DictU32 { .. } => assoc_get(&row.labels, name).is_some(),
            Column::KeyF64 { ncols, .. } => match assoc_get(&row.keys, name) {
                Some(k) => k.len() == *ncols,
                None => false,
            },
        }
    }

    /// Appends the row's value for this column.
    fn push(&mut self, name: &str, row: &RowValues)
        requires
            old(self).sound(),
            column_fits(name@, old(self)@, row@),
            column_len(old(self)@) < usize::MAX,
        ensures
            final(self).sound(),
            final(self)@ == column_pushed(name@, old(self)@, row@),
    {
        match self {
            Column::ScalarF64(v) => {
                match assoc_get(&row.scalars, name) {
                    Some(x) => v.push(*x),
                    None => {},
                }
            },
            Column::DictU32 { codes, dict } => {
                match assoc_get(&row.labels, name) {
                    Some(label) => {
                        let code: usize = match find_column(dict.as_slice(), label.as_str()) {
                            Some(k) => k,
                            None => {
                                let ghost before = pgoutput::texts(dict@);
                                dict.push(label.clone());
                                assert(pgoutput::texts(dict@) =~= before.push(label@));
                                dict.len() - 1
                            },
                        };
                        assert((code as u32) <= code) by (bit_vector);
                        codes.push(code as u32);
                    },
                    None => {},
                }
            },
            Column::KeyF64 { nrows, ncols, cells } => {
                match assoc_get(&row.keys, name) {
                    Some(k) => {
                        proof {
                            lemma_key_rows_push(cells@, *nrows as nat, *ncols as nat, k@);
                        }
                        let ghost before = cells@;
                        let mut j: usize = 0;
                        while j < k.len()
                            invariant
                                j <= k@.len(),
                                cells@ == before + k@.take(j as int),
                            decreases k.len() - j,
                        {
                            cells.push(k[j]);
                            j += 1;
                            assert(cells@ =~= before + k@.take(j as int));
                        }
                        assert(k@.take(j as int) =~= k@);
                        *nrows = *nrows + 1;
                    },
                    None => {},
                }
            },
        }
    }
}

// ------------------------------------------------------------------- table

/// A table: columns by name.
#[derive(Debug)]
pub struct Table {
    columns: Vec<(String, Column)>,
}

impl View for Table {
    type V = TableView;

    closed spec fn view(&self) -> TableView {
        named::assoc(self.columns@).map_values(|c: Column| c@)
    }
}

/// All columns have `n` rows.
pub open spec fn table_rows(t: TableView, n: nat) -> bool {
    forall|name: Seq<char>| #[trigger] t.contains_key(name) ==> column_len(t[name]) == n
}

/// The parts of a column fit together: every code of a label column names a
/// label, and the rows of a key column have one width.
pub open spec fn column_holds_together(c: ColumnView) -> bool {
    match c {
        ColumnView::Scalar(_) => true,
        ColumnView::Dict { codes, dict } => forall|i: int|
            0 <= i < codes.len() ==> #[trigger] codes[i] < dict.len(),
        ColumnView::Key { ncols, rows } => forall|i: int|
            0 <= i < rows.len() ==> (#[trigger] rows[i]).len() == ncols,
    }
}

/// Lists of the same names and contents are the same table.
proof fn lemma_same_columns(a: Seq<(String, Column)>, b: Seq<(String, Column)>)
    requires
        a.len() == b.len(),
        forall|j: int|
            0 <= j < a.len() ==> (#[trigger] b[j]).0@ == a[j].0@ && b[j].1@ == a[j].1@,
    ensures
        named::assoc(a).map_values(|c: Column| c@) == named::assoc(b).map_values(|c: Column| c@),
    decreases a.len(),
{
    let f = |c: Column| c@;
    if a.len() > 0 {
        let (x, y) = (a.drop_last(), b.drop_last());
        assert forall|j: int| 0 <= j < x.len() implies (#[trigger] y[j]).0@ == x[j].0@ && y[j].1@
            == x[j].1@ by {
            assert(y[j] == b[j]);
        }
        lemma_same_columns(x, y);
        assert(b[b.len() - 1].0@ == a[a.len() - 1].0@);
        assert(named::assoc(a).map_values(f) =~= named::assoc(x).map_values(f).insert(
            a.last().0@,
            a.last().1@,
        ));
        assert(named::assoc(b).map_values(f) =~= named::assoc(y).map_values(f).insert(
            b.last().0@,
            b.last().1@,
        ));
    } else {
        assert(named::assoc(a).map_values(f) =~= named::assoc(b).map_values(f));
    }
}

impl Table {
    /// Names are distinct and every column is sound.
    pub closed spec fn wf(self) -> bool {
        &&& named::distinct_names(self.columns@)
        &&& forall|i: int| 0 <= i < self.columns@.len() ==> (#[trigger] self.columns@[i]).1.sound()
    }

    /// A table without columns.
    pub fn new() -> (r: Self)
        ensures
            r.wf(),
            r@ == Map::<Seq<char>, ColumnView>::empty(),
    {
        let r = Table { columns: Vec::new() };
        assert(r@ =~= Map::empty());
        r
    }

    proof fn lemma_at(self, i: int)
        requires
            self.wf(),
            0 <= i < self.columns@.len(),
        ensures
            self@.contains_key(self.columns@[i].0@),
            self@[self.columns@[i].0@] == self.columns@[i].1@,
    {
        named::lemma_assoc_has(self.columns@, i);
    }

    proof fn lemma_from(self, name: Seq<char>) -> (i: int)
        requires
            self.wf(),
            self@.contains_key(name),
        ensures
            0 <= i < self.columns@.len(),
            self.columns@[i].0@ == name,
            self@[name] == self.columns@[i].1@,
    {
        named::lemma_assoc_from(self.columns@, name)
    }

    /// The parts of every column of a well-formed table fit together.
    pub proof fn lemma_columns_hold_together(self)
        requires
            self.wf(),
        ensures
            forall|name: Seq<char>| #[trigger]
                self@.contains_key(name) ==> column_holds_together(self@[name]),
    {
        assert forall|name: Seq<char>| #[trigger] self@.contains_key(name) implies column_holds_together(
            self@[name],
        ) by {
            let i = self.lemma_from(name);
            assert(self.columns@[i].1.sound());
            match self.columns@[i].1 {
                Column::DictU32 { codes, dict } => {
                    assert(pgoutput::texts(dict@).len() == dict@.len());
                },
                Column::KeyF64 { nrows, ncols, cells } => {
                    assert forall|j: int| 0 <= j < nrows implies (#[trigger] key_rows(
                        cells@,
                        nrows as nat,
                        ncols as nat,
                    )[j]).len() == ncols by {
                        assert(j * ncols + ncols <= nrows * ncols) by (nonlinear_arith)
                            requires
                                j + 1 <= nrows,
                        ;
                        assert(0 <= j * ncols) by (nonlinear_arith)
                            requires
                                0 <= j,
                        ;
                    }
                },
                _ => {},
            }
        }
    }

    /// The place of the column called `name`.
    fn position(&self, name: &str) -> (r: Option<usize>)
        requires
            self.wf(),
        ensures
            match r {
                Some(i) => i < self.columns@.len() && self.columns@[i as int].0@ == name@
                    && self@.contains_key(name@) && self@[name@] == self.columns@[i as int].1@,
                None => !self@.contains_key(name@),
            },
    {
        let mut i: usize = 0;
        while i < self.columns.len()
            invariant
                self.wf(),
                i <= self.columns@.len(),
                forall|j: int| 0 <= j < i ==> (#[trigger] self.columns@[j]).0@ != name@,
            decreases self.columns.len() - i,
        {
            if same_text(self.columns[i].0.as_str(), name) {
                proof {
                    self.lemma_at(i as int);
                }
                return Some(i);
            }
            i += 1;
        }
        proof {
            if self@.contains_key(name@) {
                let k = self.lemma_from(name@);
                assert(self.columns@[k].0@ != name@);
            }
        }
        None
    }

    /// The column called `name`.
    pub fn column(&self, name: &str) -> (r: Option<&Column>)
        requires
            self.wf(),
        ensures
            match r {
                Some(c) => self@.contains_key(name@) && self@[name@] == c@ && c.sound(),
                None => !self@.contains_key(name@),
            },
    {
        match self.position(name) {
            Some(i) => Some(&self.columns[i].1),
            None => None,
        }
    }

    /// Stores a column under `name`, in place of any that was there.
    pub fn insert(&mut self, name: String, column: Column)
        requires
            old(self).wf(),
            column.sound(),
        ensures
            final(self).wf(),
            final(self)@ == old(self)@.insert(name@, column@),
    {
        let ghost before = *self;
        match self.position(name.as_str()) {
            Some(i) => {
                self.columns[i].1 = column;
                proof {
                    assert forall|n: Seq<char>| #[trigger]
                        same_at(self@, before@.insert(name@, column@), n) by {
                        if self@.contains_key(n) {
                            let k = self.lemma_from(n);
                            before.lemma_at(k);
                        }
                        if before@.contains_key(n) {
                            let k = before.lemma_from(n);
                            self.lemma_at(k);
                        }
                        self.lemma_at(i as int);
                    }
                    lemma_same_table(self@, before@.insert(name@, column@));
                }
            },
            None => {
                self.columns.push((name, column));
                proof {
                    assert(self.columns@.drop_last() =~= before.columns@);
                    assert forall|j: int| 0 <= j < before.columns@.len() implies (
                    #[trigger] before.columns@[j]).0@ != name@ by {
                        before.lemma_at(j);
                    }
                    assert(self@ =~= before@.insert(name@, column@));
                }
            },
        }
    }

    /// Another table of the same contents.
    pub fn copy(&self) -> (t: Table)
        requires
            self.wf(),
        ensures
            t.wf(),
            t@ == self@,
    {
        let mut columns: Vec<(String, Column)> = Vec::new();
        let mut i: usize = 0;
        while i < self.columns.len()
            invariant
                self.wf(),
                i <= self.columns@.len(),
                columns@.len() == i,
                forall|j: int|
                    0 <= j < i ==> (#[trigger] columns@[j]).0@ == self.columns@[j].0@ && columns@[j].1@
                        == self.columns@[j].1@ && columns@[j].1.sound(),
            decreases self.columns.len() - i,
        {
            let c = self.columns[i].1.copy();
            assert(self.columns@[i as int].1.sound());
            columns.push((owned(self.columns[i].0.as_str()), c));
            i += 1;
        }
        let t = Table { columns };
        proof {
            assert forall|a: int, b: int| 0 <= a < b < t.columns@.len() implies (
            #[trigger] t.columns@[a]).0@ != (#[trigger] t.columns@[b]).0@ by {
                assert(self.columns@[a].0@ != self.columns@[b].0@);
            }
            lemma_same_columns(self.columns@, t.columns@);
        }
        t
    }

    /// True where all columns have the same number of rows.
    pub fn is_aligned(&self) -> (r: bool)
        requires
            self.wf(),
        ensures
            r == exists|n: nat| table_rows(self@, n),
    {
        if self.columns.len() == 0 {
            assert(table_rows(self@, 0));
            return true;
        }
        let n: usize = self.columns[0].1.len();
        proof {
            self.lemma_at(0);
        }
        let mut i: usize = 0;
        while i < self.columns.len()
            invariant
                self.wf(),
                self.columns@.len() > 0,
                i <= self.columns@.len(),
                self@.contains_key(self.columns@[0].0@),
                column_len(self@[self.columns@[0].0@]) == n,
                forall|j: int|
                    0 <= j < i ==> column_len((#[trigger] self.columns@[j]).1@) == n,
            decreases self.columns.len() - i,
        {
            if self.columns[i].1.len() != n {
                proof {
                    self.lemma_at(i as int);
                }
                return false;
            }
            i += 1;
        }
        proof {
            assert forall|name: Seq<char>| #[trigger] self@.contains_key(name) implies column_len(
                self@[name],
            ) == n by {
                let k = self.lemma_from(name);
                assert(column_len(self.columns@[k].1@) == n);
            }
            assert(table_rows(self@, n as nat));
        }
        true
    }

    /// True where the row has a fitting value for every column.
    fn row_ok(&self, row: &RowValues) -> (r: bool)
        requires
            self.wf(),
        ensures
            r == row_fits(self@, row@),
    {
        let mut i: usize = 0;
        while i < self.columns.len()
            invariant
                self.wf(),
                i <= self.columns@.len(),
                forall|j: int|
                    0 <= j < i ==> column_fits(
                        (#[trigger] self.columns@[j]).0@,
                        self.columns@[j].1@,
                        row@,
                    ),
            decreases self.columns.len() - i,
        {
            if !self.columns[i].1.fits(self.columns[i].0.as_str(), row) {
                proof {
                    self.lemma_at(i as int);
                }
                return false;
            }
            i += 1;
        }
        proof {
            assert forall|n: Seq<char>| #[trigger] self@.contains_key(n) implies column_fits(
                n,
                self@[n],
                row@,
            ) by {
                let k = self.lemma_from(n);
                assert(column_fits(self.columns@[k].0@, self.columns@[k].1@, row@));
            }
        }
        true
    }

    /// Appends one row. A row that lacks a fitting value for some column
    /// is refused and nothing changes.
    pub fn insert_row(&mut self, row: &RowValues) -> (r: Result<(), CdcError>)
        requires
            old(self).wf(),
            exists|n: nat| n < usize::MAX && table_rows(old(self)@, n),
        ensures
            final(self).wf(),
            if row_fits(old(self)@, row@) {
                r is Ok && final(self)@ == table_pushed(old(self)@, row@)
            } else {
                final(self)@ == old(self)@ && (r matches Err(e) && e@ == CdcErrorView::Apply(
                    row_text(),
                ))
            },
    {
        let ghost before = *self;
        if !self.row_ok(row) {
            return Err(CdcError::Apply(owned("insert: row does not match the table's columns")));
        }
        let ghost n = choose|n: nat| n < usize::MAX && table_rows(before@, n);
        let mut i: usize = 0;
        while i < self.columns.len()
            invariant
                before.wf(),
                self.wf(),
                row_fits(before@, row@),
                n < usize::MAX,
                table_rows(before@, n),
                i <= self.columns@.len() == before.columns@.len(),
                forall|j: int|
                    0 <= j < self.columns@.len() ==> (#[trigger] self.columns@[j]).0
                        == before.columns@[j].0,
                forall|j: int|
                    i <= j < self.columns@.len() ==> (#[trigger] self.columns@[j]).1
                        == before.columns@[j].1,
                forall|j: int|
                    0 <= j < i ==> (#[trigger] self.columns@[j]).1@ == column_pushed(
                        before.columns@[j].0@,
                        before.columns@[j].1@,
                        row@,
                    ),
            decreases self.columns.len() - i,
        {
            proof {
                before.lemma_at(i as int);
            }
            let name = self.columns[i].0.clone();
            self.columns[i].1.push(name.as_str(), row);
            i += 1;
        }
        proof {
            assert forall|name: Seq<char>| #[trigger] same_at(self@, table_pushed(before@, row@), name) by {
                if self@.contains_key(name) {
                    let k = self.lemma_from(name);
                    before.lemma_at(k);
                }
                if before@.contains_key(name) {
                    let k = before.lemma_from(name);
                    self.lemma_at(k);
                }
            }
            lemma_same_table(self@, table_pushed(before@, row@));
        }
        Ok(())
    }

    /// Drops the rows whose place in `mask` is not marked.
    fn keep_rows(&mut self, mask: &Vec<bool>)
        requires
            old(self).wf(),
            table_rows(old(self)@, mask@.len()),
        ensures
            final(self).wf(),
            final(self)@ == table_kept(old(self)@, mask@),
    {
        let ghost before = *self;
        let mut i: usize = 0;
        while i < self.columns.len()
            invariant
                before.wf(),
                self.wf(),
                table_rows(before@, mask@.len()),
                i <= self.columns@.len() == before.columns@.len(),
                forall|j: int|
                    0 <= j < self.columns@.len() ==> (#[trigger] self.columns@[j]).0
                        == before.columns@[j].0,
                forall|j: int|
                    i <= j < self.columns@.len() ==> (#[trigger] self.columns@[j]).1
                        == before.columns@[j].1,
                forall|j: int|
                    0 <= j < i ==> (#[trigger] self.columns@[j]).1@ == column_kept(
                        before.columns@[j].1@,
                        mask@,
                    ),
            decreases self.columns.len() - i,
        {
            proof {
                before.lemma_at(i as int);
            }
            self.columns[i].1.keep(mask);
            i += 1;
        }
        proof {
            assert forall|name: Seq<char>| #[trigger] same_at(self@, table_kept(before@, mask@), name) by {
                if self@.contains_key(name) {
                    let k = self.lemma_from(name);
                    before.lemma_at(k);
                }
                if before@.contains_key(name) {
                    let k = before.lemma_from(name);
                    self.lemma_at(k);
                }
            }
            lemma_same_table(self@, table_kept(before@, mask@));
        }
    }

    /// Drops every row whose `name` equals `key` numerically; the number of
    /// rows dropped, or nothing where `name` is no scalar column.
    pub fn delete_where(&mut self, name: &str, key: u64) -> (r: Option<usize>)
        requires
            old(self).wf(),
            exists|n: nat| table_rows(old(self)@, n),
        ensures
            final(self).wf(),
            match scalar_of(old(self)@, name@) {
                Some(v) => (r matches Some(n) && n == matches(v, key)) && final(self)@
                    == table_without(old(self)@, v, key),
                None => r is None && final(self)@ == old(self)@,
            },
    {
        let mut mask: Vec<bool> = Vec::new();
        let mut n: usize = 0;
        match self.column(name) {
            Some(Column::ScalarF64(v)) => {
                let mut i: usize = 0;
                while i < v.len()
                    invariant
                        i <= v@.len(),
                        n <= i,
                        mask@ == mask_without(v@.take(i as int), key),
                        n == matches(v@.take(i as int), key),
                    decreases v.len() - i,
                {
                    let hit: bool = eq(v[i], key);
                    mask.push(!hit);
                    if hit {
                        n += 1;
                    }
                    assert(v@.take(i + 1).drop_last() =~= v@.take(i as int));
                    i += 1;
                    assert(mask@ =~= mask_without(v@.take(i as int), key));
                }
                assert(v@.take(i as int) =~= v@);
            },
            _ => return None,
        }
        self.keep_rows(&mask);
        Some(n)
    }
}

/// Two tables agree on one name.
spec fn same_at(a: TableView, b: TableView, n: Seq<char>) -> bool {
    a.contains_key(n) == b.contains_key(n) && (a.contains_key(n) ==> a[n] == b[n])
}

proof fn lemma_same_table(a: TableView, b: TableView)
    requires
        forall|n: Seq<char>| #[trigger] same_at(a, b, n),
    ensures
        a == b,
{
    assert forall|n: Seq<char>| a.dom().contains(n) == b.dom().contains(n) by {
        assert(same_at(a, b, n));
    }
    assert(a.dom() =~= b.dom());
    assert forall|n: Seq<char>| a.dom().contains(n) implies a[n] == b[n] by {
        assert(same_at(a, b, n));
    }
    assert(a =~= b);
}

/// The complaint about a row that lacks a value for some column.
pub open spec fn row_text() -> Seq<char> {
    "insert: row does not match the table's columns"@
}

/// The numbers of a scalar column.
pub open spec fn scalar_of(t: TableView, name: Seq<char>) -> Option<Seq<u64>> {
    if t.contains_key(name) {
        match t[name] {
            ColumnView::Scalar(v) => Some(v),
            _ => None,
        }
    } else {
        None
    }
}

/// How many numbers equal `key`.
pub open spec fn matches(v: Seq<u64>, key: u64) -> nat
    decreases v.len(),
{
    if v.len() == 0 {
        0
    } else {
        matches(v.drop_last(), key) + if bits::num_eq(v.last(), key) {
            1nat
        } else {
            0
        }
    }
}

/// Marks the numbers that differ from `key`.
pub open spec fn mask_without(v: Seq<u64>, key: u64) -> Seq<bool> {
    Seq::new(v.len(), |i: int| !bits::num_eq(v[i], key))
}

/// A table without the rows at which `v` equals `key`.
pub open spec fn table_without(t: TableView, v: Seq<u64>, key: u64) -> TableView {
    table_kept(t, mask_without(v, key))
}

} // verus!

//! The mirror table read row by row: what a snapshot puts into it and what
//! an applied change does to it.

use vstd::prelude::*;

use crate::apply;
use crate::apply::{MirrorView, Reading, Resolve, TableMapView};
use crate::bits;
use crate::pgoutput::DatumView;
use crate::source;
use crate::source::ChangeView;
use crate::table;
use crate::table::{ColumnView, RowView, TableView};

verus! {

/// What one row holds in one column.
pub enum Cell {
    Number(u64),
    Label(Seq<char>),
    Key(Seq<u64>),
}

/// What row `i` holds in column `name`.
pub open spec fn cell(t: TableView, name: Seq<char>, i: int) -> Cell {
    held_at(t[name], i)
}

/// What row `i` holds in a column.
pub open spec fn held_at(column: ColumnView, i: int) -> Cell {
    match column {
        ColumnView::Scalar(v) => Cell::Number(v[i]),
        ColumnView::Dict { codes, dict } => Cell::Label(dict[codes[i] as int]),
        ColumnView::Key { rows, .. } => Cell::Key(rows[i]),
    }
}

/// A table of `n` rows whose columns hold together, with dictionaries that
/// a code can number.
pub open spec fn sound(t: TableView, n: nat) -> bool {
    &&& table::table_rows(t, n)
    &&& forall|name: Seq<char>| #[trigger]
        t.contains_key(name) ==> table::column_holds_together(t[name]) && (
        t[name] matches ColumnView::Dict { dict, .. } ==> dict.len() <= u32::MAX)
}

/// No column is named twice.
pub open spec fn names_differ(cols: Seq<(Seq<char>, DatumView)>) -> bool {
    forall|i: int, j: int|
        0 <= i < j < cols.len() ==> (#[trigger] cols[i]).0 != (#[trigger] cols[j]).0
}

/// The row `p`, and no other, has the primary key `key`.
pub open spec fn only_row(map: TableMapView, t: TableView, n: nat, key: u64, p: int) -> bool {
    &&& 0 <= p < n
    &&& t.contains_key(map.pk)
    &&& t[map.pk] is Scalar
    &&& forall|i: int|
        0 <= i < n ==> (#[trigger] cell(t, map.pk, i) matches Cell::Number(x) && (bits::num_eq(
            x,
            key,
        ) <==> i == p))
}

/// What a new row holds in column `c`: the value that the tuple's text
/// stands for or, where the tuple says that the column is unchanged, what
/// the row held before.
pub open spec fn told(
    rd: Reading,
    cols: Seq<(Seq<char>, DatumView)>,
    c: Seq<char>,
    now: Cell,
    before: Option<Cell>,
) -> bool {
    exists|d: DatumView| #[trigger]
        cols.contains((c, d)) && match d {
            DatumView::Text(v) => match now {
                Cell::Number(x) => rd(v) matches Ok(n) && n.0 == x,
                Cell::Label(l) => l == v,
                Cell::Key(_) => false,
            },
            DatumView::Unchanged => before == Some(now),
            DatumView::Null => false,
        }
}

/// The row `i` of `t2` is the one that the tuple tells of, with `before` for
/// what it was in the columns that did not change.
pub open spec fn told_row(
    rd: Reading,
    map: TableMapView,
    cols: Seq<(Seq<char>, DatumView)>,
    t2: TableView,
    i: int,
    before: Option<(TableView, int)>,
) -> bool {
    let was = |c: Seq<char>|
        match before {
            Some((t, p)) => Some(cell(t, c, p)),
            None => None::<Cell>,
        };
    forall|c: Seq<char>| #[trigger]
        t2.contains_key(c) ==> match t2[c] {
            ColumnView::Scalar(_) | ColumnView::Dict { .. } => told(
                rd,
                cols,
                c,
                cell(t2, c, i),
                was(c),
            ),
            ColumnView::Key { .. } => cell(t2, c, i) matches Cell::Key(key) && key.len()
                == map.key_parts.len() && forall|j: int|
                0 <= j < key.len() ==> told(
                    rd,
                    cols,
                    map.key_parts[j],
                    Cell::Number(#[trigger] key[j]),
                    was(map.key_parts[j]),
                ),
        }
}

/// `t2` has the columns of `t`, each of its kind.
pub open spec fn same_columns(t: TableView, t2: TableView) -> bool {
    &&& t2.dom() == t.dom()
    &&& forall|c: Seq<char>| #[trigger]
        t.contains_key(c) ==> (t[c] is Scalar <==> t2[c] is Scalar) && (t[c] is Dict <==> t2[c] is Dict)
            && (t[c] is Key <==> t2[c] is Key)
}

/// The rows of `t`, all but row `p`, are the first rows of `t2`, in order.
pub open spec fn rows_but(t: TableView, t2: TableView, n: nat, p: int) -> bool {
    &&& same_columns(t, t2)
    &&& forall|c: Seq<char>, i: int|
        t.contains_key(c) && 0 <= i < n && i != p ==> cell(
            t2,
            c,
            if i < p {
                i
            } else {
                i - 1
            },
        ) == #[trigger] cell(t, c, i)
}

// -------------------------------------------------------------------- lemmas

proof fn lemma_datum(cols: Seq<(Seq<char>, DatumView)>, name: Seq<char>, d: DatumView, i: int, k: int)
    requires
        names_differ(cols),
        0 <= i <= k < cols.len(),
        cols[k] == (name, d),
    ensures
        apply::datum_from(cols, name, i) == Some(d),
    decreases cols.len() - i,
{
    if i < k {
        assert(cols[i].0 != cols[k].0);
        lemma_datum(cols, name, d, i + 1, k);
    }
}

proof fn lemma_said(cols: Seq<(Seq<char>, DatumView)>, name: Seq<char>, i: int)
    requires
        0 <= i,
    ensures
        apply::datum_from(cols, name, i) matches Some(d) ==> cols.contains((name, d)),
    decreases cols.len() - i,
{
    if i < cols.len() {
        if cols[i].0 == name {
            assert(cols[i] == (name, cols[i].1));
        } else {
            lemma_said(cols, name, i + 1);
        }
    }
}

proof fn lemma_scalars(
    rd: Reading,
    cols: Seq<(Seq<char>, DatumView)>,
    names: Seq<Seq<char>>,
    i: int,
    res: Resolve,
    acc: Map<Seq<char>, u64>,
)
    requires
        0 <= i,
        apply::scalars_from(rd, cols, names, i, res, acc) is Ok,
        forall|c: Seq<char>| #[trigger]
            acc.contains_key(c) ==> apply::scalar_cell(rd, cols, c, res) == Ok::<u64, Seq<char>>(
                acc[c],
            ),
    ensures
        ({
            let all = apply::scalars_from(rd, cols, names, i, res, acc)->Ok_0;
            forall|c: Seq<char>| #[trigger]
                all.contains_key(c) ==> apply::scalar_cell(rd, cols, c, res) == Ok::<u64, Seq<char>>(
                    all[c],
                )
        }),
    decreases names.len() - i,
{
    if i < names.len() {
        let x = apply::scalar_cell(rd, cols, names[i], res)->Ok_0;
        lemma_scalars(rd, cols, names, i + 1, res, acc.insert(names[i], x));
    }
}

proof fn lemma_labels(
    cols: Seq<(Seq<char>, DatumView)>,
    names: Seq<Seq<char>>,
    i: int,
    res: Resolve,
    acc: Map<Seq<char>, Seq<char>>,
)
    requires
        0 <= i,
        apply::labels_from(cols, names, i, res, acc) is Ok,
        forall|c: Seq<char>| #[trigger]
            acc.contains_key(c) ==> apply::label_cell(cols, c, res) == Ok::<Seq<char>, Seq<char>>(
                acc[c],
            ),
    ensures
        ({
            let all = apply::labels_from(cols, names, i, res, acc)->Ok_0;
            forall|c: Seq<char>| #[trigger]
                all.contains_key(c) ==> apply::label_cell(cols, c, res) == Ok::<
                    Seq<char>,
                    Seq<char>,
                >(all[c])
        }),
    decreases names.len() - i,
{
    if i < names.len() {
        let x = apply::label_cell(cols, names[i], res)->Ok_0;
        lemma_labels(cols, names, i + 1, res, acc.insert(names[i], x));
    }
}

proof fn lemma_key(
    rd: Reading,
    cols: Seq<(Seq<char>, DatumView)>,
    parts: Seq<Seq<char>>,
    i: int,
    res: Resolve,
    acc: Seq<u64>,
)
    requires
        0 <= i == acc.len() <= parts.len(),
        apply::key_from(rd, cols, parts, i, res, acc) is Ok,
        forall|j: int|
            0 <= j < acc.len() ==> apply::scalar_cell(rd, cols, parts[j], res) == Ok::<
                u64,
                Seq<char>,
            >(#[trigger] acc[j]),
    ensures
        ({
            let key = apply::key_from(rd, cols, parts, i, res, acc)->Ok_0;
            &&& key.len() == parts.len()
            &&& forall|j: int|
                0 <= j < key.len() ==> apply::scalar_cell(rd, cols, parts[j], res) == Ok::<
                    u64,
                    Seq<char>,
                >(#[trigger] key[j])
        }),
    decreases parts.len() - i,
{
    if i < parts.len() {
        let x = apply::scalar_cell(rd, cols, parts[i], res)->Ok_0;
        lemma_key(rd, cols, parts, i + 1, res, acc.push(x));
    }
}

/// What a row held that unchanged columns are read from.
spec fn held(res: Resolve, c: Seq<char>) -> Option<Cell> {
    match res {
        Resolve::Row(t, p) => Some(cell(t, c, p)),
        Resolve::Nowhere => None,
    }
}

proof fn lemma_scalar_told(
    rd: Reading,
    cols: Seq<(Seq<char>, DatumView)>,
    c: Seq<char>,
    res: Resolve,
    x: u64,
)
    requires
        apply::scalar_cell(rd, cols, c, res) == Ok::<u64, Seq<char>>(x),
    ensures
        told(rd, cols, c, Cell::Number(x), held(res, c)),
{
    lemma_said(cols, c, 0);
    let d = apply::datum_from(cols, c, 0)->0;
    assert(cols.contains((c, d)));
}

proof fn lemma_label_told(
    rd: Reading,
    cols: Seq<(Seq<char>, DatumView)>,
    c: Seq<char>,
    res: Resolve,
    x: Seq<char>,
)
    requires
        apply::label_cell(cols, c, res) == Ok::<Seq<char>, Seq<char>>(x),
    ensures
        told(rd, cols, c, Cell::Label(x), held(res, c)),
{
    lemma_said(cols, c, 0);
    let d = apply::datum_from(cols, c, 0)->0;
    assert(cols.contains((c, d)));
}

/// A row that fits is the last of the table, behind all that was there.
proof fn lemma_pushed(t: TableView, n: nat, row: RowView)
    requires
        sound(t, n),
        table::row_fits(t, row),
    ensures
        ({
            let t2 = table::table_pushed(t, row);
            &&& same_columns(t, t2)
            &&& forall|c: Seq<char>, i: int|
                t.contains_key(c) && 0 <= i < n ==> cell(t2, c, i) == #[trigger] cell(t, c, i)
            &&& forall|c: Seq<char>| #[trigger]
                t.contains_key(c) ==> match t[c] {
                    ColumnView::Scalar(_) => row.scalars.contains_key(c) && cell(t2, c, n as int)
                        == Cell::Number(row.scalars[c]),
                    ColumnView::Dict { .. } => row.labels.contains_key(c) && cell(t2, c, n as int)
                        == Cell::Label(row.labels[c]),
                    ColumnView::Key { .. } => row.keys.contains_key(c) && cell(t2, c, n as int)
                        == Cell::Key(row.keys[c]),
                }
        }),
{
    let t2 = table::table_pushed(t, row);
    assert(t2.dom() =~= t.dom());
    assert forall|c: Seq<char>| #[trigger] t.contains_key(c) implies t2[c] == table::column_pushed(
        c,
        t[c],
        row,
    ) && table::column_len(t[c]) == n && table::column_fits(c, t[c], row) && match t[c] {
        ColumnView::Scalar(_) => cell(t2, c, n as int) == Cell::Number(row.scalars[c]),
        ColumnView::Dict { .. } => cell(t2, c, n as int) == Cell::Label(row.labels[c]),
        ColumnView::Key { .. } => cell(t2, c, n as int) == Cell::Key(row.keys[c]),
    } by {
        if let ColumnView::Dict { codes, dict } = t[c] {
            source::lemma_column_at(dict, row.labels[c], 0);
            let (d, k) = table::dict_code(dict, row.labels[c]);
            assert(0 <= k <= u32::MAX);
            assert(d[k] == row.labels[c]);
            assert(codes.push(k as u32)[n as int] == k);
        }
    }
    assert forall|c: Seq<char>, i: int| t.contains_key(c) && 0 <= i < n implies cell(t2, c, i)
        == #[trigger] cell(t, c, i) by {
        if let ColumnView::Dict { codes, dict } = t[c] {
            assert(codes[i] < dict.len());
        }
    }
}

proof fn lemma_one_match(v: Seq<u64>, key: u64) -> (p: int)
    requires
        table::matches(v, key) == 1,
    ensures
        0 <= p < v.len(),
        forall|i: int| 0 <= i < v.len() ==> (bits::num_eq(#[trigger] v[i], key) <==> i == p),
    decreases v.len(),
{
    let w = v.drop_last();
    if bits::num_eq(v.last(), key) {
        apply::lemma_no_match(w, key);
        assert forall|i: int| 0 <= i < v.len() implies (bits::num_eq(#[trigger] v[i], key) <==> i
            == v.len() - 1) by {
            if i < v.len() - 1 {
                assert(w[i] == v[i]);
            }
        }
        v.len() - 1
    } else {
        let p = lemma_one_match(w, key);
        assert forall|i: int| 0 <= i < v.len() implies (bits::num_eq(#[trigger] v[i], key) <==> i
            == p) by {
            if i < v.len() - 1 {
                assert(w[i] == v[i]);
            }
        }
        p
    }
}

proof fn lemma_kept_but<T>(s: Seq<T>, mask: Seq<bool>, p: int)
    requires
        s.len() == mask.len(),
        0 <= p < s.len(),
        forall|i: int| 0 <= i < mask.len() ==> (#[trigger] mask[i] <==> i != p),
    ensures
        table::kept(s, mask) == s.remove(p),
    decreases s.len(),
{
    assert(mask.last() == mask[mask.len() - 1]);
    let (a, b) = (s.drop_last(), mask.drop_last());
    assert(forall|i: int| 0 <= i < b.len() ==> #[trigger] b[i] == mask[i]);
    if p == s.len() - 1 {
        apply::lemma_kept_all(a, b);
        assert(s.remove(p) =~= a);
    } else {
        lemma_kept_but(a, b, p);
        assert(a.remove(p).push(s.last()) =~= s.remove(p));
    }
}

/// Where one row has the key, that row is the one that goes.
proof fn lemma_without(map: TableMapView, t: TableView, n: nat, key: u64) -> (p: int)
    requires
        sound(t, n),
        table::scalar_of(t, map.pk) is Some,
        table::matches(table::scalar_of(t, map.pk)->0, key) == 1,
    ensures
        only_row(map, t, n, key, p),
        n > 0,
        ({
            let t2 = table::table_without(t, table::scalar_of(t, map.pk)->0, key);
            rows_but(t, t2, n, p) && sound(t2, (n - 1) as nat)
        }),
{
    let v = table::scalar_of(t, map.pk)->0;
    let p = lemma_one_match(v, key);
    assert(t.contains_key(map.pk));
    assert(v.len() == n);
    let mask = table::mask_without(v, key);
    let t2 = table::table_without(t, v, key);
    assert(t2.dom() =~= t.dom());
    assert(forall|i: int| 0 <= i < mask.len() ==> (#[trigger] mask[i] <==> i != p));
    assert forall|c: Seq<char>| #[trigger] t.contains_key(c) implies t2[c] == table::column_kept(
        t[c],
        mask,
    ) && match t[c] {
        ColumnView::Scalar(x) => t2[c] == ColumnView::Scalar(x.remove(p)),
        ColumnView::Dict { codes, dict } => t2[c] == (ColumnView::Dict {
            codes: codes.remove(p),
            dict,
        }),
        ColumnView::Key { ncols, rows } => t2[c] == (ColumnView::Key {
            ncols,
            rows: rows.remove(p),
        }),
    } by {
        assert(table::column_len(t[c]) == n);
        match t[c] {
            ColumnView::Scalar(x) => lemma_kept_but(x, mask, p),
            ColumnView::Dict { codes, .. } => lemma_kept_but(codes, mask, p),
            ColumnView::Key { rows, .. } => lemma_kept_but(rows, mask, p),
        }
    }
    assert forall|c: Seq<char>| #[trigger] t2.contains_key(c) implies table::column_len(t2[c]) == n
        - 1 && table::column_holds_together(t2[c]) && (t2[c] matches ColumnView::Dict { dict, .. }
        ==> dict.len() <= u32::MAX) by {
        assert(t.contains_key(c));
        assert(table::column_len(t[c]) == n);
        match t[c] {
            ColumnView::Dict { codes, dict } => {
                assert forall|i: int| 0 <= i < codes.remove(p).len() implies #[trigger] codes.remove(
                    p,
                )[i] < dict.len() by {
                    assert(codes[if i < p {
                        i
                    } else {
                        i + 1
                    }] < dict.len());
                }
            },
            ColumnView::Key { ncols, rows } => {
                assert forall|i: int| 0 <= i < rows.remove(p).len() implies (#[trigger] rows.remove(
                    p,
                )[i]).len() == ncols by {
                    assert(rows[if i < p {
                        i
                    } else {
                        i + 1
                    }].len() == ncols);
                }
            },
            _ => {},
        }
    }
    assert forall|c: Seq<char>, i: int| t.contains_key(c) && 0 <= i < n && i != p implies cell(
        t2,
        c,
        if i < p {
            i
        } else {
            i - 1
        },
    ) == #[trigger] cell(t, c, i) by {
        assert(table::column_len(t[c]) == n);
    }
    assert forall|i: int| 0 <= i < n implies (#[trigger] cell(t, map.pk, i) matches Cell::Number(x)
        && (bits::num_eq(x, key) <==> i == p)) by {
        assert(cell(t, map.pk, i) == Cell::Number(v[i]));
    }
    p
}

proof fn lemma_found(v: Seq<u64>, key: u64, i: int, p: int)
    requires
        0 <= i <= p < v.len(),
        forall|j: int| 0 <= j < v.len() ==> (bits::num_eq(#[trigger] v[j], key) <==> j == p),
    ensures
        apply::first_match(v, key, i) == Some(p),
    decreases v.len() - i,
{
    assert(bits::num_eq(v[i], key) <==> i == p);
    if i < p {
        lemma_found(v, key, i + 1, p);
    }
}

/// The row that a tuple describes, once it is in the table.
proof fn lemma_told_row(
    rd: Reading,
    map: TableMapView,
    cols: Seq<(Seq<char>, DatumView)>,
    res: Resolve,
    t: TableView,
    n: nat,
)
    requires
        sound(t, n),
        apply::row_spec(rd, map, cols, res) is Ok,
        table::row_fits(t, apply::row_spec(rd, map, cols, res)->Ok_0),
    ensures
        told_row(
            rd,
            map,
            cols,
            table::table_pushed(t, apply::row_spec(rd, map, cols, res)->Ok_0),
            n as int,
            match res {
                Resolve::Row(o, p) => Some((o, p)),
                Resolve::Nowhere => None,
            },
        ),
{
    let row = apply::row_spec(rd, map, cols, res)->Ok_0;
    let t2 = table::table_pushed(t, row);
    lemma_pushed(t, n, row);
    lemma_scalars(rd, cols, map.scalar_cols, 0, res, Map::empty());
    lemma_labels(cols, map.label_cols, 0, res, Map::empty());
    lemma_key(rd, cols, map.key_parts, 0, res, Seq::empty());
    assert forall|c: Seq<char>| #[trigger] t2.contains_key(c) implies match t2[c] {
        ColumnView::Scalar(_) | ColumnView::Dict { .. } => told(
            rd,
            cols,
            c,
            cell(t2, c, n as int),
            held(res, c),
        ),
        ColumnView::Key { .. } => cell(t2, c, n as int) matches Cell::Key(key) && key.len()
            == map.key_parts.len() && forall|j: int|
            0 <= j < key.len() ==> told(
                rd,
                cols,
                map.key_parts[j],
                Cell::Number(#[trigger] key[j]),
                held(res, map.key_parts[j]),
            ),
    } by {
        assert(t.contains_key(c));
        match t[c] {
            ColumnView::Scalar(_) => {
                assert(row.scalars.contains_key(c));
                lemma_scalar_told(rd, cols, c, res, row.scalars[c]);
            },
            ColumnView::Dict { .. } => {
                assert(row.labels.contains_key(c));
                lemma_label_told(rd, cols, c, res, row.labels[c]);
            },
            ColumnView::Key { .. } => {
                assert(row.keys.contains_key(c));
                let key = row.keys[c];
                assert forall|j: int| 0 <= j < key.len() implies told(
                    rd,
                    cols,
                    map.key_parts[j],
                    Cell::Number(#[trigger] key[j]),
                    held(res, map.key_parts[j]),
                ) by {
                    lemma_scalar_told(rd, cols, map.key_parts[j], res, key[j]);
                }
            },
        }
    }
}

// ---------------------------------------------------------------------- laws

/// An applied insert leaves every row as it was and puts one row behind
/// them, which holds in each column what the tuple says there.
pub proof fn insert_appends_the_row_it_tells_of(
    rd: Reading,
    map: TableMapView,
    t: TableView,
    n: nat,
    cols: Seq<(Seq<char>, DatumView)>,
)
    requires
        sound(t, n),
        apply::change_effect(rd, map, t, ChangeView::Insert(map.table, cols)).1 == Ok::<
            bool,
            Seq<char>,
        >(true),
    ensures
        ({
            let t2 = apply::change_effect(rd, map, t, ChangeView::Insert(map.table, cols)).0;
            &&& rows_but(t, t2, n, n as int)
            &&& told_row(rd, map, cols, t2, n as int, None)
        }),
{
    let row = apply::row_spec(rd, map, cols, Resolve::Nowhere)->Ok_0;
    lemma_pushed(t, n, row);
    lemma_told_row(rd, map, cols, Resolve::Nowhere, t, n);
}

/// An applied delete takes out the one row with the tuple's key; the others
/// keep their order and what they hold.
pub proof fn delete_takes_out_the_row_with_the_key(
    rd: Reading,
    map: TableMapView,
    t: TableView,
    n: nat,
    cols: Seq<(Seq<char>, DatumView)>,
    text: Seq<char>,
    key: u64,
) -> (p: int)
    requires
        sound(t, n),
        names_differ(cols),
        cols.contains((map.pk, DatumView::Text(text))),
        rd(text) matches Ok(x) && x.0 == key,
        apply::change_effect(rd, map, t, ChangeView::Delete(map.table, cols)).1 == Ok::<
            bool,
            Seq<char>,
        >(true),
    ensures
        only_row(map, t, n, key, p),
        rows_but(
            t,
            apply::change_effect(rd, map, t, ChangeView::Delete(map.table, cols)).0,
            n,
            p,
        ),
{
    let d = DatumView::Text(text);
    let k = choose|k: int| 0 <= k < cols.len() && cols[k] == (map.pk, d);
    lemma_datum(cols, map.pk, d, 0, k);
    lemma_without(map, t, n, key)
}

/// An applied update takes out the one row with the key (the old tuple's
/// where one was sent, else the new one's) and puts one row behind the
/// others, which holds in each column what the new tuple says there: the
/// value that its text stands for or, in a column that is marked unchanged,
/// what the row with the key held.
pub proof fn update_replaces_the_row_with_the_key(
    rd: Reading,
    map: TableMapView,
    t: TableView,
    n: nat,
    before: Option<Seq<(Seq<char>, DatumView)>>,
    after: Seq<(Seq<char>, DatumView)>,
    text: Seq<char>,
    key: u64,
) -> (p: int)
    requires
        sound(t, n),
        ({
            let cols = match before {
                Some(old_cols) => old_cols,
                None => after,
            };
            names_differ(cols) && cols.contains((map.pk, DatumView::Text(text)))
        }),
        rd(text) matches Ok(x) && x.0 == key,
        apply::change_effect(rd, map, t, ChangeView::Update(map.table, before, after)).1 == Ok::<
            bool,
            Seq<char>,
        >(true),
    ensures
        only_row(map, t, n, key, p),
        ({
            let t2 = apply::change_effect(
                rd,
                map,
                t,
                ChangeView::Update(map.table, before, after),
            ).0;
            &&& rows_but(t, t2, n, p)
            &&& told_row(rd, map, after, t2, n - 1, Some((t, p)))
        }),
{
    let cols = match before {
        Some(old_cols) => old_cols,
        None => after,
    };
    let d = DatumView::Text(text);
    let k = choose|k: int| 0 <= k < cols.len() && cols[k] == (map.pk, d);
    lemma_datum(cols, map.pk, d, 0, k);
    let num = apply::number_spec(rd, text, map.pk)->Ok_0;
    let row = apply::updated_row_spec(rd, map, t, num, after)->Ok_0;
    let v = table::scalar_of(t, map.pk)->0;
    let p = lemma_without(map, t, n, key);
    let t1 = table::table_without(t, v, key);
    let t2 = table::table_pushed(t1, row);
    let m = (n - 1) as nat;
    lemma_pushed(t1, m, row);
    assert forall|i: int| 0 <= i < v.len() implies (bits::num_eq(#[trigger] v[i], key) <==> i == p) by {
        assert(t.contains_key(map.pk));
        assert(cell(t, map.pk, i) == Cell::Number(v[i]));
    }
    lemma_found(v, key, 0, p);
    if apply::has_unchanged(after) {
        lemma_told_row(rd, map, after, Resolve::Row(t, p), t1, m);
    } else {
        lemma_told_row(rd, map, after, Resolve::Nowhere, t1, m);
        lemma_nothing_unchanged(rd, map, after, t2, m as int, (t, p));
    }
    assert forall|c: Seq<char>, i: int| t.contains_key(c) && 0 <= i < n && i != p implies cell(
        t2,
        c,
        if i < p {
            i
        } else {
            i - 1
        },
    ) == #[trigger] cell(t, c, i) by {
        let j = if i < p {
            i
        } else {
            i - 1
        };
        assert(t1.contains_key(c));
        assert(cell(t2, c, j) == cell(t1, c, j));
    }
    assert(same_columns(t, t2)) by {
        assert forall|c: Seq<char>| #[trigger] t.contains_key(c) implies (t[c] is Scalar
            <==> t2[c] is Scalar) && (t[c] is Dict <==> t2[c] is Dict) && (t[c] is Key
            <==> t2[c] is Key) by {
            assert(t1.contains_key(c));
        }
    }
    p
}

proof fn lemma_nothing_unchanged(
    rd: Reading,
    map: TableMapView,
    cols: Seq<(Seq<char>, DatumView)>,
    t2: TableView,
    i: int,
    before: (TableView, int),
)
    requires
        told_row(rd, map, cols, t2, i, None),
    ensures
        told_row(rd, map, cols, t2, i, Some(before)),
{
    assert forall|c: Seq<char>, now: Cell| told(rd, cols, c, now, None) implies #[trigger] told(
        rd,
        cols,
        c,
        now,
        Some(cell(before.0, c, before.1)),
    ) by {
        let d = choose|d: DatumView| #[trigger]
            cols.contains((c, d)) && match d {
                DatumView::Text(v) => match now {
                    Cell::Number(x) => rd(v) matches Ok(n) && n.0 == x,
                    Cell::Label(l) => l == v,
                    Cell::Key(_) => false,
                },
                DatumView::Unchanged => None::<Cell> == Some(now),
                DatumView::Null => false,
            };
        assert(cols.contains((c, d)));
    }
    assert forall|c: Seq<char>| #[trigger] t2.contains_key(c) && t2[c] is Key implies cell(t2, c, i) matches Cell::Key(
        key,
    ) && key.len() == map.key_parts.len() && forall|j: int|
        0 <= j < key.len() ==> told(
            rd,
            cols,
            map.key_parts[j],
            Cell::Number(#[trigger] key[j]),
            Some(cell(before.0, map.key_parts[j], before.1)),
        ) by {
        let key = cell(t2, c, i)->Key_0;
        assert forall|j: int| 0 <= j < key.len() implies told(
            rd,
            cols,
            map.key_parts[j],
            Cell::Number(#[trigger] key[j]),
            Some(cell(before.0, map.key_parts[j], before.1)),
        ) by {
            assert(told(rd, cols, map.key_parts[j], Cell::Number(key[j]), None));
        }
    }
}

/// An update that keeps the key keeps every column that it marks unchanged:
/// read at that key, it holds the same before and after. Exactly one row has
/// the key, before and after.
pub proof fn unchanged_columns_read_the_same_at_the_key(
    rd: Reading,
    map: TableMapView,
    t: TableView,
    n: nat,
    after: Seq<(Seq<char>, DatumView)>,
    text: Seq<char>,
    key: u64,
    c: Seq<char>,
) -> (r: (int, int))
    requires
        sound(t, n),
        names_differ(after),
        after.contains((map.pk, DatumView::Text(text))),
        rd(text) matches Ok(x) && x.0 == key,
        t.contains_key(c),
        !(t[c] is Key),
        after.contains((c, DatumView::Unchanged)),
        apply::change_effect(rd, map, t, ChangeView::Update(map.table, None, after)).1 == Ok::<
            bool,
            Seq<char>,
        >(true),
    ensures
        ({
            let t2 = apply::change_effect(
                rd,
                map,
                t,
                ChangeView::Update(map.table, None, after),
            ).0;
            &&& only_row(map, t, n, key, r.0)
            &&& only_row(map, t2, n, key, r.1)
            &&& cell(t2, c, r.1) == cell(t, c, r.0)
        }),
{
    let t2 = apply::change_effect(rd, map, t, ChangeView::Update(map.table, None, after)).0;
    let p = update_replaces_the_row_with_the_key(rd, map, t, n, None, after, text, key);
    assert(t2.contains_key(c));
    assert(t2.contains_key(map.pk));
    lemma_told_once(rd, after, c, DatumView::Unchanged, cell(t2, c, n - 1), Some(cell(t, c, p)));
    lemma_told_once(
        rd,
        after,
        map.pk,
        DatumView::Text(text),
        cell(t2, map.pk, n - 1),
        Some(cell(t, map.pk, p)),
    );
    assert(bits::num_eq(key, key)) by {
        assert(cell(t, map.pk, p) matches Cell::Number(x) && bits::num_eq(x, key));
    }
    assert forall|i: int| 0 <= i < n implies (#[trigger] cell(t2, map.pk, i) matches Cell::Number(x)
        && (bits::num_eq(x, key) <==> i == n - 1)) by {
        if i < p {
            assert(cell(t2, map.pk, i) == cell(t, map.pk, i));
        } else if i < n - 1 {
            assert(cell(t2, map.pk, i) == cell(t, map.pk, i + 1));
        }
    }
    (p, n - 1)
}

proof fn lemma_told_once(
    rd: Reading,
    cols: Seq<(Seq<char>, DatumView)>,
    c: Seq<char>,
    d: DatumView,
    now: Cell,
    before: Option<Cell>,
)
    requires
        names_differ(cols),
        cols.contains((c, d)),
        told(rd, cols, c, now, before),
    ensures
        match d {
            DatumView::Text(v) => match now {
                Cell::Number(x) => rd(v) matches Ok(n) && n.0 == x,
                Cell::Label(l) => l == v,
                Cell::Key(_) => false,
            },
            DatumView::Unchanged => before == Some(now),
            DatumView::Null => false,
        },
{
    let e = choose|e: DatumView| #[trigger]
        cols.contains((c, e)) && match e {
            DatumView::Text(v) => match now {
                Cell::Number(x) => rd(v) matches Ok(n) && n.0 == x,
                Cell::Label(l) => l == v,
                Cell::Key(_) => false,
            },
            DatumView::Unchanged => before == Some(now),
            DatumView::Null => false,
        };
    let i = choose|i: int| 0 <= i < cols.len() && cols[i] == (c, d);
    let j = choose|j: int| 0 <= j < cols.len() && cols[j] == (c, e);
    assert(cols[i].0 == c && cols[j].0 == c);
}

/// A transaction of one change does what the change does.
pub proof fn one_change_is_the_whole_transaction(
    rd: Reading,
    map: TableMapView,
    t: TableView,
    c: ChangeView,
    applied: nat,
)
    ensures
        apply::changes_effect(rd, map, t, seq![c], 0, applied) == (match apply::change_effect(
            rd,
            map,
            t,
            c,
        ) {
            (t2, Err(e)) => (t2, Err(e)),
            (t2, Ok(true)) => (t2, Ok(applied + 1)),
            (t2, Ok(false)) => (t2, Ok(applied)),
        }),
{
    reveal_with_fuel(apply::changes_effect, 2);
}

proof fn lemma_changes_split(
    rd: Reading,
    map: TableMapView,
    t: TableView,
    a: Seq<ChangeView>,
    b: Seq<ChangeView>,
    i: int,
    applied: nat,
)
    requires
        0 <= i <= a.len(),
    ensures
        apply::changes_effect(rd, map, t, a + b, i, applied) == (match apply::changes_effect(
            rd,
            map,
            t,
            a,
            i,
            applied,
        ) {
            (t2, Err(e)) => (t2, Err(e)),
            (t2, Ok(k)) => apply::changes_effect(rd, map, t2, b, 0, k),
        }),
    decreases a.len() - i,
{
    if i < a.len() {
        assert((a + b)[i] == a[i]);
        if let (t2, Ok(hit)) = apply::change_effect(rd, map, t, a[i]) {
            let k = if hit {
                applied + 1
            } else {
                applied
            };
            lemma_changes_split(rd, map, t2, a, b, i + 1, k);
        }
    } else {
        lemma_changes_shift(rd, map, t, a, b, 0, applied);
    }
}

proof fn lemma_changes_shift(
    rd: Reading,
    map: TableMapView,
    t: TableView,
    a: Seq<ChangeView>,
    b: Seq<ChangeView>,
    i: int,
    applied: nat,
)
    requires
        0 <= i <= b.len(),
    ensures
        apply::changes_effect(rd, map, t, a + b, a.len() + i, applied) == apply::changes_effect(
            rd,
            map,
            t,
            b,
            i,
            applied,
        ),
    decreases b.len() - i,
{
    if i < b.len() {
        assert((a + b)[a.len() + i] == b[i]);
        if let (t2, Ok(hit)) = apply::change_effect(rd, map, t, b[i]) {
            let k = if hit {
                applied + 1
            } else {
                applied
            };
            lemma_changes_shift(rd, map, t2, a, b, i + 1, k);
        }
    }
}

/// Changes one after the other: the second batch starts where the first
/// left off, and is not reached if the first was refused.
pub proof fn changes_take_effect_in_order(
    rd: Reading,
    map: TableMapView,
    t: TableView,
    a: Seq<ChangeView>,
    b: Seq<ChangeView>,
    applied: nat,
)
    ensures
        apply::changes_effect(rd, map, t, a + b, 0, applied) == (match apply::changes_effect(
            rd,
            map,
            t,
            a,
            0,
            applied,
        ) {
            (t2, Err(e)) => (t2, Err(e)),
            (t2, Ok(k)) => apply::changes_effect(rd, map, t2, b, 0, k),
        }),
{
    lemma_changes_split(rd, map, t, a, b, 0, applied);
}

// ------------------------------------------------------------------ snapshot

/// What a row holds where the snapshot's cell has this text.
pub open spec fn stands_for(rd: Reading, text: Option<Seq<char>>, now: Cell) -> bool {
    text matches Some(v) && match now {
        Cell::Number(x) => rd(v) matches Ok(n) && n.0 == x,
        Cell::Label(l) => l == v,
        Cell::Key(_) => false,
    }
}

/// Column `c` of the table is the snapshot's column of that name.
pub open spec fn drawn(
    rd: Reading,
    map: TableMapView,
    cols: Seq<Seq<char>>,
    rows: Seq<Seq<Option<Seq<char>>>>,
    column: ColumnView,
    c: Seq<char>,
) -> bool {
    &&& table::column_len(column) == rows.len()
    &&& forall|k: int, r: int|
        0 <= k < cols.len() && 0 <= r < rows.len() ==> match held_at(column, r) {
            Cell::Key(key) => key.len() == map.key_parts.len() && forall|j: int|
                0 <= j < key.len() && map.key_parts[j] == cols[k] ==> stands_for(
                    rd,
                    rows[r][k],
                    Cell::Number(#[trigger] key[j]),
                ),
            now => cols[k] == c ==> stands_for(rd, #[trigger] rows[r][k], now),
        }
}

proof fn lemma_place(cols: Seq<Seq<char>>, c: Seq<char>, k: int)
    requires
        cols.no_duplicates(),
        source::column_at(cols, c, 0) == Some(k),
    ensures
        0 <= k < cols.len(),
        forall|j: int| 0 <= j < cols.len() && #[trigger] cols[j] == c ==> j == k,
{
    source::lemma_column_at(cols, c, 0);
}

proof fn lemma_snapshot_scalars(
    rd: Reading,
    rows: Seq<Seq<Option<Seq<char>>>>,
    i: int,
    c: Seq<char>,
    r: int,
    acc: Seq<u64>,
)
    requires
        0 <= i,
        0 <= r == acc.len() <= rows.len(),
        apply::snapshot_scalars(rd, rows, i, c, r, acc) is Ok,
        forall|q: int| 0 <= q < r ==> stands_for(rd, rows[q][i], Cell::Number(#[trigger] acc[q])),
    ensures
        ({
            let v = apply::snapshot_scalars(rd, rows, i, c, r, acc)->Ok_0;
            &&& v.len() == rows.len()
            &&& forall|q: int|
                0 <= q < v.len() ==> stands_for(rd, rows[q][i], Cell::Number(#[trigger] v[q]))
        }),
    decreases rows.len() - r,
{
    if r < rows.len() {
        let text = apply::cell_spec(rows[r], i)->Ok_0;
        let n = apply::number_spec(rd, text, c)->Ok_0;
        lemma_snapshot_scalars(rd, rows, i, c, r + 1, acc.push(n.0));
    }
}

proof fn lemma_snapshot_labels(
    rd: Reading,
    rows: Seq<Seq<Option<Seq<char>>>>,
    i: int,
    r: int,
    codes: Seq<u32>,
    dict: Seq<Seq<char>>,
)
    requires
        0 <= i,
        0 <= r == codes.len() <= rows.len() <= u32::MAX,
        dict.len() <= r,
        apply::snapshot_labels(rows, i, r, codes, dict) is Ok,
        forall|q: int|
            0 <= q < r ==> #[trigger] codes[q] < dict.len() && stands_for(
                rd,
                rows[q][i],
                Cell::Label(dict[codes[q] as int]),
            ),
    ensures
        ({
            let (cs, ds) = apply::snapshot_labels(rows, i, r, codes, dict)->Ok_0;
            &&& cs.len() == rows.len()
            &&& forall|q: int|
                0 <= q < cs.len() ==> #[trigger] cs[q] < ds.len() && stands_for(
                    rd,
                    rows[q][i],
                    Cell::Label(ds[cs[q] as int]),
                )
        }),
    decreases rows.len() - r,
{
    if r < rows.len() {
        let label = apply::cell_spec(rows[r], i)->Ok_0;
        let (d, k) = table::dict_code(dict, label);
        source::lemma_column_at(dict, label, 0);
        assert(0 <= k < d.len() <= r + 1 && d[k] == label);
        let next = codes.push(k as u32);
        assert forall|q: int| 0 <= q < r + 1 implies #[trigger] next[q] < d.len() && stands_for(
            rd,
            rows[q][i],
            Cell::Label(d[next[q] as int]),
        ) by {
            if q < r {
                assert(next[q] == codes[q]);
                assert(codes[q] < dict.len());
            }
        }
        lemma_snapshot_labels(rd, rows, i, r + 1, next, d);
    }
}

proof fn lemma_snapshot_scalar_cols(
    rd: Reading,
    map: TableMapView,
    cols: Seq<Seq<char>>,
    rows: Seq<Seq<Option<Seq<char>>>>,
    i: int,
    t: TableView,
)
    requires
        0 <= i,
        cols.no_duplicates(),
        apply::snapshot_scalar_cols(rd, cols, rows, map.scalar_cols, i, t) is Ok,
        forall|c: Seq<char>| #[trigger] t.contains_key(c) ==> drawn(rd, map, cols, rows, t[c], c),
    ensures
        ({
            let t2 = apply::snapshot_scalar_cols(rd, cols, rows, map.scalar_cols, i, t)->Ok_0;
            forall|c: Seq<char>| #[trigger] t2.contains_key(c) ==> drawn(rd, map, cols, rows, t2[c], c)
        }),
    decreases map.scalar_cols.len() - i,
{
    if i < map.scalar_cols.len() {
        let c = map.scalar_cols[i];
        let k = apply::snapshot_column(cols, c)->Ok_0;
        lemma_place(cols, c, k);
        let v = apply::snapshot_scalars(rd, rows, k, c, 0, Seq::empty())->Ok_0;
        lemma_snapshot_scalars(rd, rows, k, c, 0, Seq::empty());
        let next = t.insert(c, ColumnView::Scalar(v));
        assert(drawn(rd, map, cols, rows, next[c], c)) by {
            assert forall|q: int, r: int|
                0 <= q < cols.len() && 0 <= r < rows.len() && cols[q] == c implies stands_for(
                rd,
                #[trigger] rows[r][q],
                cell(next, c, r),
            ) by {
                assert(stands_for(rd, rows[r][k], Cell::Number(v[r])));
            }
        }
        assert forall|n: Seq<char>| #[trigger] next.contains_key(n) implies drawn(
            rd,
            map,
            cols,
            rows,
            next[n],
            n,
        ) by {
            if n != c {
                assert(t.contains_key(n));
            }
        }
        lemma_snapshot_scalar_cols(rd, map, cols, rows, i + 1, next);
    }
}

proof fn lemma_snapshot_label_cols(
    rd: Reading,
    map: TableMapView,
    cols: Seq<Seq<char>>,
    rows: Seq<Seq<Option<Seq<char>>>>,
    i: int,
    t: TableView,
)
    requires
        0 <= i,
        cols.no_duplicates(),
        rows.len() <= u32::MAX,
        apply::snapshot_label_cols(cols, rows, map.label_cols, i, t) is Ok,
        forall|c: Seq<char>| #[trigger] t.contains_key(c) ==> drawn(rd, map, cols, rows, t[c], c),
    ensures
        ({
            let t2 = apply::snapshot_label_cols(cols, rows, map.label_cols, i, t)->Ok_0;
            forall|c: Seq<char>| #[trigger] t2.contains_key(c) ==> drawn(rd, map, cols, rows, t2[c], c)
        }),
    decreases map.label_cols.len() - i,
{
    if i < map.label_cols.len() {
        let c = map.label_cols[i];
        let k = apply::snapshot_column(cols, c)->Ok_0;
        lemma_place(cols, c, k);
        let (codes, dict) = apply::snapshot_labels(rows, k, 0, Seq::empty(), Seq::empty())->Ok_0;
        lemma_snapshot_labels(rd, rows, k, 0, Seq::empty(), Seq::empty());
        let next = t.insert(c, ColumnView::Dict { codes, dict });
        assert(drawn(rd, map, cols, rows, next[c], c)) by {
            assert forall|q: int, r: int|
                0 <= q < cols.len() && 0 <= r < rows.len() && cols[q] == c implies stands_for(
                rd,
                #[trigger] rows[r][q],
                cell(next, c, r),
            ) by {
                assert(codes[r] < dict.len());
            }
        }
        assert forall|n: Seq<char>| #[trigger] next.contains_key(n) implies drawn(
            rd,
            map,
            cols,
            rows,
            next[n],
            n,
        ) by {
            if n != c {
                assert(t.contains_key(n));
            }
        }
        lemma_snapshot_label_cols(rd, map, cols, rows, i + 1, next);
    }
}

proof fn lemma_snapshot_places(cols: Seq<Seq<char>>, names: Seq<Seq<char>>, i: int, acc: Seq<int>)
    requires
        0 <= i == acc.len() <= names.len(),
        apply::snapshot_places(cols, names, i, acc) is Ok,
        forall|j: int|
            0 <= j < i ==> source::column_at(cols, names[j], 0) == Some(#[trigger] acc[j]),
    ensures
        ({
            let ps = apply::snapshot_places(cols, names, i, acc)->Ok_0;
            &&& ps.len() == names.len()
            &&& forall|j: int|
                0 <= j < ps.len() ==> source::column_at(cols, names[j], 0) == Some(#[trigger] ps[j])
        }),
    decreases names.len() - i,
{
    if i < names.len() {
        let k = apply::snapshot_column(cols, names[i])->Ok_0;
        lemma_snapshot_places(cols, names, i + 1, acc.push(k));
    }
}

/// The parts of a key are those of the row.
spec fn keyed(
    rd: Reading,
    row: Seq<Option<Seq<char>>>,
    places: Seq<int>,
    key: Seq<u64>,
    n: int,
) -> bool {
    &&& key.len() == n
    &&& forall|j: int| 0 <= j < n ==> stands_for(rd, row[places[j]], Cell::Number(#[trigger] key[j]))
}

proof fn lemma_snapshot_key(
    rd: Reading,
    row: Seq<Option<Seq<char>>>,
    places: Seq<int>,
    parts: Seq<Seq<char>>,
    j: int,
    acc: Seq<u64>,
)
    requires
        0 <= j <= places.len(),
        apply::snapshot_key(rd, row, places, parts, j, acc) is Ok,
        keyed(rd, row, places, acc, j),
    ensures
        keyed(
            rd,
            row,
            places,
            apply::snapshot_key(rd, row, places, parts, j, acc)->Ok_0,
            places.len() as int,
        ),
    decreases places.len() - j,
{
    if j < places.len() {
        let text = apply::cell_spec(row, places[j])->Ok_0;
        let n = apply::number_spec(rd, text, parts[j])->Ok_0;
        lemma_snapshot_key(rd, row, places, parts, j + 1, acc.push(n.0));
    }
}

proof fn lemma_snapshot_keys(
    rd: Reading,
    rows: Seq<Seq<Option<Seq<char>>>>,
    places: Seq<int>,
    parts: Seq<Seq<char>>,
    r: int,
    acc: Seq<Seq<u64>>,
)
    requires
        0 <= r == acc.len() <= rows.len(),
        apply::snapshot_keys(rd, rows, places, parts, r, acc) is Ok,
        forall|q: int|
            0 <= q < r ==> keyed(rd, rows[q], places, #[trigger] acc[q], places.len() as int),
    ensures
        ({
            let keys = apply::snapshot_keys(rd, rows, places, parts, r, acc)->Ok_0;
            &&& keys.len() == rows.len()
            &&& forall|q: int|
                0 <= q < keys.len() ==> keyed(
                    rd,
                    rows[q],
                    places,
                    #[trigger] keys[q],
                    places.len() as int,
                )
        }),
    decreases rows.len() - r,
{
    if r < rows.len() {
        let key = apply::snapshot_key(rd, rows[r], places, parts, 0, Seq::empty())->Ok_0;
        lemma_snapshot_key(rd, rows[r], places, parts, 0, Seq::empty());
        lemma_snapshot_keys(rd, rows, places, parts, r + 1, acc.push(key));
    }
}

/// A snapshot's table has the snapshot's rows, in order: each holds in every
/// column what the cell under that column's name says, and in the key column
/// the numbers under the names of the key's parts.
pub proof fn snapshot_table_holds_the_rows(
    rd: Reading,
    map: TableMapView,
    cols: Seq<Seq<char>>,
    rows: Seq<Seq<Option<Seq<char>>>>,
    c: Seq<char>,
)
    requires
        cols.no_duplicates(),
        rows.len() <= u32::MAX,
        apply::snapshot_table(rd, map, cols, rows) is Ok,
        apply::snapshot_table(rd, map, cols, rows)->Ok_0.contains_key(c),
    ensures
        drawn(rd, map, cols, rows, apply::snapshot_table(rd, map, cols, rows)->Ok_0[c], c),
{
    let t = apply::snapshot_table(rd, map, cols, rows)->Ok_0;
    lemma_snapshot_scalar_cols(rd, map, cols, rows, 0, Map::empty());
    let t1 = apply::snapshot_scalar_cols(rd, cols, rows, map.scalar_cols, 0, Map::empty())->Ok_0;
    lemma_snapshot_label_cols(rd, map, cols, rows, 0, t1);
    let t2 = apply::snapshot_label_cols(cols, rows, map.label_cols, 0, t1)->Ok_0;
    if c != map.key_col {
        assert(t2.contains_key(c));
    } else {
        lemma_snapshot_places(cols, map.key_parts, 0, Seq::empty());
        let places = apply::snapshot_places(cols, map.key_parts, 0, Seq::empty())->Ok_0;
        lemma_snapshot_keys(rd, rows, places, map.key_parts, 0, Seq::empty());
        let keys = apply::snapshot_keys(rd, rows, places, map.key_parts, 0, Seq::empty())->Ok_0;
        assert forall|k: int, r: int, j: int|
            0 <= k < cols.len() && 0 <= r < rows.len() && 0 <= j < keys[r].len()
                && map.key_parts[j] == #[trigger] cols[k] implies stands_for(
            rd,
            rows[r][k],
            Cell::Number(#[trigger] keys[r][j]),
        ) by {
            assert(keyed(rd, rows[r], places, keys[r], places.len() as int));
            assert(source::column_at(cols, map.key_parts[j], 0) == Some(places[j]));
            lemma_place(cols, map.key_parts[j], places[j]);
        }
        assert forall|r: int| 0 <= r < rows.len() implies #[trigger] keys[r].len()
            == map.key_parts.len() by {
            assert(keyed(rd, rows[r], places, keys[r], places.len() as int));
        }
    }
}

/// How many of the changes are to a relation.
pub open spec fn changes_to(changes: Seq<ChangeView>, table: Seq<char>, i: int) -> nat
    decreases changes.len() - i,
{
    if i >= changes.len() {
        0
    } else {
        let rel = match changes[i] {
            ChangeView::Insert(rel, _) => rel,
            ChangeView::Delete(rel, _) => rel,
            ChangeView::Update(rel, _, _) => rel,
        };
        changes_to(changes, table, i + 1) + if rel == table {
            1nat
        } else {
            0
        }
    }
}

proof fn lemma_counted(
    rd: Reading,
    map: TableMapView,
    t: TableView,
    changes: Seq<ChangeView>,
    i: int,
    applied: nat,
)
    requires
        0 <= i,
    ensures
        apply::changes_effect(rd, map, t, changes, i, applied).1 matches Ok(n) ==> n == applied
            + changes_to(changes, map.table, i),
    decreases changes.len() - i,
{
    if i < changes.len() {
        if let (t2, Ok(hit)) = apply::change_effect(rd, map, t, changes[i]) {
            let k = if hit {
                applied + 1
            } else {
                applied
            };
            lemma_counted(rd, map, t2, changes, i + 1, k);
        }
    }
}

/// An applied transaction counts once, and its changes to the mirrored
/// relation count each; those to other relations do not.
pub proof fn applied_transactions_are_counted(rd: Reading, m: apply::MirrorView, tx: source::TxView)
    requires
        tx.end_lsn > m.last_lsn,
        apply::tx_effect(rd, m, tx).1 is Ok,
    ensures
        ({
            let (after, n) = apply::tx_effect(rd, m, tx);
            &&& n == Ok::<nat, Seq<char>>(changes_to(tx.changes, m.map.table, 0))
            &&& after.rows_applied == m.rows_applied + changes_to(tx.changes, m.map.table, 0)
            &&& after.txs_applied == m.txs_applied + 1
            &&& after.last_lsn == tx.end_lsn
            &&& after.map == m.map
            &&& after.table == apply::changes_effect(rd, m.map, m.table, tx.changes, 0, 0).0
        }),
{
    lemma_counted(rd, m.map, m.table, tx.changes, 0, 0);
}

/// A mirror has as many rows as each of its columns.
pub proof fn rows_are_those_of_any_column(m: MirrorView, n: nat, c: Seq<char>)
    requires
        sound(m.table, n),
        m.table.contains_key(m.map.pk),
        m.table.contains_key(c),
    ensures
        apply::n_rows_spec(m) == n,
        match m.table[c] {
            ColumnView::Scalar(v) => v.len() == apply::n_rows_spec(m),
            ColumnView::Dict { codes, .. } => codes.len() == apply::n_rows_spec(m),
            ColumnView::Key { rows, .. } => rows.len() == apply::n_rows_spec(m),
        },
{
}

} // verus!

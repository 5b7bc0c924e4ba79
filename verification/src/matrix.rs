//! A rectangular table of numbers, each as its bit pattern.

use vstd::prelude::*;

use crate::arith;
use crate::bits;
use crate::bits::is_nan;

verus! {

/// A table of numbers, row by row.
#[derive(Debug)]
pub struct Matrix<P> {
    rows: Vec<Vec<P>>,
    cols: usize,
}

/// The numbers of rows and columns of a table.
#[derive(Debug, Clone, Copy)]
pub struct Shape {
    /// The number of rows.
    pub rows: usize,
    /// The number of columns.
    pub cols: usize,
}

/// The rows of a list of rows.
pub open spec fn rows_view<P>(rows: Seq<Vec<P>>) -> Seq<Seq<P>> {
    Seq::new(rows.len(), |i: int| rows[i]@)
}

impl<P> View for Matrix<P> {
    type V = Seq<Seq<P>>;

    closed spec fn view(&self) -> Seq<Seq<P>> {
        rows_view(self.rows@)
    }
}

/// A row of zeros.
pub open spec fn zeros(n: nat) -> Seq<u64> {
    Seq::new(n, |c: int| arith::ZERO)
}

/// No component is NaN.
pub open spec fn present(v: Seq<u64>) -> bool {
    forall|c: int| 0 <= c < v.len() ==> !bits::nan(#[trigger] v[c])
}

impl<P: Copy> Matrix<P> {
    /// The number of columns.
    pub closed spec fn width(&self) -> nat {
        self.cols as nat
    }

    /// Every row has as many numbers as the table has columns.
    pub open spec fn wf(&self) -> bool {
        forall|i: int| 0 <= i < self@.len() ==> (#[trigger] self@[i]).len() == self.width()
    }

    /// A table of these rows; `None` where some row has not `cols` numbers.
    pub fn new(rows: Vec<Vec<P>>, cols: usize) -> (r: Option<Matrix<P>>)
        ensures
            r is Some <==> forall|i: int|
                0 <= i < rows@.len() ==> (#[trigger] rows@[i])@.len() == cols,
            r matches Some(m) ==> m.wf() && m@ == rows_view(rows@) && m.width() == cols,
    {
        let mut i: usize = 0;
        while i < rows.len()
            invariant
                i <= rows@.len(),
                forall|t: int| 0 <= t < i ==> (#[trigger] rows@[t])@.len() == cols,
            decreases rows.len() - i,
        {
            if rows[i].len() != cols {
                assert(rows@[i as int]@.len() != cols);
                return None;
            }
            i += 1;
        }
        Some(Matrix { rows, cols })
    }

    /// A table without rows.
    pub fn empty(cols: usize) -> (m: Matrix<P>)
        ensures
            m.wf(),
            m@.len() == 0,
            m.width() == cols,
    {
        Matrix { rows: Vec::new(), cols }
    }

    /// The number of rows.
    pub fn nrows(&self) -> (n: usize)
        ensures
            n == self@.len(),
    {
        self.rows.len()
    }

    /// The number of columns.
    pub fn ncols(&self) -> (n: usize)
        ensures
            n == self.width(),
    {
        self.cols
    }

    /// One row.
    pub fn row(&self, i: usize) -> (r: &[P])
        requires
            i < self@.len(),
        ensures
            r@ == self@[i as int],
    {
        self.rows[i].as_slice()
    }

    /// One number.
    pub fn at(&self, i: usize, c: usize) -> (x: P)
        requires
            self.wf(),
            i < self@.len(),
            c < self.width(),
        ensures
            x == self@[i as int][c as int],
    {
        assert(self@[i as int].len() == self.width());
        self.rows[i][c]
    }
}

/// True where no component is NaN.
pub fn is_present(v: &[u64]) -> (r: bool)
    ensures
        r == present(v@),
{
    let mut c: usize = 0;
    while c < v.len()
        invariant
            c <= v@.len(),
            forall|x: int| 0 <= x < c ==> !bits::nan(#[trigger] v@[x]),
        decreases v.len() - c,
    {
        if is_nan(v[c]) {
            assert(bits::nan(v@[c as int]));
            return false;
        }
        c += 1;
    }
    true
}

/// A list of `n` zeros.
pub fn zero_row(n: usize) -> (r: Vec<u64>)
    ensures
        r@ == zeros(n as nat),
{
    let mut r: Vec<u64> = Vec::new();
    let mut c: usize = 0;
    while c < n
        invariant
            c <= n,
            r@ == zeros(c as nat),
        decreases n - c,
    {
        r.push(arith::ZERO);
        c += 1;
        assert(r@ =~= zeros(c as nat));
    }
    r
}

} // verus!

//! Keys of one width, stored one after the other in one list.

use vstd::prelude::*;

use crate::footprint;
use crate::footprint::capacity;

verus! {

/// A list of keys.
#[derive(Debug)]
pub struct Keys {
    width: usize,
    count: usize,
    cells: Vec<u32>,
}

impl View for Keys {
    type V = Seq<Seq<u32>>;

    closed spec fn view(&self) -> Seq<Seq<u32>> {
        Seq::new(
            self.count as nat,
            |i: int| self.cells@.subrange(i * self.width, (i + 1) * self.width),
        )
    }
}

/// The numbers of `i` keys come before those of key `i` end.
proof fn lemma_place(i: int, count: int, width: int)
    requires
        0 <= i < count,
        0 <= width,
    ensures
        0 <= i * width <= (i + 1) * width <= count * width,
        (i + 1) * width == i * width + width,
{
    assert(0 <= i * width) by (nonlinear_arith)
        requires
            0 <= i,
            0 <= width,
    ;
    assert((i + 1) * width == i * width + width) by (nonlinear_arith);
    assert((i + 1) * width <= count * width) by (nonlinear_arith)
        requires
            i + 1 <= count,
            0 <= width,
    ;
}

impl Keys {
    /// The width of each key.
    pub closed spec fn width(&self) -> nat {
        self.width as nat
    }

    /// As many numbers as the keys take.
    pub closed spec fn wf(&self) -> bool {
        self.cells@.len() == self.count * self.width
    }

    /// No keys yet.
    pub fn new(width: usize) -> (k: Keys)
        ensures
            k.wf(),
            k.width() == width,
            k@ == Seq::<Seq<u32>>::empty(),
    {
        let k = Keys { width, count: 0, cells: Vec::new() };
        assert(k@ =~= Seq::<Seq<u32>>::empty());
        k
    }

    /// The key at `i`.
    pub fn row(&self, i: usize) -> (r: &[u32])
        requires
            self.wf(),
            i < self@.len(),
        ensures
            r@ == self@[i as int],
    {
        proof {
            lemma_place(i as int, self.count as int, self.width as int);
            assert(self.cells@.len() == self.cells.len());
        }
        let from: usize = i * self.width;
        vstd::slice::slice_subrange(self.cells.as_slice(), from, from + self.width)
    }

    /// Add a key behind the others.
    pub fn push(&mut self, key: &[u32])
        requires
            old(self).wf(),
            old(self)@.len() < usize::MAX,
            key@.len() == old(self).width(),
        ensures
            final(self).wf(),
            final(self).width() == old(self).width(),
            final(self)@ == old(self)@.push(key@),
    {
        let ghost before = *self;
        self.cells.extend_from_slice(key);
        self.count = self.count + 1;
        proof {
            let w = self.width as int;
            assert(self.cells@ =~= before.cells@ + key@);
            assert(self.count * w == before.count * w + w) by (nonlinear_arith)
                requires
                    self.count == before.count + 1,
            ;
            assert forall|i: int| 0 <= i < self@.len() implies #[trigger] self@[i] =~= before@.push(
                key@,
            )[i] by {
                lemma_place(i, self.count as int, w);
                if i < before.count {
                    lemma_place(i, before.count as int, w);
                }
            }
            assert(self@ =~= before@.push(key@));
        }
    }

    /// The same keys once more.
    pub fn copy(&self) -> (k: Keys)
        ensures
            k@ == self@,
            k.width() == self.width(),
            self.wf() ==> k.wf(),
    {
        let cells = self.cells.clone();
        assert(cells@ =~= self.cells@);
        Keys { width: self.width, count: self.count, cells }
    }

    /// How many numbers there is room for without allocating again.
    pub fn reserved(&self) -> (n: usize)
        requires
            self.wf(),
        ensures
            footprint::holds::<u32>(n, self@.len() * self.width()),
    {
        capacity(&self.cells)
    }
}

} // verus!

//! Rough accounting of the memory that an index holds.

use vstd::prelude::*;

verus! {

/// There is room for `cap` values in a list of `len`: no fewer than it
/// holds, and no more than the `isize::MAX` bytes that a list can take.
pub open spec fn holds<T>(cap: usize, len: nat) -> bool {
    len <= cap && cap * vstd::layout::size_of::<T>() <= isize::MAX
}

/// `Vec::capacity`: how many elements fit without allocating again, at
/// least the length, in no more than `isize::MAX` bytes. How many more than
/// the length is the allocator's affair and not stated.
#[verifier::external_body]
pub(crate) fn capacity<T>(v: &Vec<T>) -> (n: usize)
    ensures
        holds::<T>(n, v@.len()),
{
    v.capacity()
}

/// What fits in a `usize` of `x`: all of it, or the largest number.
pub open spec fn capped(x: nat) -> usize {
    if x <= usize::MAX {
        x as usize
    } else {
        usize::MAX
    }
}

/// `b` plus `n` times `each`, or the largest number.
pub fn grown(b: usize, n: usize, each: usize) -> (r: usize)
    ensures
        r == capped((b + n * each) as nat),
{
    assert(n * each >= 0) by (nonlinear_arith);
    match n.checked_mul(each) {
        Some(x) => b.saturating_add(x),
        None => usize::MAX,
    }
}

/// The room that one node's links have.
#[derive(Debug)]
pub struct NodeReserved {
    /// Layers that fit in the node's list of layers.
    pub layers: usize,
    /// Neighbours that fit in each layer's list.
    pub lists: Vec<usize>,
}

/// The room that the lists of an index have.
#[derive(Debug)]
pub struct Reserved {
    /// Numbers that fit in the storage of keys.
    pub keys: usize,
    /// Ids that fit.
    pub ids: usize,
    /// Tombstones that fit.
    pub deleted: usize,
    /// The room of each node's links.
    pub nodes: Vec<NodeReserved>,
}

/// Four bytes for each neighbour that fits.
pub open spec fn list_bytes(lists: Seq<usize>) -> nat
    decreases lists.len(),
{
    if lists.len() == 0 {
        0
    } else {
        list_bytes(lists.drop_last()) + 4 * (lists.last() as nat)
    }
}

/// The bytes of the nodes' links: for each node a header, a header for each
/// layer that fits, and the layers' neighbours.
pub open spec fn link_bytes(nodes: Seq<NodeReserved>) -> nat
    decreases nodes.len(),
{
    if nodes.len() == 0 {
        0
    } else {
        let x = nodes.last();
        link_bytes(nodes.drop_last()) + 24 + 24 * (x.layers as nat) + list_bytes(x.lists@)
    }
}

/// The bytes of an index with this room and `nodes` entries in its id map:
/// four for each number of a key and each id, one for each tombstone,
/// sixteen for each entry, and the links.
pub open spec fn reserved_bytes(r: Reserved, nodes: nat) -> nat {
    4 * (r.keys as nat) + 4 * (r.ids as nat) + r.deleted as nat + 16 * nodes + link_bytes(r.nodes@)
}

/// The bytes of an index with this room and `nodes` entries in its id map,
/// or the largest number where there are more.
pub fn total_bytes(r: &Reserved, nodes: usize) -> (n: usize)
    ensures
        n == capped(reserved_bytes(*r, nodes as nat)),
{
    let mut b: usize = grown(0, r.keys, 4);
    b = grown(b, r.ids, 4);
    b = grown(b, r.deleted, 1);
    b = grown(b, nodes, 16);
    let ghost fixed: nat = 4 * (r.keys as nat) + 4 * (r.ids as nat) + r.deleted as nat + 16
        * (nodes as nat);
    let mut i: usize = 0;
    while i < r.nodes.len()
        invariant
            i <= r.nodes@.len(),
            b == capped(fixed + link_bytes(r.nodes@.take(i as int))),
        decreases r.nodes.len() - i,
    {
        let x = &r.nodes[i];
        let ghost done: nat = fixed + link_bytes(r.nodes@.take(i as int));
        assert(r.nodes@.take(i + 1).drop_last() =~= r.nodes@.take(i as int));
        b = grown(b, 1, 24);
        b = grown(b, x.layers, 24);
        let mut j: usize = 0;
        while j < x.lists.len()
            invariant
                j <= x.lists@.len(),
                b == capped(done + 24 + 24 * (x.layers as nat) + list_bytes(x.lists@.take(j as int))),
            decreases x.lists.len() - j,
        {
            assert(x.lists@.take(j + 1).drop_last() =~= x.lists@.take(j as int));
            b = grown(b, x.lists[j], 4);
            j += 1;
        }
        assert(x.lists@.take(j as int) =~= x.lists@);
        i += 1;
    }
    assert(r.nodes@.take(i as int) =~= r.nodes@);
    b
}

/// The room of a list of neighbour lists.
pub(crate) fn node_reserved(v: &Vec<Vec<u32>>) -> (r: NodeReserved)
    ensures
        holds::<Vec<u32>>(r.layers, v@.len()),
        r.lists@.len() == v@.len(),
        forall|l: int| 0 <= l < v@.len() ==> holds::<u32>(#[trigger] r.lists@[l], v@[l]@.len()),
{
    let mut lists: Vec<usize> = Vec::new();
    let mut l: usize = 0;
    while l < v.len()
        invariant
            l <= v@.len(),
            lists@.len() == l,
            forall|j: int| 0 <= j < l ==> holds::<u32>(#[trigger] lists@[j], v@[j]@.len()),
        decreases v.len() - l,
    {
        lists.push(capacity(&v[l]));
        l += 1;
    }
    NodeReserved { layers: capacity(v), lists }
}

} // verus!

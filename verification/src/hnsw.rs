//! A navigable-small-world index over single-precision key vectors, with
//! the inner product as similarity.
//!
//! A filter is consulted during the search: nodes that it turns down route
//! but are never returned, and the beam widens until there are enough
//! results. A deleted node is left out of results at once and stays
//! routable. There is no chance in it: levels come from a hash of the id,
//! and every tie breaks on the lower node.

use vstd::prelude::*;

use crate::arith;
use crate::arith::{apply_op, Op};
use crate::beam;
use crate::beam::{greedy_at_layers, put_in, search_layer, Cand};
use crate::bits;
use crate::bits::{eq, lt, lt_32, neg};
use crate::error;
use crate::error::BruceError;
use crate::footprint;
use crate::footprint::{capacity, node_reserved, total_bytes, NodeReserved, Reserved};
use crate::keys::Keys;
use crate::maps;
use crate::maps::{id_map_copy, id_map_get, id_map_insert, new_id_map};
use crate::text;
use crate::text::dec_string;

verus! {

/// Hard cap on layer levels.
pub const LEVEL_CAP: usize = 24;

/// Beam-widening factor under a filter: expansion stops after this many
/// times the beam's width of nodes once there are enough results.
pub const WIDEN_FACTOR: usize = 8;

/// The pattern of `2^-53`.
pub const TINY: u64 = 0x3CA0_0000_0000_0000;

/// One step of the hash that levels are drawn from.
pub open spec fn mixed(seed: u64) -> u64 {
    let a = seed.wrapping_add(0x9E37_79B9_7F4A_7C15);
    let b = (a ^ (a >> 30)).wrapping_mul(0xBF58_476D_1CE4_E5B9);
    let c = (b ^ (b >> 27)).wrapping_mul(0x94D0_49BB_1331_11EB);
    c ^ (c >> 31)
}

/// The hash that levels are drawn from.
pub fn splitmix64(seed: u64) -> (r: u64)
    ensures
        r == mixed(seed),
{
    let mut z: u64 = seed.wrapping_add(0x9E37_79B9_7F4A_7C15);
    z = (z ^ (z >> 30)).wrapping_mul(0xBF58_476D_1CE4_E5B9);
    z = (z ^ (z >> 27)).wrapping_mul(0x94D0_49BB_1331_11EB);
    z ^ (z >> 31)
}

/// The exponential sample that an id draws: `-ln((h + 1) * 2^-53)` with the
/// upper 53 bits `h` of its hash.
pub open spec fn sample(k: arith::Calc, id: u32) -> u64 {
    let h = mixed(id as u64) >> 11;
    let u = k(Op::Times, k(Op::Plus, k(Op::Whole, h, 0), arith::ONE), TINY);
    bits::negated(k(Op::Ln, u, 0))
}

/// The whole part of `x`, no more than `cap`.
pub open spec fn floor_to(k: arith::Calc, x: u64, cap: nat) -> nat
    decreases cap,
{
    if cap == 0 {
        0
    } else {
        let l = floor_to(k, x, (cap - 1) as nat);
        let w = k(Op::Whole, cap as u64, 0);
        if l == cap - 1 && (bits::num_lt(w, x) || bits::num_eq(w, x)) {
            cap
        } else {
            l
        }
    }
}

/// The level of an id: the whole part of its exponential sample, capped.
pub open spec fn level(k: arith::Calc, id: u32) -> nat {
    floor_to(k, sample(k, id), LEVEL_CAP as nat)
}

/// Deterministic level for an external id: geometric with continuation
/// ratio `1/e`.
pub fn level_for<F: Fn(Op, u64, u64) -> u64>(id: u32, f: &F) -> (l: usize)
    requires
        arith::steady(*f),
    ensures
        l == level(arith::computes(*f), id),
        l <= LEVEL_CAP,
{
    let ghost k = arith::computes(*f);
    let h: u64 = splitmix64(id as u64) >> 11;
    let a: u64 = apply_op(f, Op::Whole, h, 0);
    let b: u64 = apply_op(f, Op::Plus, a, arith::ONE);
    let u: u64 = apply_op(f, Op::Times, b, TINY);
    let x: u64 = neg(apply_op(f, Op::Ln, u, 0));
    let mut l: usize = 0;
    let mut c: usize = 0;
    while c < LEVEL_CAP
        invariant
            c <= LEVEL_CAP,
            l <= c,
            arith::steady(*f),
            k == arith::computes(*f),
            l == floor_to(k, x, c as nat),
        decreases LEVEL_CAP - c,
    {
        c += 1;
        let w: u64 = apply_op(f, Op::Whole, c as u64, 0);
        if l == c - 1 && (lt(w, x) || eq(w, x)) {
            l = c;
        }
    }
    l
}

/// The inner product, summed in order.
pub open spec fn product(g: arith::Calc32, a: Seq<u32>, b: Seq<u32>) -> u32
    decreases a.len(),
{
    if a.len() == 0 {
        0
    } else {
        let i = a.len() - 1;
        g(Op::Plus, product(g, a.drop_last(), b), g(Op::Times, a[i], b[i]))
    }
}

/// The inner product, summed in order.
pub fn dot<G: Fn(Op, u32, u32) -> u32>(a: &[u32], b: &[u32], g: &G) -> (r: u32)
    requires
        a@.len() == b@.len(),
        arith::steady(*g),
    ensures
        r == product(arith::computes(*g), a@, b@),
{
    let ghost k = arith::computes(*g);
    let mut acc: u32 = 0;
    let mut i: usize = 0;
    while i < a.len()
        invariant
            i <= a@.len(),
            a@.len() == b@.len(),
            arith::steady(*g),
            k == arith::computes(*g),
            acc == product(k, a@.take(i as int), b@),
        decreases a.len() - i,
    {
        let p: u32 = apply_op(g, Op::Times, a[i], b[i]);
        acc = apply_op(g, Op::Plus, acc, p);
        assert(a@.take(i + 1).drop_last() =~= a@.take(i as int));
        i += 1;
    }
    assert(a@.take(i as int) =~= a@);
    acc
}

/// Build-time neighbour-selection policy. It shapes the graph as it is
/// built; searches are the same under both.
#[derive(Clone, Copy, Debug, PartialEq, Eq, Structural)]
pub enum NeighborSelection {
    /// Keep the best-scoring candidates.
    KeepBest,
    /// Walk the candidates best first and take one in only if it is no
    /// closer to any neighbour already taken in than to the base node.
    Diversity,
}

impl Default for NeighborSelection {
    fn default() -> (s: Self)
        ensures
            s == NeighborSelection::KeepBest,
    {
        NeighborSelection::KeepBest
    }
}

/// The nodes of a list of candidates.
pub open spec fn nodes(c: Seq<Cand>) -> Seq<u32> {
    Seq::new(c.len(), |i: int| c[i].node)
}

/// Some node taken in is closer to `c` than the base is.
pub open spec fn dominated(
    g: arith::Calc32,
    keys: Seq<Seq<u32>>,
    c: u32,
    base: u32,
    taken: Seq<u32>,
) -> bool {
    exists|i: int|
        0 <= i < taken.len() && bits::num_lt_32(
            product(g, keys[c as int], keys[base as int]),
            product(g, keys[c as int], keys[(#[trigger] taken[i]) as int]),
        )
}

/// The candidates that the diversity policy takes in.
pub open spec fn spread_out(
    g: arith::Calc32,
    keys: Seq<Seq<u32>>,
    cands: Seq<Cand>,
    base: u32,
    cap: nat,
) -> Seq<u32>
    decreases cands.len(),
{
    if cands.len() == 0 {
        Seq::empty()
    } else {
        let taken = spread_out(g, keys, cands.drop_last(), base, cap);
        let c = cands.last().node;
        if taken.len() >= cap || c == base || dominated(g, keys, c, base, taken) {
            taken
        } else {
            taken.push(c)
        }
    }
}

/// The neighbours that a policy selects from candidates, best first.
pub open spec fn selected(
    g: arith::Calc32,
    keys: Seq<Seq<u32>>,
    policy: NeighborSelection,
    cands: Seq<Cand>,
    base: u32,
    cap: nat,
) -> Seq<u32> {
    if cands.len() <= cap {
        nodes(cands)
    } else {
        match policy {
            NeighborSelection::KeepBest => nodes(cands.take(cap as int)),
            NeighborSelection::Diversity => spread_out(g, keys, cands, base, cap),
        }
    }
}

/// The index as a mathematical value.
pub struct Graph {
    /// The dimension of keys.
    pub d: nat,
    /// The degree bound of upper layers.
    pub m: nat,
    /// The degree bound of layer 0.
    pub m0: nat,
    /// The beam width of construction.
    pub ef: nat,
    /// The selection policy.
    pub selection: NeighborSelection,
    /// The key of each node.
    pub keys: Seq<Seq<u32>>,
    /// The external id of each node.
    pub ids: Seq<u32>,
    /// The neighbours of each node in each layer.
    pub links: Seq<Seq<Seq<u32>>>,
    /// The tombstones.
    pub deleted: Seq<bool>,
    /// The node that searches start from.
    pub entry: Option<u32>,
    /// The highest layer.
    pub top: nat,
}

/// Hierarchical navigable-small-world index.
#[derive(Debug)]
pub struct HnswIndex {
    d: usize,
    m: usize,
    m0: usize,
    ef_construction: usize,
    selection: NeighborSelection,
    keys: Keys,
    ids: Vec<u32>,
    links: Vec<Vec<Vec<u32>>>,
    deleted: Vec<bool>,
    deleted_count: usize,
    id_to_node: ahash::AHashMap<u32, u32>,
    entry: Option<u32>,
    top_level: usize,
}

impl View for HnswIndex {
    type V = Graph;

    closed spec fn view(&self) -> Graph {
        Graph {
            d: self.d as nat,
            m: self.m as nat,
            m0: self.m0 as nat,
            ef: self.ef_construction as nat,
            selection: self.selection,
            keys: self.keys@,
            ids: self.ids@,
            links: beam::links_view(self.links@),
            deleted: self.deleted@,
            entry: self.entry,
            top: self.top_level as nat,
        }
    }
}

/// The room of an index's lists: each has at least what it holds, and no
/// more than a list can have.
pub open spec fn reserves(r: Reserved, g: Graph) -> bool {
    &&& footprint::holds::<u32>(r.keys, g.ids.len() * g.d)
    &&& footprint::holds::<u32>(r.ids, g.ids.len())
    &&& footprint::holds::<bool>(r.deleted, g.deleted.len())
    &&& r.nodes@.len() == g.links.len()
    &&& forall|x: int|
        0 <= x < g.links.len() ==> node_reserves(#[trigger] r.nodes@[x], g.links[x])
}

/// The room of one node's links.
pub open spec fn node_reserves(r: NodeReserved, links: Seq<Seq<u32>>) -> bool {
    &&& footprint::holds::<Vec<u32>>(r.layers, links.len())
    &&& r.lists@.len() == links.len()
    &&& forall|l: int|
        0 <= l < links.len() ==> footprint::holds::<u32>(#[trigger] r.lists@[l], links[l].len())
}

/// How many are set.
pub open spec fn tally(v: Seq<bool>) -> nat
    decreases v.len(),
{
    if v.len() == 0 {
        0
    } else {
        tally(v.drop_last()) + (if v.last() {
            1nat
        } else {
            0nat
        })
    }
}

/// How many of the nodes are deleted, in parts of one; zero where there is
/// none.
pub open spec fn fraction_deleted(k: arith::Calc, g: Graph) -> u64 {
    if g.ids.len() == 0 {
        arith::ZERO
    } else {
        k(
            Op::Over,
            k(Op::Whole, tally(g.deleted) as u64, 0),
            k(Op::Whole, g.ids.len() as u64, 0),
        )
    }
}

/// The graph with node `x` deleted.
pub open spec fn without(g: Graph, x: int) -> Graph {
    Graph { deleted: g.deleted.update(x, true), ..g }
}

/// Every link leads to another node that reaches the link's layer.
pub open spec fn sound_links(links: Seq<Seq<Seq<u32>>>) -> bool {
    forall|x: int, l: int, i: int|
        0 <= x < links.len() && 0 <= l < links[x].len() && 0 <= i < links[x][l].len() ==> {
            let y = #[trigger] links[x][l][i];
            y < links.len() && y != x && l < links[y as int].len()
        }
}

/// No node has more neighbours in a layer than the layer allows.
pub open spec fn bounded(g: Graph) -> bool {
    bounded_links(g.links, g.m, g.m0)
}

/// The degree bound of a layer.
pub open spec fn degree(g: Graph, layer: int) -> nat {
    if layer == 0 {
        g.m0
    } else {
        g.m
    }
}

impl Graph {
    /// The index is well formed.
    pub open spec fn wf(self) -> bool {
        let n = self.ids.len();
        &&& self.m >= 2
        &&& self.m0 == 2 * self.m
        &&& self.ef >= 1
        &&& n <= u32::MAX
        &&& self.keys.len() == n
        &&& self.links.len() == n
        &&& self.deleted.len() == n
        &&& forall|x: int| 0 <= x < n ==> (#[trigger] self.keys[x]).len() == self.d
        &&& forall|x: int, y: int| 0 <= x < y < n ==> self.ids[x] != self.ids[y]
        &&& forall|x: int| 0 <= x < n ==> 1 <= (#[trigger] self.links[x]).len() <= self.top + 1
        &&& sound_links(self.links)
        &&& bounded(self)
        &&& n == 0 <==> self.entry is None
        &&& self.entry matches Some(e) ==> e < n && self.links[e as int].len() == self.top + 1
    }

    /// The number of live nodes.
    pub open spec fn live(self) -> nat {
        (self.ids.len() - tally(self.deleted)) as nat
    }
}

/// An index without nodes.
pub open spec fn fresh(d: nat, m: nat, ef: nat) -> Graph {
    let m = if m < 2 {
        2
    } else {
        m
    };
    Graph {
        d,
        m,
        m0: 2 * m,
        ef: if ef < 1 {
            1
        } else {
            ef
        },
        selection: NeighborSelection::KeepBest,
        keys: Seq::empty(),
        ids: Seq::empty(),
        links: Seq::empty(),
        deleted: Seq::empty(),
        entry: None,
        top: 0,
    }
}

proof fn lemma_closed(links: Seq<Seq<Seq<u32>>>)
    requires
        sound_links(links),
    ensures
        beam::closed_links(links),
{
    assert forall|x: int, l: int, i: int|
        0 <= x < links.len() && 0 <= l < links[x].len() && 0 <= i < links[x][l].len() implies #[trigger] links[x][l][i]
        < links.len() by {}
}

proof fn lemma_tally(v: Seq<bool>)
    ensures
        tally(v) <= v.len(),
    decreases v.len(),
{
    if v.len() > 0 {
        lemma_tally(v.drop_last());
    }
}

proof fn lemma_tally_set(v: Seq<bool>, x: int)
    requires
        0 <= x < v.len(),
        !v[x],
    ensures
        tally(v.update(x, true)) == tally(v) + 1,
    decreases v.len(),
{
    let w = v.update(x, true);
    if x == v.len() - 1 {
        assert(w.drop_last() =~= v.drop_last());
    } else {
        lemma_tally_set(v.drop_last(), x);
        assert(w.drop_last() =~= v.drop_last().update(x, true));
    }
}

impl Clone for HnswIndex {
    fn clone(&self) -> (ix: Self)
        ensures
            ix@ == self@,
            self.wf() ==> ix.wf(),
    {
        let mut links: Vec<Vec<Vec<u32>>> = Vec::new();
        let mut x: usize = 0;
        while x < self.links.len()
            invariant
                x <= self.links@.len(),
                links@.len() == x,
                forall|y: int|
                    0 <= y < x ==> (#[trigger] beam::links_view(links@)[y])
                        == beam::links_view(self.links@)[y],
            decreases self.links.len() - x,
        {
            let ghost before = links@;
            links.push(lists_copy(&self.links[x]));
            x += 1;
            assert forall|y: int| 0 <= y < x implies (#[trigger] beam::links_view(links@)[y])
                == beam::links_view(self.links@)[y] by {
                if y < x - 1 {
                    assert(beam::links_view(links@)[y] == beam::links_view(before)[y]);
                }
            }
        }
        assert(beam::links_view(links@) =~= beam::links_view(self.links@));
        let ix = HnswIndex {
            d: self.d,
            m: self.m,
            m0: self.m0,
            ef_construction: self.ef_construction,
            selection: self.selection,
            keys: self.keys.copy(),
            ids: self.ids.clone(),
            links,
            deleted: self.deleted.clone(),
            deleted_count: self.deleted_count,
            id_to_node: id_map_copy(&self.id_to_node),
            entry: self.entry,
            top_level: self.top_level,
        };
        assert(ix.ids@ =~= self.ids@);
        assert(ix.deleted@ =~= self.deleted@);
        ix
    }
}

fn lists_copy(v: &Vec<Vec<u32>>) -> (r: Vec<Vec<u32>>)
    ensures
        Seq::new(r@.len(), |l: int| r@[l]@) == Seq::new(v@.len(), |l: int| v@[l]@),
{
    let mut r: Vec<Vec<u32>> = Vec::new();
    let mut l: usize = 0;
    while l < v.len()
        invariant
            l <= v@.len(),
            r@.len() == l,
            forall|y: int| 0 <= y < l ==> (#[trigger] r@[y])@ == v@[y]@,
        decreases v.len() - l,
    {
        let list = v[l].clone();
        assert(list@ =~= v@[l as int]@);
        r.push(list);
        l += 1;
    }
    assert(Seq::new(r@.len(), |l: int| r@[l]@) =~= Seq::new(v@.len(), |l: int| v@[l]@));
    r
}

impl HnswIndex {
    /// The index is well formed, and its id lookup and tombstone count agree
    /// with it.
    pub closed spec fn wf(&self) -> bool {
        let ids = maps::id_map(self.id_to_node);
        &&& self@.wf()
        &&& self.keys.wf() && self.keys.width() == self.d
        &&& self.deleted_count == tally(self.deleted@)
        &&& forall|id: u32| #[trigger]
            ids.contains_key(id) ==> ids[id] < self.ids@.len() && self.ids@[ids[id] as int] == id
        &&& forall|x: int|
            0 <= x < self.ids@.len() ==> ids.contains_key(#[trigger] self.ids@[x])
                && ids[self.ids@[x]] == x
    }

    /// The graph of a well-formed index is well formed: what the laws of
    /// searches ask for.
    pub proof fn lemma_graph_is_well_formed(&self)
        requires
            self.wf(),
        ensures
            self@.wf(),
    {
    }

    /// New empty index over `d`-dimensional keys. `m` is the degree bound of
    /// upper layers (layer 0 allows twice that); `ef_construction` is the
    /// beam width of construction. Values are raised to at least 2 and 1.
    pub fn new(d: usize, m: usize, ef_construction: usize) -> (ix: HnswIndex)
        requires
            m <= usize::MAX / 2,
        ensures
            ix.wf(),
            ix@ == fresh(d as nat, m as nat, ef_construction as nat),
    {
        let m: usize = if m < 2 {
            2
        } else {
            m
        };
        let ix = HnswIndex {
            d,
            m,
            m0: 2 * m,
            ef_construction: if ef_construction < 1 {
                1
            } else {
                ef_construction
            },
            selection: NeighborSelection::KeepBest,
            keys: Keys::new(d),
            ids: Vec::new(),
            links: Vec::new(),
            deleted: Vec::new(),
            deleted_count: 0,
            id_to_node: new_id_map(),
            entry: None,
            top_level: 0,
        };
        assert(ix@.links =~= Seq::<Seq<Seq<u32>>>::empty());
        ix
    }

    /// A new index with degree bound 16 and construction beam 128.
    pub fn with_defaults(d: usize) -> (ix: HnswIndex)
        ensures
            ix.wf(),
            ix@ == fresh(d as nat, 16, 128),
    {
        HnswIndex::new(d, 16, 128)
    }

    /// Set the build-time neighbour-selection policy. It must be set before
    /// the first insert, as it shapes the graph; on an index that holds
    /// anything it is an error, and nothing changes.
    pub fn set_selection(&mut self, s: NeighborSelection) -> (r: Result<(), BruceError>)
        requires
            old(self).wf(),
        ensures
            final(self).wf(),
            if old(self)@.ids.len() > 0 {
                error::fails(
                    r,
                    error::BruceErrorView::InvalidArgument(
                        "neighbor selection must be set before the first insert (it shapes the graph at build time; rebuild to change it)"@,
                    ),
                ) && final(self)@ == old(self)@
            } else {
                r is Ok && final(self)@ == (Graph { selection: s, ..old(self)@ })
            },
    {
        if self.ids.len() > 0 {
            return Err(
                BruceError::InvalidArgument(
                    String::from_str(
                        "neighbor selection must be set before the first insert (it shapes the graph at build time; rebuild to change it)",
                    ),
                ),
            );
        }
        self.selection = s;
        Ok(())
    }

    /// The build-time neighbour-selection policy in force.
    pub fn selection(&self) -> (s: NeighborSelection)
        ensures
            s == self@.selection,
    {
        self.selection
    }

    /// Key dimension fixed at construction.
    pub fn dim(&self) -> (d: usize)
        ensures
            d == self@.d,
    {
        self.d
    }

    /// Number of live vectors.
    pub fn len(&self) -> (n: usize)
        requires
            self.wf(),
        ensures
            n == self@.live(),
    {
        proof {
            lemma_tally(self.deleted@);
        }
        self.ids.len() - self.deleted_count
    }

    /// True when no live vector remains.
    pub fn is_empty(&self) -> (r: bool)
        requires
            self.wf(),
        ensures
            r == (self@.live() == 0),
    {
        self.len() == 0
    }

    /// Fraction of ever-inserted nodes that are deleted; zero where there is
    /// none.
    pub fn tombstone_fraction<F: Fn(Op, u64, u64) -> u64>(&self, f: &F) -> (x: u64)
        requires
            self.wf(),
            arith::steady(*f),
        ensures
            x == fraction_deleted(arith::computes(*f), self@),
    {
        if self.ids.len() == 0 {
            return arith::ZERO;
        }
        proof {
            lemma_tally(self.deleted@);
        }
        let a: u64 = apply_op(f, Op::Whole, self.deleted_count as u64, 0);
        let b: u64 = apply_op(f, Op::Whole, self.ids.len() as u64, 0);
        apply_op(f, Op::Over, a, b)
    }

    /// Rough accounting of the heap memory that the index holds, in bytes:
    /// key storage, adjacency lists with their headers, id map. What is
    /// counted is the room that the lists have, at least what they hold; how
    /// much more was reserved is the allocator's affair and not stated.
    pub fn memory_bytes(&self) -> (n: usize)
        requires
            self.wf(),
        ensures
            exists|r: Reserved| #[trigger]
                reserves(r, self@) && n == footprint::capped(
                    footprint::reserved_bytes(r, self@.ids.len()),
                ),
    {
        let mut nodes: Vec<NodeReserved> = Vec::new();
        let mut x: usize = 0;
        while x < self.links.len()
            invariant
                x <= self.links@.len(),
                nodes@.len() == x,
                forall|y: int|
                    0 <= y < x ==> node_reserves(
                        #[trigger] nodes@[y],
                        beam::links_view(self.links@)[y],
                    ),
            decreases self.links.len() - x,
        {
            let room = node_reserved(&self.links[x]);
            assert(node_reserves(room, beam::links_view(self.links@)[x as int]));
            nodes.push(room);
            x += 1;
        }
        let r = Reserved {
            keys: self.keys.reserved(),
            ids: capacity(&self.ids),
            deleted: capacity(&self.deleted),
            nodes,
        };
        assert(reserves(r, self@));
        total_bytes(&r, self.ids.len())
    }

    /// Delete `id`: it is left out of all future results at once, and stays
    /// routable until the index is rebuilt.
    pub fn delete(&mut self, id: u32) -> (r: Result<(), BruceError>)
        requires
            old(self).wf(),
        ensures
            final(self).wf(),
            match place(old(self)@, id) {
                Some(x) => r is Ok && final(self)@ == without(old(self)@, x),
                None => error::fails(
                    r,
                    error::BruceErrorView::KeyNotFound(text::dec(id as nat)),
                ) && final(self)@ == old(self)@,
            },
    {
        let at = id_map_get(&self.id_to_node, id);
        if let Some(n) = at {
            let x: usize = n as usize;
            proof {
                assert(maps::id_map(self.id_to_node).contains_key(id));
            }
            if !self.deleted[x] {
                proof {
                    lemma_tally_set(self.deleted@, x as int);
                    lemma_tally(self.deleted@.update(x as int, true));
                    lemma_place(self@, id, x as int);
                }
                self.deleted.set(x, true);
                self.deleted_count = self.deleted_count + 1;
                return Ok(());
            }
        }
        proof {
            if place(self@, id) is Some {
                let x = place(self@, id)->0;
                lemma_place_some(self@, id);
                assert(maps::id_map(self.id_to_node).contains_key(self.ids@[x]));
            }
        }
        Err(BruceError::KeyNotFound(dec_string(id as u64)))
    }
}

/// The live node of an id.
pub open spec fn place(g: Graph, id: u32) -> Option<int> {
    if exists|x: int| 0 <= x < g.ids.len() && #[trigger] g.ids[x] == id && !g.deleted[x] {
        Some(choose|x: int| 0 <= x < g.ids.len() && #[trigger] g.ids[x] == id && !g.deleted[x])
    } else {
        None
    }
}

proof fn lemma_place_some(g: Graph, id: u32)
    requires
        place(g, id) is Some,
    ensures
        ({
            let x = place(g, id)->0;
            0 <= x < g.ids.len() && g.ids[x] == id && !g.deleted[x]
        }),
{
}

proof fn lemma_place(g: Graph, id: u32, x: int)
    requires
        g.wf(),
        0 <= x < g.ids.len(),
        g.ids[x] == id,
        !g.deleted[x],
    ensures
        place(g, id) == Some(x),
{
    lemma_place_some(g, id);
    let y = place(g, id)->0;
    if x < y {
        assert(g.ids[x] != g.ids[y]);
    } else if y < x {
        assert(g.ids[y] != g.ids[x]);
    }
}

// -------------------------------------------------------------- selection

/// Every node selected is one of the candidates.
proof fn lemma_spread(
    g: arith::Calc32,
    keys: Seq<Seq<u32>>,
    cands: Seq<Cand>,
    base: u32,
    cap: nat,
)
    ensures
        spread_out(g, keys, cands, base, cap).len() <= cap,
        forall|i: int|
            0 <= i < spread_out(g, keys, cands, base, cap).len() ==> nodes(cands).contains(
                #[trigger] spread_out(g, keys, cands, base, cap)[i],
            ),
    decreases cands.len(),
{
    if cands.len() > 0 {
        let r = cands.drop_last();
        lemma_spread(g, keys, r, base, cap);
        let t = spread_out(g, keys, r, base, cap);
        let a = spread_out(g, keys, cands, base, cap);
        assert forall|i: int| 0 <= i < a.len() implies nodes(cands).contains(#[trigger] a[i]) by {
            if i < t.len() {
                assert(a[i] == t[i]);
                let j = nodes(r).index_of(t[i]);
                assert(nodes(cands)[j] == t[i]);
            } else {
                assert(nodes(cands)[cands.len() - 1] == a[i]);
            }
        }
    }
}

/// A selection holds candidates alone, and no more than it may.
pub proof fn selection_is_from_the_candidates(
    g: arith::Calc32,
    keys: Seq<Seq<u32>>,
    policy: NeighborSelection,
    cands: Seq<Cand>,
    base: u32,
    cap: nat,
)
    ensures
        selected(g, keys, policy, cands, base, cap).len() <= cap,
        forall|i: int|
            0 <= i < selected(g, keys, policy, cands, base, cap).len() ==> nodes(cands).contains(
                #[trigger] selected(g, keys, policy, cands, base, cap)[i],
            ),
{
    lemma_spread(g, keys, cands, base, cap);
    let a = selected(g, keys, policy, cands, base, cap);
    if cands.len() <= cap {
        assert forall|i: int| 0 <= i < a.len() implies nodes(cands).contains(#[trigger] a[i]) by {
            assert(nodes(cands)[i] == a[i]);
        }
    } else if policy == NeighborSelection::KeepBest {
        assert forall|i: int| 0 <= i < a.len() implies nodes(cands).contains(#[trigger] a[i]) by {
            assert(nodes(cands)[i] == a[i]);
        }
    }
}

/// A candidate that scores the same against a neighbour taken in as against
/// the base is taken in: ties are kept.
pub proof fn ties_are_taken_in(
    g: arith::Calc32,
    keys: Seq<Seq<u32>>,
    cands: Seq<Cand>,
    base: u32,
    cap: nat,
)
    requires
        cands.len() > 0,
        cands.last().node != base,
        spread_out(g, keys, cands.drop_last(), base, cap).len() < cap,
        forall|i: int|
            0 <= i < spread_out(g, keys, cands.drop_last(), base, cap).len() ==> product(
                g,
                keys[cands.last().node as int],
                keys[(#[trigger] spread_out(g, keys, cands.drop_last(), base, cap)[i]) as int],
            ) == product(g, keys[cands.last().node as int], keys[base as int]),
    ensures
        spread_out(g, keys, cands, base, cap).last() == cands.last().node,
{
}

fn nodes_of(cands: &Vec<Cand>, n: usize) -> (out: Vec<u32>)
    requires
        n <= cands@.len(),
    ensures
        out@ == nodes(cands@.take(n as int)),
{
    let mut out: Vec<u32> = Vec::new();
    let mut i: usize = 0;
    while i < n
        invariant
            i <= n <= cands@.len(),
            out@ == nodes(cands@.take(i as int)),
        decreases n - i,
    {
        out.push(cands[i].node);
        i += 1;
        assert(out@ =~= nodes(cands@.take(i as int)));
    }
    out
}

fn choose_neighbors<G: Fn(Op, u32, u32) -> u32>(
    keys: &Keys,
    policy: NeighborSelection,
    cands: &Vec<Cand>,
    base: u32,
    cap: usize,
    g: &G,
    d: Ghost<nat>,
) -> (out: Vec<u32>)
    requires
        arith::steady(*g),
        keys.wf(),
        base < keys@.len(),
        forall|x: int| 0 <= x < keys@.len() ==> (#[trigger] keys@[x]).len() == d@,
        forall|i: int| 0 <= i < cands@.len() ==> (#[trigger] cands@[i]).node < keys@.len(),
    ensures
        out@ == selected(
            arith::computes(*g),
            keys@,
            policy,
            cands@,
            base,
            cap as nat,
        ),
{
    let ghost k = arith::computes(*g);
    let ghost kv = keys@;
    if cands.len() <= cap {
        assert(cands@.take(cands@.len() as int) =~= cands@);
        return nodes_of(cands, cands.len());
    }
    match policy {
        NeighborSelection::KeepBest => nodes_of(cands, cap),
        NeighborSelection::Diversity => {
            let mut out: Vec<u32> = Vec::new();
            let mut i: usize = 0;
            while i < cands.len()
                invariant
                    i <= cands@.len(),
                    arith::steady(*g),
                    k == arith::computes(*g),
                    kv == keys@,
                    keys.wf(),
                    base < keys@.len(),
                    forall|x: int| 0 <= x < keys@.len() ==> (#[trigger] keys@[x]).len() == d@,
                    forall|t: int|
                        0 <= t < cands@.len() ==> (#[trigger] cands@[t]).node < keys@.len(),
                    out@ == spread_out(k, kv, cands@.take(i as int), base, cap as nat),
                    forall|t: int| 0 <= t < out@.len() ==> #[trigger] out@[t] < keys@.len(),
                decreases cands.len() - i,
            {
                let c: u32 = cands[i].node;
                assert(cands@[i as int].node < keys@.len());
                assert(cands@.take(i + 1).drop_last() =~= cands@.take(i as int));
                i += 1;
                if out.len() < cap && c != base {
                    let key_c = keys.row(c as usize);
                    assert(keys@[c as int].len() == d@);
                    assert(keys@[base as int].len() == d@);
                    let to_base: u32 = dot(
                        key_c,
                        keys.row(base as usize),
                        g,
                    );
                    let mut out_done: bool = false;
                    let mut t: usize = 0;
                    while t < out.len() && !out_done
                        invariant
                            t <= out@.len(),
                            arith::steady(*g),
                            k == arith::computes(*g),
                            kv == keys@,
                            keys.wf(),
                            c < keys@.len(),
                            key_c@ == kv[c as int],
                            forall|x: int|
                                0 <= x < keys@.len() ==> (#[trigger] keys@[x]).len() == d@,
                            forall|y: int| 0 <= y < out@.len() ==> #[trigger] out@[y] < keys@.len(),
                            to_base == product(k, kv[c as int], kv[base as int]),
                            !out_done ==> forall|y: int|
                                0 <= y < t ==> !bits::num_lt_32(
                                    to_base,
                                    product(k, kv[c as int], kv[(#[trigger] out@[y]) as int]),
                                ),
                            out_done ==> dominated(k, kv, c, base, out@),
                        decreases out.len() - t,
                    {
                        assert(out@[t as int] < keys@.len());
                        let r: usize = out[t] as usize;
                        assert(keys@[r as int].len() == d@);
                        assert(keys@[c as int].len() == d@);
                        let near: u32 = dot(key_c, keys.row(r), g);
                        if lt_32(to_base, near) {
                            out_done = true;
                        }
                        t += 1;
                    }
                    if !out_done {
                        out.push(c);
                    }
                }
            }
            assert(cands@.take(i as int) =~= cands@);
            out
        },
    }
}

impl HnswIndex {
    /// Apply the neighbour-selection policy to `cands`, best first for
    /// `base`: at most `cap` nodes in the same order.
    pub fn select_neighbors<G: Fn(Op, u32, u32) -> u32>(
        &self,
        cands: &Vec<Cand>,
        base: u32,
        cap: usize,
        g: &G,
    ) -> (out: Vec<u32>)
        requires
            self.wf(),
            arith::steady(*g),
            base < self@.ids.len(),
            forall|i: int| 0 <= i < cands@.len() ==> (#[trigger] cands@[i]).node < self@.ids.len(),
        ensures
            out@ == selected(
                arith::computes(*g),
                self@.keys,
                self@.selection,
                cands@,
                base,
                cap as nat,
            ),
    {
        assert forall|x: int| 0 <= x < self.keys@.len() implies (#[trigger] self.keys@[x]).len()
            == self.d as nat by {
            assert(self@.keys[x].len() == self@.d);
        }
        choose_neighbors(
            &self.keys,
            self.selection,
            cands,
            base,
            cap,
            g,
            Ghost(self.d as nat),
        )
    }

    /// The score of a node against a query.
    pub fn score<G: Fn(Op, u32, u32) -> u32>(&self, q: &[u32], node: u32, g: &G) -> (s: u32)
        requires
            self.wf(),
            arith::steady(*g),
            q@.len() == self@.d,
            node < self@.ids.len(),
        ensures
            s == product(arith::computes(*g), q@, self@.keys[node as int]),
    {
        assert(self@.keys[node as int].len() == self@.d);
        dot(q, self.keys.row(node as usize), g)
    }
}

// ----------------------------------------------------------------- insert

/// The links with one list replaced.
pub open spec fn set_list(links: Seq<Seq<Seq<u32>>>, x: int, l: int, list: Seq<u32>) -> Seq<
    Seq<Seq<u32>>,
> {
    links.update(x, links[x].update(l, list))
}

fn set_list_in(links: &mut Vec<Vec<Vec<u32>>>, x: usize, l: usize, list: Vec<u32>)
    requires
        x < old(links)@.len(),
        l < old(links)@[x as int]@.len(),
    ensures
        beam::links_view(final(links)@) == set_list(
            beam::links_view(old(links)@),
            x as int,
            l as int,
            list@,
        ),
{
    let ghost before = links@;
    links[x][l] = list;
    assert forall|y: int| 0 <= y < links@.len() implies beam::links_view(links@)[y] =~= set_list(
        beam::links_view(before),
        x as int,
        l as int,
        list@,
    )[y] by {
        if y != x {
            assert(links@[y] == before[y]);
        }
    }
    assert(beam::links_view(links@) =~= set_list(
        beam::links_view(before),
        x as int,
        l as int,
        list@,
    ));
}

/// The neighbours of `base` with their scores, worst first.
pub open spec fn by_rank(
    g: arith::Calc32,
    keys: Seq<Seq<u32>>,
    base: u32,
    list: Seq<u32>,
) -> Seq<Cand>
    decreases list.len(),
{
    if list.len() == 0 {
        Seq::empty()
    } else {
        let x = list.last();
        beam::put(
            by_rank(g, keys, base, list.drop_last()),
            Cand { score: product(g, keys[base as int], keys[x as int]), node: x },
        )
    }
}

/// The links after `nb` has taken `node` in as a neighbour, its list cut
/// back where it grew too long.
pub open spec fn linked_back(
    g: arith::Calc32,
    keys: Seq<Seq<u32>>,
    policy: NeighborSelection,
    links: Seq<Seq<Seq<u32>>>,
    nb: u32,
    node: u32,
    layer: int,
    cap: nat,
) -> Seq<Seq<Seq<u32>>> {
    let list = links[nb as int][layer].push(node);
    set_list(
        links,
        nb as int,
        layer,
        if list.len() > cap {
            selected(g, keys, policy, by_rank(g, keys, nb, list).reverse(), nb, cap)
        } else {
            list
        },
    )
}

/// The links after each of a list of nodes has taken `node` in.
pub open spec fn linked_back_all(
    g: arith::Calc32,
    keys: Seq<Seq<u32>>,
    policy: NeighborSelection,
    links: Seq<Seq<Seq<u32>>>,
    nbs: Seq<u32>,
    node: u32,
    layer: int,
    cap: nat,
) -> Seq<Seq<Seq<u32>>>
    decreases nbs.len(),
{
    if nbs.len() == 0 {
        links
    } else {
        linked_back(
            g,
            keys,
            policy,
            linked_back_all(g, keys, policy, links, nbs.drop_last(), node, layer, cap),
            nbs.last(),
            node,
            layer,
            cap,
        )
    }
}

/// Ranking a list keeps its nodes.
pub proof fn lemma_by_rank(g: arith::Calc32, keys: Seq<Seq<u32>>, base: u32, list: Seq<u32>)
    ensures
        by_rank(g, keys, base, list).len() == list.len(),
        forall|i: int|
            0 <= i < list.len() ==> list.contains((#[trigger] by_rank(g, keys, base, list)[i]).node),
    decreases list.len(),
{
    if list.len() > 0 {
        let r = list.drop_last();
        lemma_by_rank(g, keys, base, r);
        let x = list.last();
        let c = Cand { score: product(g, keys[base as int], keys[x as int]), node: x };
        let a = by_rank(g, keys, base, r);
        let b = by_rank(g, keys, base, list);
        beam::lemma_put_len(a, c);
        assert forall|i: int| 0 <= i < list.len() implies list.contains((#[trigger] b[i]).node) by {
            assert(b.contains(b[i]));
            if a.contains(b[i]) {
                let j = a.index_of(b[i]);
                assert(r.contains(a[j].node));
                assert(list[r.index_of(a[j].node)] == b[i].node);
            } else {
                assert(list[list.len() - 1] == b[i].node);
            }
        }
    }
}

/// Links under construction: sound, within bounds, and with no link to
/// `node` in any layer up to `layer`.
pub open spec fn growing(
    links: Seq<Seq<Seq<u32>>>,
    node: u32,
    layer: int,
    m: nat,
    m0: nat,
) -> bool {
    &&& node < links.len()
    &&& sound_links(links)
    &&& bounded_links(links, m, m0)
    &&& forall|x: int, l: int, i: int|
        0 <= x < links.len() && 0 <= l < links[x].len() && l <= layer && 0 <= i < links[x][l].len()
            ==> #[trigger] links[x][l][i] != node
}

/// No list is longer than its layer allows.
pub open spec fn bounded_links(links: Seq<Seq<Seq<u32>>>, m: nat, m0: nat) -> bool {
    forall|x: int, l: int|
        0 <= x < links.len() && 0 <= l < links[x].len() ==> (#[trigger] links[x][l]).len() <= (
        if l == 0 {
            m0
        } else {
            m
        })
}

/// Same number of nodes, each of the same height.
pub open spec fn same_heights(a: Seq<Seq<Seq<u32>>>, b: Seq<Seq<Seq<u32>>>) -> bool {
    a.len() == b.len() && forall|x: int|
        0 <= x < a.len() ==> (#[trigger] a[x]).len() == b[x].len()
}

/// Replacing a list by one of sound links within bounds keeps the links
/// sound and within bounds.
proof fn lemma_set_list(
    links: Seq<Seq<Seq<u32>>>,
    x: int,
    l: int,
    list: Seq<u32>,
    node: u32,
    layer: int,
    m: nat,
    m0: nat,
)
    requires
        growing(links, node, layer, m, m0),
        0 <= x < links.len(),
        0 <= l < links[x].len(),
        l > layer || forall|i: int| 0 <= i < list.len() ==> #[trigger] list[i] != node,
        forall|i: int|
            0 <= i < list.len() ==> #[trigger] list[i] < links.len() && list[i] != x && l
                < links[list[i] as int].len(),
        list.len() <= (if l == 0 {
            m0
        } else {
            m
        }),
    ensures
        growing(set_list(links, x, l, list), node, layer, m, m0),
        same_heights(links, set_list(links, x, l, list)),
{
    let a = set_list(links, x, l, list);
    assert forall|y: int, k: int, i: int|
        0 <= y < a.len() && 0 <= k < a[y].len() && 0 <= i < a[y][k].len() implies ({
        let z = #[trigger] a[y][k][i];
        z < a.len() && z != y && k < a[z as int].len() && (k <= layer ==> z != node)
    }) by {
        if y == x && k == l {
            assert(a[y][k][i] == list[i]);
        } else {
            assert(a[y][k][i] == links[y][k][i]);
        }
    }
    assert forall|y: int, k: int| 0 <= y < a.len() && 0 <= k < a[y].len() implies (
    #[trigger] a[y][k]).len() <= (if k == 0 {
        m0
    } else {
        m
    }) by {
        if !(y == x && k == l) {
            assert(a[y][k] == links[y][k]);
        }
    }
}

/// Taking `node` in as a neighbour keeps the links sound and within bounds.
proof fn lemma_linked_back(
    g: arith::Calc32,
    keys: Seq<Seq<u32>>,
    policy: NeighborSelection,
    links: Seq<Seq<Seq<u32>>>,
    nb: u32,
    node: u32,
    layer: int,
    m: nat,
    m0: nat,
)
    requires
        growing(links, node, layer - 1, m, m0),
        0 <= layer < links[node as int].len(),
        nb < links.len(),
        nb != node,
        layer < links[nb as int].len(),
    ensures
        ({
            let cap = if layer == 0 {
                m0
            } else {
                m
            };
            let a = linked_back(g, keys, policy, links, nb, node, layer, cap);
            growing(a, node, layer - 1, m, m0) && same_heights(links, a)
        }),
{
    let cap = if layer == 0 {
        m0
    } else {
        m
    };
    let list = links[nb as int][layer].push(node);
    let ranked = by_rank(g, keys, nb, list);
    let next = if list.len() > cap {
        selected(g, keys, policy, ranked.reverse(), nb, cap)
    } else {
        list
    };
    assert forall|i: int| 0 <= i < list.len() implies #[trigger] list[i] < links.len() && list[i]
        != nb && layer < links[list[i] as int].len() by {
        if i < list.len() - 1 {
            assert(list[i] == links[nb as int][layer][i]);
        }
    }
    assert forall|i: int| 0 <= i < next.len() implies #[trigger] next[i] < links.len() && next[i]
        != nb && layer < links[next[i] as int].len() by {
        if list.len() > cap {
            selection_is_from_the_candidates(g, keys, policy, ranked.reverse(), nb, cap);
            lemma_by_rank(g, keys, nb, list);
            assert(nodes(ranked.reverse()).contains(next[i]));
            let j = nodes(ranked.reverse()).index_of(next[i]);
            assert(ranked.reverse()[j].node == next[i]);
            assert(list.contains(ranked[ranked.len() - 1 - j].node));
            let t = list.index_of(next[i]);
            assert(list[t] == next[i]);
        }
    }
    if list.len() > cap {
        selection_is_from_the_candidates(g, keys, policy, ranked.reverse(), nb, cap);
    }
    lemma_set_list(links, nb as int, layer, next, node, layer - 1, m, m0);
}

fn link_back<G: Fn(Op, u32, u32) -> u32>(
    keys: &Keys,
    policy: NeighborSelection,
    links: &mut Vec<Vec<Vec<u32>>>,
    nb: u32,
    node: u32,
    layer: usize,
    cap: usize,
    g: &G,
    d: Ghost<nat>,
)
    requires
        arith::steady(*g),
        keys.wf(),
        keys@.len() == old(links)@.len(),
        forall|x: int| 0 <= x < keys@.len() ==> (#[trigger] keys@[x]).len() == d@,
        nb < keys@.len(),
        node < keys@.len(),
        layer < beam::links_view(old(links)@)[nb as int].len(),
        beam::closed_links(beam::links_view(old(links)@)),
    ensures
        beam::links_view(final(links)@) == linked_back(
            arith::computes(*g),
            keys@,
            policy,
            beam::links_view(old(links)@),
            nb,
            node,
            layer as int,
            cap as nat,
        ),
{
    let ghost k = arith::computes(*g);
    let ghost kv = keys@;
    let ghost lv = beam::links_view(links@);
    let mut list: Vec<u32> = Vec::new();
    let ghost had = lv[nb as int][layer as int];
    let mut i: usize = 0;
    while i < links[nb as usize][layer].len()
        invariant
            nb < links@.len(),
            layer < links@[nb as int]@.len(),
            had == links@[nb as int]@[layer as int]@,
            i <= had.len(),
            list@ == had.take(i as int),
        decreases had.len() - i,
    {
        list.push(links[nb as usize][layer][i]);
        i += 1;
        assert(list@ =~= had.take(i as int));
    }
    assert(had.take(i as int) =~= had);
    list.push(node);
    let ghost full = had.push(node);
    assert(list@ =~= full);
    if list.len() > cap {
        let mut ranked: Vec<Cand> = Vec::new();
        let mut t: usize = 0;
        assert(keys@[nb as int].len() == d@);
        while t < list.len()
            invariant
                t <= list@.len(),
                list@ == full,
                full == had.push(node),
                lv[nb as int][layer as int] == had,
                nb < lv.len(),
                layer < lv[nb as int].len(),
                beam::closed_links(lv),
                keys@.len() == lv.len(),
                node < keys@.len(),
                arith::steady(*g),
                k == arith::computes(*g),
                kv == keys@,
                keys.wf(),
                forall|x: int| 0 <= x < keys@.len() ==> (#[trigger] keys@[x]).len() == d@,
                ranked@ == by_rank(k, kv, nb, full.take(t as int)),
            decreases list.len() - t,
        {
            let x: u32 = list[t];
            proof {
                if t < had.len() {
                    assert(lv[nb as int][layer as int][t as int] < lv.len());
                }
            }
            assert(full.take(t + 1).drop_last() =~= full.take(t as int));
            assert(keys@[nb as int].len() == d@);
            assert(keys@[x as int].len() == d@);
            let s: u32 = dot(keys.row(nb as usize), keys.row(x as usize), g);
            put_in(&mut ranked, Cand { score: s, node: x });
            t += 1;
        }
        assert(full.take(t as int) =~= full);
        let ghost asc = ranked@;
        let mut best: Vec<Cand> = Vec::new();
        let mut j: usize = ranked.len();
        while j > 0
            invariant
                j <= ranked@.len(),
                ranked@ == asc,
                best@ == asc.reverse().take(asc.len() - j),
            decreases j,
        {
            j -= 1;
            best.push(ranked[j]);
            assert(best@ =~= asc.reverse().take(asc.len() - j));
        }
        assert(best@ =~= asc.reverse());
        proof {
            lemma_by_rank(k, kv, nb, full);
            assert forall|y: int| 0 <= y < best@.len() implies (#[trigger] best@[y]).node
                < keys@.len() by {
                let z = asc[asc.len() - 1 - y].node;
                assert(full.contains(z));
                let q = full.index_of(z);
                if q < had.len() {
                    assert(lv[nb as int][layer as int][q] < lv.len());
                }
            }
        }
        let kept = choose_neighbors(keys, policy, &best, nb, cap, g, d);
        set_list_in(links, nb as usize, layer, kept);
    } else {
        set_list_in(links, nb as usize, layer, list);
    }
}

/// The scores of nodes against a query.
pub open spec fn scorer(g: arith::Calc32, keys: Seq<Seq<u32>>, q: Seq<u32>) -> spec_fn(
    u32,
) -> u32 {
    |x: u32| product(g, q, keys[x as int])
}

/// Every node is accepted.
pub open spec fn everyone() -> spec_fn(u32) -> bool {
    |x: u32| true
}

/// The beam that a new node's neighbours in a layer are selected from, best
/// first.
pub open spec fn build_beam(g: arith::Calc32, gr: Graph, node: u32, cur: Cand, layer: int) -> Seq<
    Cand,
> {
    beam::found(
        gr.links,
        scorer(g, gr.keys, gr.keys[node as int]),
        everyone(),
        beam::Ask { layer, ef: gr.ef, k_floor: 0, budget: usize::MAX as nat },
        cur,
    ).reverse()
}

/// The graph after a new node was linked in one layer.
pub open spec fn linked_layer(
    g: arith::Calc32,
    gr: Graph,
    node: u32,
    cur: Cand,
    layer: int,
) -> Graph {
    let sel = selected(
        g,
        gr.keys,
        gr.selection,
        build_beam(g, gr, node, cur, layer),
        node,
        gr.m,
    );
    Graph {
        links: linked_back_all(
            g,
            gr.keys,
            gr.selection,
            set_list(gr.links, node as int, layer, sel),
            sel,
            node,
            layer,
            degree(gr, layer),
        ),
        ..gr
    }
}

/// Where the search goes on from in the layer below.
pub open spec fn next_entry(
    g: arith::Calc32,
    gr: Graph,
    node: u32,
    cur: Cand,
    layer: int,
) -> Cand {
    let b = build_beam(g, gr, node, cur, layer);
    if b.len() > 0 {
        b[0]
    } else {
        cur
    }
}

/// The graph after a new node was linked in every layer from `layer` down.
pub open spec fn linked_down(
    g: arith::Calc32,
    gr: Graph,
    node: u32,
    cur: Cand,
    layer: int,
) -> Graph
    decreases layer + 1,
{
    if layer < 0 {
        gr
    } else {
        linked_down(
            g,
            linked_layer(g, gr, node, cur, layer),
            node,
            next_entry(g, gr, node, cur, layer),
            layer - 1,
        )
    }
}

/// Empty lists for each layer up to a level.
pub open spec fn bare(level: nat) -> Seq<Seq<u32>> {
    Seq::new(level + 1, |l: int| Seq::empty())
}

/// The graph with one more node that nothing links to yet.
pub open spec fn appended(gr: Graph, id: u32, key: Seq<u32>, level: nat) -> Graph {
    Graph {
        keys: gr.keys.push(key),
        ids: gr.ids.push(id),
        deleted: gr.deleted.push(false),
        links: gr.links.push(bare(level)),
        ..gr
    }
}

/// The graph after an insert.
pub open spec fn inserted(
    g: arith::Calc32,
    gr: Graph,
    id: u32,
    key: Seq<u32>,
    level: nat,
) -> Graph {
    let node = gr.ids.len() as u32;
    let a = appended(gr, id, key, level);
    match gr.entry {
        None => Graph { entry: Some(node), top: level, ..a },
        Some(e) => {
            let sc = scorer(g, a.keys, key);
            let first = beam::cand(sc, e);
            let cur = if gr.top > level {
                beam::descended(a.links, sc, first, gr.top as int, (level + 1) as int)
            } else {
                first
            };
            let start = if level < gr.top {
                level as int
            } else {
                gr.top as int
            };
            let b = linked_down(g, a, node, cur, start);
            if level > gr.top {
                Graph { top: level, entry: Some(node), ..b }
            } else {
                b
            }
        },
    }
}

/// True of the nodes other than `node` that reach `layer`.
pub open spec fn others_at(links: Seq<Seq<Seq<u32>>>, node: u32, layer: int) -> spec_fn(
    u32,
) -> bool {
    |x: u32| x < links.len() && x != node && layer < links[x as int].len()
}

proof fn lemma_linked_back_all(
    g: arith::Calc32,
    keys: Seq<Seq<u32>>,
    policy: NeighborSelection,
    links: Seq<Seq<Seq<u32>>>,
    nbs: Seq<u32>,
    node: u32,
    layer: int,
    m: nat,
    m0: nat,
)
    requires
        growing(links, node, layer - 1, m, m0),
        0 <= layer < links[node as int].len(),
        forall|i: int| 0 <= i < nbs.len() ==> others_at(links, node, layer)(#[trigger] nbs[i]),
    ensures
        ({
            let cap = if layer == 0 {
                m0
            } else {
                m
            };
            let a = linked_back_all(g, keys, policy, links, nbs, node, layer, cap);
            growing(a, node, layer - 1, m, m0) && same_heights(links, a)
        }),
    decreases nbs.len(),
{
    if nbs.len() > 0 {
        let cap = if layer == 0 {
            m0
        } else {
            m
        };
        let r = nbs.drop_last();
        assert forall|i: int| 0 <= i < r.len() implies others_at(links, node, layer)(
            #[trigger] r[i],
        ) by {
            assert(r[i] == nbs[i]);
        }
        lemma_linked_back_all(g, keys, policy, links, r, node, layer, m, m0);
        let a = linked_back_all(g, keys, policy, links, r, node, layer, cap);
        let nb = nbs[nbs.len() - 1];
        assert(others_at(links, node, layer)(nb));
        assert(links[nb as int].len() == a[nb as int].len());
        assert(links[node as int].len() == a[node as int].len());
        lemma_linked_back(g, keys, policy, a, nb, node, layer, m, m0);
        let b = linked_back(g, keys, policy, a, nb, node, layer, cap);
        assert forall|x: int| 0 <= x < links.len() implies (#[trigger] links[x]).len()
            == b[x].len() by {
            assert(a[x].len() == b[x].len());
        }
    }
}

/// The beam of a new node holds other nodes that reach the layer alone.
proof fn lemma_build_beam(g: arith::Calc32, gr: Graph, node: u32, cur: Cand, layer: int)
    requires
        growing(gr.links, node, layer, gr.m, gr.m0),
        layer >= 0,
        others_at(gr.links, node, layer)(cur.node),
    ensures
        forall|i: int|
            0 <= i < build_beam(g, gr, node, cur, layer).len() ==> others_at(
                gr.links,
                node,
                layer,
            )((#[trigger] build_beam(g, gr, node, cur, layer)[i]).node),
{
    let ok = others_at(gr.links, node, layer);
    let links = gr.links;
    assert forall|x: u32, i: int|
        x < links.len() && ok(x) && 0 <= i < beam::neighbors(links, x as int, layer).len() implies ok(
        #[trigger] beam::neighbors(links, x as int, layer)[i],
    ) by {
        assert(links[x as int][layer][i] == beam::neighbors(links, x as int, layer)[i]);
    }
    assert(beam::closed_under(links, layer, ok));
    let ask = beam::Ask { layer, ef: gr.ef, k_floor: 0, budget: usize::MAX as nat };
    let sc = scorer(g, gr.keys, gr.keys[node as int]);
    beam::results_stay_within(links, sc, everyone(), ask, cur, ok);
    let f = beam::found(links, sc, everyone(), ask, cur);
    let b = build_beam(g, gr, node, cur, layer);
    assert forall|i: int| 0 <= i < b.len() implies ok((#[trigger] b[i]).node) by {
        assert(b[i] == f[f.len() - 1 - i]);
    }
}

/// Linking a new node in one layer keeps the links sound and within bounds.
proof fn lemma_linked_layer(g: arith::Calc32, gr: Graph, node: u32, cur: Cand, layer: int)
    requires
        growing(gr.links, node, layer, gr.m, gr.m0),
        gr.m <= gr.m0,
        0 <= layer < gr.links[node as int].len(),
        others_at(gr.links, node, layer)(cur.node),
    ensures
        growing(
            linked_layer(g, gr, node, cur, layer).links,
            node,
            layer - 1,
            gr.m,
            gr.m0,
        ),
        same_heights(gr.links, linked_layer(g, gr, node, cur, layer).links),
        others_at(gr.links, node, layer)(next_entry(g, gr, node, cur, layer).node),
        forall|i: int|
            0 <= i < selected(
                g,
                gr.keys,
                gr.selection,
                build_beam(g, gr, node, cur, layer),
                node,
                gr.m,
            ).len() ==> others_at(gr.links, node, layer)(
                #[trigger] selected(
                    g,
                    gr.keys,
                    gr.selection,
                    build_beam(g, gr, node, cur, layer),
                    node,
                    gr.m,
                )[i],
            ),
{
    lemma_build_beam(g, gr, node, cur, layer);
    let b = build_beam(g, gr, node, cur, layer);
    let sel = selected(g, gr.keys, gr.selection, b, node, gr.m);
    selection_is_from_the_candidates(g, gr.keys, gr.selection, b, node, gr.m);
    assert forall|i: int| 0 <= i < sel.len() implies others_at(gr.links, node, layer)(
        #[trigger] sel[i],
    ) by {
        assert(nodes(b).contains(sel[i]));
        let j = nodes(b).index_of(sel[i]);
        assert(b[j].node == sel[i]);
    }
    if b.len() > 0 {
        assert(others_at(gr.links, node, layer)(b[0].node));
    }
    assert(growing(gr.links, node, layer - 1, gr.m, gr.m0));
    assert forall|i: int| 0 <= i < sel.len() implies #[trigger] sel[i] < gr.links.len() && sel[i]
        != node && layer < gr.links[sel[i] as int].len() by {
        assert(others_at(gr.links, node, layer)(sel[i]));
    }
    lemma_set_list(gr.links, node as int, layer, sel, node, layer - 1, gr.m, gr.m0);
    let a = set_list(gr.links, node as int, layer, sel);
    assert forall|i: int| 0 <= i < sel.len() implies others_at(a, node, layer)(
        #[trigger] sel[i],
    ) by {
        assert(others_at(gr.links, node, layer)(sel[i]));
        assert(gr.links[sel[i] as int].len() == a[sel[i] as int].len());
    }
    assert(gr.links[node as int].len() == a[node as int].len());
    lemma_linked_back_all(g, gr.keys, gr.selection, a, sel, node, layer, gr.m, gr.m0);
    let z = linked_layer(g, gr, node, cur, layer).links;
    assert forall|x: int| 0 <= x < gr.links.len() implies (#[trigger] gr.links[x]).len()
        == z[x].len() by {
        assert(a[x].len() == z[x].len());
    }
}

fn link_in_layer<G: Fn(Op, u32, u32) -> u32>(
    keys: &Keys,
    policy: NeighborSelection,
    links: &mut Vec<Vec<Vec<u32>>>,
    node: u32,
    cur: Cand,
    layer: usize,
    ef: usize,
    m: usize,
    cap: usize,
    g: &G,
    gr: Ghost<Graph>,
) -> (next: Cand)
    requires
        arith::steady(*g),
        ef >= 1,
        gr@.links == beam::links_view(old(links)@),
        gr@.keys == keys@,
        gr@.selection == policy,
        gr@.ef == ef,
        gr@.m == m,
        gr@.m <= gr@.m0,
        cap == degree(gr@, layer as int),
        keys.wf(),
        keys@.len() == old(links)@.len(),
        keys@.len() <= u32::MAX,
        forall|x: int| 0 <= x < keys@.len() ==> (#[trigger] keys@[x]).len() == gr@.d,
        growing(gr@.links, node, layer as int, gr@.m, gr@.m0),
        layer < gr@.links[node as int].len(),
        others_at(gr@.links, node, layer as int)(cur.node),
    ensures
        beam::links_view(final(links)@) == linked_layer(
            arith::computes(*g),
            gr@,
            node,
            cur,
            layer as int,
        ).links,
        next == next_entry(arith::computes(*g), gr@, node, cur, layer as int),
{
    let ghost k = arith::computes(*g);
    let ghost sc = scorer(k, gr@.keys, gr@.keys[node as int]);
    proof {
        lemma_closed(gr@.links);
        lemma_linked_layer(k, gr@, node, cur, layer as int);
    }
    let score = |x: u32| -> (s: u32)
        requires
            x < keys@.len(),
        ensures
            s == product(arith::computes(*g), keys@[node as int], keys@[x as int]),
        {
            assert(keys@[node as int].len() == gr@.d);
            assert(keys@[x as int].len() == gr@.d);
            dot(keys.row(node as usize), keys.row(x as usize), g)
        };
    let all = |x: u32| -> (r: bool)
        ensures
            r,
        { true };
    assert(beam::tells(score, sc, keys@.len()));
    assert(beam::tells(all, everyone(), keys@.len()));
    let found = search_layer(
        links,
        cur,
        layer,
        ef,
        0,
        usize::MAX,
        &score,
        &all,
        Ghost(sc),
        Ghost(everyone()),
    );
    assert(found@ == build_beam(k, gr@, node, cur, layer as int));
    proof {
        lemma_build_beam(k, gr@, node, cur, layer as int);
        assert forall|i: int| 0 <= i < found@.len() implies (#[trigger] found@[i]).node
            < keys@.len() by {
            assert(others_at(gr@.links, node, layer as int)(found@[i].node));
        }
    }
    let sel = choose_neighbors(keys, policy, &found, node, m, g, Ghost(gr@.d));
    let mut own: Vec<u32> = Vec::new();
    let mut i: usize = 0;
    while i < sel.len()
        invariant
            i <= sel@.len(),
            own@ == sel@.take(i as int),
        decreases sel.len() - i,
    {
        own.push(sel[i]);
        i += 1;
        assert(own@ =~= sel@.take(i as int));
    }
    assert(own@ =~= sel@);
    set_list_in(links, node as usize, layer, own);
    let ghost base = beam::links_view(links@);
    proof {
        assert forall|x: int| 0 <= x < sel@.len() implies #[trigger] sel@[x] < gr@.links.len()
            && sel@[x] != node && layer < gr@.links[sel@[x] as int].len() by {
            assert(others_at(gr@.links, node, layer as int)(sel@[x]));
        }
        selection_is_from_the_candidates(k, gr@.keys, policy, found@, node, m as nat);
        lemma_set_list(
            gr@.links,
            node as int,
            layer as int,
            sel@,
            node,
            layer - 1,
            gr@.m,
            gr@.m0,
        );
    }
    let mut t: usize = 0;
    while t < sel.len()
        invariant
            t <= sel@.len(),
            arith::steady(*g),
            k == arith::computes(*g),
            gr@.keys == keys@,
            keys.wf(),
            gr@.selection == policy,
            cap == degree(gr@, layer as int),
            keys@.len() == links@.len(),
            node < keys@.len(),
            forall|x: int| 0 <= x < keys@.len() ==> (#[trigger] keys@[x]).len() == gr@.d,
            base.len() == keys@.len(),
            layer < base[node as int].len(),
            growing(base, node, layer - 1, gr@.m, gr@.m0),
            forall|x: int|
                0 <= x < sel@.len() ==> others_at(base, node, layer as int)(#[trigger] sel@[x]),
            beam::links_view(links@) == linked_back_all(
                k,
                gr@.keys,
                policy,
                base,
                sel@.take(t as int),
                node,
                layer as int,
                cap as nat,
            ),
        decreases sel.len() - t,
    {
        let nb: u32 = sel[t];
        proof {
            let done = sel@.take(t as int);
            assert(sel@.take(t + 1).drop_last() =~= done);
            assert forall|x: int| 0 <= x < done.len() implies others_at(base, node, layer as int)(
                #[trigger] done[x],
            ) by {
                assert(done[x] == sel@[x]);
            }
            lemma_linked_back_all(
                k,
                gr@.keys,
                policy,
                base,
                done,
                node,
                layer as int,
                gr@.m,
                gr@.m0,
            );
            let now = beam::links_view(links@);
            lemma_closed(now);
            assert(others_at(base, node, layer as int)(sel@[t as int]));
            assert(base[nb as int].len() == now[nb as int].len());
        }
        link_back(keys, policy, links, nb, node, layer, cap, g, Ghost(gr@.d));
        assert(links@.len() == beam::links_view(links@).len());
        t += 1;
    }
    assert(sel@.take(t as int) =~= sel@);
    if found.len() > 0 {
        found[0]
    } else {
        cur
    }
}

/// What a descent passes through at its last layer reaches that layer.
proof fn lemma_descended(
    links: Seq<Seq<Seq<u32>>>,
    sc: spec_fn(u32) -> u32,
    c: Cand,
    from: int,
    to: int,
    node: u32,
    m: nat,
    m0: nat,
)
    requires
        0 <= to <= from,
        growing(links, node, from, m, m0),
        others_at(links, node, from)(c.node),
    ensures
        others_at(links, node, to)(beam::descended(links, sc, c, from, to).node),
    decreases from - to,
{
    let ok = others_at(links, node, from);
    assert forall|x: u32, i: int|
        x < links.len() && ok(x) && 0 <= i < beam::neighbors(links, x as int, from).len() implies ok(
        #[trigger] beam::neighbors(links, x as int, from)[i],
    ) by {
        assert(links[x as int][from][i] == beam::neighbors(links, x as int, from)[i]);
    }
    lemma_closed(links);
    beam::lemma_climb_ok(links, sc, from, c, links.len(), ok);
    if from > to {
        let top = beam::climb(links, sc, from, c, links.len());
        assert(growing(links, node, from - 1, m, m0));
        lemma_descended(links, sc, top, from - 1, to, node, m, m0);
    }
}

/// Appending a node that nothing links to keeps the links sound and within
/// bounds.
proof fn lemma_appended(gr: Graph, id: u32, key: Seq<u32>, level: nat, layer: int)
    requires
        gr.wf(),
        gr.ids.len() < u32::MAX,
    ensures
        growing(
            appended(gr, id, key, level).links,
            gr.ids.len() as u32,
            layer,
            gr.m,
            gr.m0,
        ),
{
    let a = appended(gr, id, key, level).links;
    let node = gr.ids.len() as u32;
    assert forall|x: int, l: int, i: int|
        0 <= x < a.len() && 0 <= l < a[x].len() && 0 <= i < a[x][l].len() implies ({
        let y = #[trigger] a[x][l][i];
        y < a.len() && y != x && l < a[y as int].len() && y != node
    }) by {
        if x < gr.links.len() {
            assert(a[x][l][i] == gr.links[x][l][i]);
            let y = gr.links[x][l][i];
            assert(a[y as int] == gr.links[y as int]);
        } else {
            assert(a[x] == bare(level));
        }
    }
    assert forall|x: int, l: int| 0 <= x < a.len() && 0 <= l < a[x].len() implies (
    #[trigger] a[x][l]).len() <= (if l == 0 {
        gr.m0
    } else {
        gr.m
    }) by {
        if x < gr.links.len() {
            assert(a[x][l] == gr.links[x][l]);
        } else {
            assert(a[x] == bare(level));
        }
    }
}

/// Linking down keeps everything but the links.
proof fn lemma_linked_down(g: arith::Calc32, gr: Graph, node: u32, cur: Cand, layer: int)
    requires
        growing(gr.links, node, layer, gr.m, gr.m0),
        gr.m <= gr.m0,
        -1 <= layer < gr.links[node as int].len(),
        layer >= 0 ==> others_at(gr.links, node, layer)(cur.node),
    ensures
        ({
            let b = linked_down(g, gr, node, cur, layer);
            &&& growing(b.links, node, -1, gr.m, gr.m0)
            &&& same_heights(gr.links, b.links)
            &&& b == (Graph { links: b.links, ..gr })
        }),
    decreases layer + 1,
{
    if layer >= 0 {
        lemma_linked_layer(g, gr, node, cur, layer);
        let a = linked_layer(g, gr, node, cur, layer);
        let next = next_entry(g, gr, node, cur, layer);
        assert(gr.links[node as int].len() == a.links[node as int].len());
        assert(gr.links[next.node as int].len() == a.links[next.node as int].len());
        lemma_linked_down(g, a, node, next, layer - 1);
        let b = linked_down(g, gr, node, cur, layer);
        assert forall|x: int| 0 <= x < gr.links.len() implies (#[trigger] gr.links[x]).len()
            == b.links[x].len() by {
            assert(a.links[x].len() == b.links[x].len());
        }
    }
}

/// The node that an insert starts linking from, in its first layer.
pub open spec fn first_entry(g: arith::Calc32, gr: Graph, id: u32, key: Seq<u32>, level: nat) -> Cand {
    let a = appended(gr, id, key, level);
    let sc = scorer(g, a.keys, key);
    let first = beam::cand(sc, gr.entry->0);
    if gr.top > level {
        beam::descended(a.links, sc, first, gr.top as int, (level + 1) as int)
    } else {
        first
    }
}

/// The first layer that an insert links in.
pub open spec fn first_layer(gr: Graph, level: nat) -> int {
    if level < gr.top {
        level as int
    } else {
        gr.top as int
    }
}

proof fn lemma_first_entry(g: arith::Calc32, gr: Graph, id: u32, key: Seq<u32>, level: nat)
    requires
        gr.wf(),
        gr.ids.len() < u32::MAX,
        gr.entry is Some,
    ensures
        others_at(
            appended(gr, id, key, level).links,
            gr.ids.len() as u32,
            first_layer(gr, level),
        )(first_entry(g, gr, id, key, level).node),
{
    let a = appended(gr, id, key, level);
    let node = gr.ids.len() as u32;
    let e = gr.entry->0;
    assert(a.links[e as int] == gr.links[e as int]);
    if gr.top > level {
        lemma_appended(gr, id, key, level, gr.top as int);
        let sc = scorer(g, a.keys, key);
        lemma_descended(
            a.links,
            sc,
            beam::cand(sc, e),
            gr.top as int,
            (level + 1) as int,
            node,
            gr.m,
            gr.m0,
        );
    }
}

/// An insert keeps the index well formed: every link leads to another node
/// that reaches its layer, and no node has more neighbours than its layer
/// allows.
pub proof fn insert_keeps_the_graph_well_formed(
    g: arith::Calc32,
    gr: Graph,
    id: u32,
    key: Seq<u32>,
    level: nat,
)
    requires
        gr.wf(),
        gr.ids.len() < u32::MAX,
        key.len() == gr.d,
        !gr.ids.contains(id),
    ensures
        inserted(g, gr, id, key, level).wf(),
{
    let node = gr.ids.len() as u32;
    let a = appended(gr, id, key, level);
    let b = inserted(g, gr, id, key, level);
    let n = gr.ids.len() as int;
    assert forall|x: int| 0 <= x < a.keys.len() implies (#[trigger] a.keys[x]).len() == gr.d by {
        if x < n {
            assert(a.keys[x] == gr.keys[x]);
        }
    }
    assert forall|x: int, y: int| 0 <= x < y < a.ids.len() implies a.ids[x] != a.ids[y] by {
        if y == n {
            assert(a.ids[x] == gr.ids[x]);
            assert(gr.ids.contains(gr.ids[x]));
        }
    }
    match gr.entry {
        None => {
            lemma_appended(gr, id, key, level, 0);
            assert forall|x: int| 0 <= x < b.links.len() implies 1 <= (#[trigger] b.links[x]).len()
                <= b.top + 1 by {
                assert(b.links[x] == bare(level));
            }
        },
        Some(e) => {
            let start = first_layer(gr, level);
            lemma_appended(gr, id, key, level, start);
            lemma_first_entry(g, gr, id, key, level);
            assert(a.links[n] == bare(level));
            lemma_linked_down(g, a, node, first_entry(g, gr, id, key, level), start);
            assert forall|x: int| 0 <= x < b.links.len() implies 1 <= (#[trigger] b.links[x]).len()
                <= b.top + 1 by {
                assert(a.links[x].len() == b.links[x].len());
                if x < n {
                    assert(a.links[x] == gr.links[x]);
                }
            }
            assert(a.links[e as int] == gr.links[e as int]);
            assert(a.links[e as int].len() == b.links[e as int].len());
            assert(a.links[n].len() == b.links[n].len());
        },
    }
}

impl HnswIndex {
    /// Insert `(id, key)`: greedy descent to the node's level, a beam per
    /// layer, neighbours by the selection policy, and backlinks cut back to
    /// the degree bound. It is an error where the key has the wrong
    /// dimension, or where `id` was inserted before, even if since deleted.
    pub fn insert<G: Fn(Op, u32, u32) -> u32, F: Fn(Op, u64, u64) -> u64>(
        &mut self,
        id: u32,
        key: &[u32],
        g: &G,
        f: &F,
    ) -> (r: Result<(), BruceError>)
        requires
            old(self).wf(),
            old(self)@.ids.len() < u32::MAX,
            arith::steady(*g),
            arith::steady(*f),
        ensures
            final(self).wf(),
            if key@.len() != old(self)@.d {
                error::fails(
                    r,
                    error::BruceErrorView::DimensionMismatch(old(self)@.d, key@.len()),
                ) && final(self)@ == old(self)@
            } else if old(self)@.ids.contains(id) {
                error::fails(r, error::BruceErrorView::DuplicateKey(text::dec(id as nat)))
                    && final(self)@ == old(self)@
            } else {
                r is Ok && final(self)@ == inserted(
                    arith::computes(*g),
                    old(self)@,
                    id,
                    key@,
                    level(arith::computes(*f), id),
                )
            },
    {
        let ghost k = arith::computes(*g);
        let ghost gr = self@;
        if key.len() != self.d {
            return Err(BruceError::DimensionMismatch { expected: self.d, got: key.len() });
        }
        if id_map_get(&self.id_to_node, id).is_some() {
            proof {
                let x = maps::id_map(self.id_to_node)[id];
                assert(maps::id_map(self.id_to_node).contains_key(id));
                assert(self.ids@[x as int] == id);
            }
            return Err(BruceError::DuplicateKey(dec_string(id as u64)));
        }
        proof {
            if gr.ids.contains(id) {
                let x = gr.ids.index_of(id);
                assert(maps::id_map(self.id_to_node).contains_key(self.ids@[x]));
            }
        }
        let level: usize = level_for(id, f);
        let node: u32 = self.ids.len() as u32;
        let ghost n = self.ids@.len();
        let ghost before = *self;
        proof {
            insert_keeps_the_graph_well_formed(k, gr, id, key@, level as nat);
            assert forall|x: int| 0 <= x < self.keys@.len() implies (#[trigger] self.keys@[x]).len()
                == gr.d by {
                assert(gr.keys[x].len() == gr.d);
            }
        }
        self.keys.push(key);
        self.ids.push(id);
        self.deleted.push(false);
        self.links.push(bare_lists(level));
        id_map_insert(&mut self.id_to_node, id, node);
        let ghost a = appended(gr, id, key@, level as nat);
        proof {
            assert(self.keys@ =~= a.keys);
            assert(beam::links_view(self.links@) =~= a.links);
            assert(self.deleted@.drop_last() =~= before.deleted@);
            lemma_id_map(
                before.ids@,
                maps::id_map(before.id_to_node),
                id,
                maps::id_map(self.id_to_node),
            );
        }
        if self.entry.is_none() {
            self.entry = Some(node);
            self.top_level = level;
            assert(self@ == inserted(k, gr, id, key@, level as nat));
            return Ok(());
        }
        let ep: u32 = match self.entry {
            Some(e) => e,
            None => 0,
        };
        let ghost sc = scorer(k, a.keys, key@);
        let ghost start = first_layer(gr, level as nat);
        proof {
            lemma_appended(gr, id, key@, level as nat, start);
            lemma_first_entry(k, gr, id, key@, level as nat);
            lemma_closed(a.links);
            assert(a.links[n as int] == bare(level as nat));
            assert forall|x: int| 0 <= x < self.keys@.len() implies (#[trigger] self.keys@[x]).len()
                == gr.d by {
                if x < n {
                    assert(self.keys@[x] == before.keys@[x]);
                }
            }
        }
        let keys = &self.keys;
        let score = |x: u32| -> (s: u32)
            requires
                x < keys@.len(),
            ensures
                s == product(arith::computes(*g), key@, keys@[x as int]),
            {
                assert(keys@[x as int].len() == gr.d);
                dot(key, keys.row(x as usize), g)
            };
        assert(beam::tells(score, sc, keys@.len()));
        let s0: u32 = score(ep);
        let mut cur: Cand = Cand { score: s0, node: ep };
        if self.top_level > level {
            cur =
            greedy_at_layers(&self.links, cur, self.top_level, level + 1, &score, Ghost(sc));
        }
        let first: usize = if level < self.top_level {
            level
        } else {
            self.top_level
        };
        let ghost mut now: Graph = a;
        assert(cur == first_entry(k, gr, id, key@, level as nat));
        let mut left: usize = first + 1;
        while left > 0
            invariant
                left <= first + 1,
                arith::steady(*g),
                k == arith::computes(*g),
                now.links == beam::links_view(self.links@),
                now.keys == self.keys@,
                self.keys.wf() && self.keys.width() == self.d,
                now == (Graph { links: now.links, ..a }),
                a.selection == self.selection,
                a.ef == self.ef_construction,
                a.m == self.m,
                a.m0 == self.m0,
                a.m >= 2,
                a.m0 == 2 * a.m,
                a.ef >= 1,
                a.d == gr.d,
                self.keys@.len() == self.links@.len(),
                self.keys@.len() <= u32::MAX,
                forall|x: int|
                    0 <= x < self.keys@.len() ==> (#[trigger] self.keys@[x]).len() == gr.d,
                growing(now.links, node, left - 1, a.m, a.m0),
                first < now.links[node as int].len(),
                left > 0 ==> others_at(now.links, node, left - 1)(cur.node),
                linked_down(k, now, node, cur, left - 1) == linked_down(
                    k,
                    a,
                    node,
                    first_entry(k, gr, id, key@, level as nat),
                    first as int,
                ),
                self.ids@ == a.ids,
                self.deleted@ == a.deleted,
                self.d == a.d,
                self.entry == gr.entry,
                self.top_level == gr.top,
                self.deleted_count == before.deleted_count,
                maps::id_map(self.id_to_node) == maps::id_map(before.id_to_node).insert(id, node),
            decreases left,
        {
            let layer: usize = left - 1;
            let cap: usize = if layer == 0 {
                self.m0
            } else {
                self.m
            };
            proof {
                lemma_linked_layer(k, now, node, cur, layer as int);
            }
            let next = link_in_layer(
                &self.keys,
                self.selection,
                &mut self.links,
                node,
                cur,
                layer,
                self.ef_construction,
                self.m,
                cap,
                g,
                Ghost(now),
            );
            proof {
                let after = linked_layer(k, now, node, cur, layer as int);
                assert(now.links[node as int].len() == after.links[node as int].len());
                assert(now.links[next.node as int].len() == after.links[next.node as int].len());
                now = after;
            }
            cur = next;
            left = layer;
        }
        if level > self.top_level {
            self.top_level = level;
            self.entry = Some(node);
        }
        assert(self@ == inserted(k, gr, id, key@, level as nat));
        Ok(())
    }
}

/// The id lookup with one more id.
proof fn lemma_id_map(ids: Seq<u32>, old_map: Map<u32, u32>, id: u32, new_map: Map<u32, u32>)
    requires
        ids.len() < u32::MAX,
        !old_map.contains_key(id),
        new_map == old_map.insert(id, ids.len() as u32),
        forall|i: u32| #[trigger]
            old_map.contains_key(i) ==> old_map[i] < ids.len() && ids[old_map[i] as int] == i,
        forall|x: int|
            0 <= x < ids.len() ==> old_map.contains_key(#[trigger] ids[x]) && old_map[ids[x]] == x,
    ensures
        ({
            let all = ids.push(id);
            &&& forall|i: u32| #[trigger]
                new_map.contains_key(i) ==> new_map[i] < all.len() && all[new_map[i] as int] == i
            &&& forall|x: int|
                0 <= x < all.len() ==> new_map.contains_key(#[trigger] all[x]) && new_map[all[x]]
                    == x
        }),
{
    let all = ids.push(id);
    assert forall|i: u32| #[trigger] new_map.contains_key(i) implies new_map[i] < all.len()
        && all[new_map[i] as int] == i by {
        if i != id {
            assert(old_map.contains_key(i));
        }
    }
    assert forall|x: int| 0 <= x < all.len() implies new_map.contains_key(#[trigger] all[x])
        && new_map[all[x]] == x by {
        if x < ids.len() {
            assert(all[x] == ids[x]);
            assert(old_map.contains_key(ids[x]));
        }
    }
}

fn bare_lists(level: usize) -> (r: Vec<Vec<u32>>)
    requires
        level < usize::MAX,
    ensures
        Seq::new(r@.len(), |l: int| r@[l]@) == bare(level as nat),
{
    let mut r: Vec<Vec<u32>> = Vec::new();
    let mut l: usize = 0;
    while l < level + 1
        invariant
            level < usize::MAX,
            l <= level + 1,
            r@.len() == l,
            forall|x: int| 0 <= x < l ==> (#[trigger] r@[x])@ == Seq::<u32>::empty(),
        decreases level + 1 - l,
    {
        r.push(Vec::new());
        l += 1;
    }
    assert(Seq::new(r@.len(), |x: int| r@[x]@) =~= bare(level as nat));
    r
}

// ----------------------------------------------------------------- search

/// The ids that an optional filter lets through.
pub open spec fn passes<P: Fn(u32) -> bool>(filter: Option<&P>) -> spec_fn(u32) -> bool {
    |id: u32|
        match filter {
            Some(p) => choose|r: bool| call_ensures(*p, (id,), r),
            None => true,
        }
}

/// The filter, where there is one, answers for every id, and the same id
/// always the same.
pub open spec fn steady_filter<P: Fn(u32) -> bool>(filter: Option<&P>) -> bool {
    match filter {
        Some(p) => {
            &&& forall|id: u32| #[trigger] call_requires(*p, (id,))
            &&& forall|id: u32, x: bool, y: bool|
                #[trigger] call_ensures(*p, (id,), x) && #[trigger] call_ensures(*p, (id,), y)
                    ==> x == y
        },
        None => true,
    }
}

/// The nodes that may be results: live, and let through.
pub open spec fn admitted(gr: Graph, flt: spec_fn(u32) -> bool) -> spec_fn(u32) -> bool {
    |x: u32| !gr.deleted[x as int] && flt(gr.ids[x as int])
}

/// The width of the beam.
pub open spec fn width(k: nat, ef: nat) -> nat {
    let w = if ef < k {
        k
    } else {
        ef
    };
    if w < 1 {
        1
    } else {
        w
    }
}

/// What a search asks of the beam in layer 0.
pub open spec fn search_ask(k: nat, ef: nat, filtered: bool) -> beam::Ask {
    let w = width(k, ef);
    beam::Ask {
        layer: 0,
        ef: w,
        k_floor: k,
        budget: if filtered && w * WIDEN_FACTOR <= usize::MAX {
            w * WIDEN_FACTOR as nat
        } else {
            usize::MAX as nat
        },
    }
}

/// Where a search enters layer 0.
pub open spec fn search_entry(g: arith::Calc32, gr: Graph, q: Seq<u32>) -> Cand {
    let sc = scorer(g, gr.keys, q);
    let first = beam::cand(sc, gr.entry->0);
    if gr.top >= 1 {
        beam::descended(gr.links, sc, first, gr.top as int, 1)
    } else {
        first
    }
}

/// The candidates that a search finds, worst first.
pub open spec fn search_found(
    g: arith::Calc32,
    gr: Graph,
    q: Seq<u32>,
    k: nat,
    ef: nat,
    flt: spec_fn(u32) -> bool,
    filtered: bool,
) -> Seq<Cand> {
    beam::found(
        gr.links,
        scorer(g, gr.keys, q),
        admitted(gr, flt),
        search_ask(k, ef, filtered),
        search_entry(g, gr, q),
    )
}

/// The best `k` of the candidates found, best first, as ids and scores.
pub open spec fn best_of(gr: Graph, found: Seq<Cand>, k: nat) -> Seq<(u32, u32)> {
    let n = if found.len() < k {
        found.len()
    } else {
        k
    };
    Seq::new(
        n,
        |i: int|
            {
                let c = found[found.len() - 1 - i];
                (gr.ids[c.node as int], c.score)
            },
    )
}

/// The results of a search.
pub open spec fn results(
    g: arith::Calc32,
    gr: Graph,
    q: Seq<u32>,
    k: nat,
    ef: nat,
    flt: spec_fn(u32) -> bool,
    filtered: bool,
) -> Seq<(u32, u32)> {
    if gr.entry is None || k == 0 {
        Seq::empty()
    } else {
        best_of(gr, search_found(g, gr, q, k, ef, flt, filtered), k)
    }
}

impl HnswIndex {
    /// The best `k` by score, descending, as external ids and scores. The
    /// beam in layer 0 is `ef` wide, or `k` where that is more. The filter,
    /// where there is one, decides by external id which nodes may be
    /// results. It is an error where the query has the wrong dimension.
    pub fn search<G: Fn(Op, u32, u32) -> u32, P: Fn(u32) -> bool>(
        &self,
        query: &[u32],
        k: usize,
        ef: usize,
        filter: Option<&P>,
        g: &G,
    ) -> (r: Result<Vec<(u32, u32)>, BruceError>)
        requires
            self.wf(),
            arith::steady(*g),
            steady_filter(filter),
        ensures
            if query@.len() != self@.d {
                error::fails(
                    r,
                    error::BruceErrorView::DimensionMismatch(self@.d, query@.len()),
                )
            } else {
                r matches Ok(out) && out@ == results(
                    arith::computes(*g),
                    self@,
                    query@,
                    k as nat,
                    ef as nat,
                    passes(filter),
                    filter is Some,
                )
            },
    {
        let ghost kc = arith::computes(*g);
        let ghost gr = self@;
        if query.len() != self.d {
            return Err(BruceError::DimensionMismatch { expected: self.d, got: query.len() });
        }
        let ep: u32 = match self.entry {
            Some(e) => e,
            None => {
                return Ok(Vec::new());
            },
        };
        if k == 0 {
            return Ok(Vec::new());
        }
        let w: usize = if ef < k {
            k
        } else {
            ef
        };
        let ghost sc = scorer(kc, gr.keys, query@);
        let ghost adm = admitted(gr, passes(filter));
        proof {
            lemma_closed(gr.links);
        }
        let score = |x: u32| -> (s: u32)
            requires
                x < self@.ids.len(),
            ensures
                s == product(arith::computes(*g), query@, self@.keys[x as int]),
            { self.score(query, x, g) };
        assert(beam::tells(score, sc, gr.ids.len()));
        let s0: u32 = score(ep);
        let mut cur: Cand = Cand { score: s0, node: ep };
        if self.top_level >= 1 {
            cur = greedy_at_layers(&self.links, cur, self.top_level, 1, &score, Ghost(sc));
        }
        let budget: usize = if filter.is_some() {
            match w.checked_mul(WIDEN_FACTOR) {
                Some(b) => b,
                None => usize::MAX,
            }
        } else {
            usize::MAX
        };
        let accept = |x: u32| -> (r: bool)
            requires
                x < self@.ids.len(),
            ensures
                r == admitted(self@, passes(filter))(x),
            {
                if self.deleted[x as usize] {
                    false
                } else {
                    match filter {
                        Some(p) => {
                            let r: bool = p(self.ids[x as usize]);
                            assert(call_ensures(*p, (self.ids@[x as int],), r));
                            r
                        },
                        None => true,
                    }
                }
            };
        assert(beam::tells(accept, adm, gr.ids.len()));
        assert(cur == search_entry(kc, gr, query@));
        let best = search_layer(
            &self.links,
            cur,
            0,
            w,
            k,
            budget,
            &score,
            &accept,
            Ghost(sc),
            Ghost(adm),
        );
        let ghost found = search_found(
            kc,
            gr,
            query@,
            k as nat,
            ef as nat,
            passes(filter),
            filter is Some,
        );
        assert(best@ == found.reverse());
        proof {
            beam::results_are_admitted_and_ranked(
                gr.links,
                sc,
                adm,
                search_ask(k as nat, ef as nat, filter is Some),
                cur,
            );
        }
        let n: usize = if best.len() < k {
            best.len()
        } else {
            k
        };
        let ghost want = best_of(gr, found, k as nat);
        let mut out: Vec<(u32, u32)> = Vec::new();
        let mut i: usize = 0;
        while i < n
            invariant
                i <= n <= best@.len(),
                best@ == found.reverse(),
                gr == self@,
                want == best_of(gr, found, k as nat),
                n == want.len(),
                forall|x: int| 0 <= x < found.len() ==> (#[trigger] found[x]).node < gr.ids.len(),
                out@ == want.take(i as int),
            decreases n - i,
        {
            let c: Cand = best[i];
            assert(c == found[found.len() - 1 - i]);
            out.push((self.ids[c.node as usize], c.score));
            i += 1;
            assert(out@ =~= want.take(i as int));
        }
        assert(out@ =~= want);
        Ok(out)
    }
}

/// A descent ends at a node that scores as its candidate says.
proof fn lemma_descended_cand(
    links: Seq<Seq<Seq<u32>>>,
    sc: spec_fn(u32) -> u32,
    c: Cand,
    from: int,
    to: int,
)
    requires
        beam::closed_links(links),
        0 <= to <= from,
        c.node < links.len(),
        c == beam::cand(sc, c.node),
    ensures
        ({
            let r = beam::descended(links, sc, c, from, to);
            r.node < links.len() && r == beam::cand(sc, r.node)
        }),
    decreases from - to,
{
    beam::lemma_climb_cand(links, sc, from, c, links.len());
    if from > to {
        lemma_descended_cand(
            links,
            sc,
            beam::climb(links, sc, from, c, links.len()),
            from - 1,
            to,
        );
    }
}

proof fn lemma_search_entry(g: arith::Calc32, gr: Graph, q: Seq<u32>)
    requires
        gr.wf(),
        gr.entry is Some,
    ensures
        ({
            let e = search_entry(g, gr, q);
            e.node < gr.links.len() && e == beam::cand(scorer(g, gr.keys, q), e.node)
        }),
        beam::closed_links(gr.links),
{
    lemma_closed(gr.links);
    let sc = scorer(g, gr.keys, q);
    let first = beam::cand(sc, gr.entry->0);
    if gr.top >= 1 {
        lemma_descended_cand(gr.links, sc, first, gr.top as int, 1);
    }
}

/// What a search returns: at most `k` results, each a live node that the
/// filter lets through, with its own score, in descending order, none
/// twice.
pub proof fn results_are_live_and_let_through(
    g: arith::Calc32,
    gr: Graph,
    q: Seq<u32>,
    k: nat,
    ef: nat,
    flt: spec_fn(u32) -> bool,
    filtered: bool,
)
    requires
        gr.wf(),
    ensures
        ({
            let out = results(g, gr, q, k, ef, flt, filtered);
            &&& out.len() <= k
            &&& forall|i: int|
                0 <= i < out.len() ==> flt((#[trigger] out[i]).0) && exists|x: int|
                    0 <= x < gr.ids.len() && #[trigger] gr.ids[x] == out[i].0 && !gr.deleted[x]
                        && out[i].1 == product(g, q, gr.keys[x])
            &&& forall|i: int, j: int|
                0 <= i < j < out.len() ==> out[i].0 != out[j].0 && bits::total_rank(out[j].1)
                    <= bits::total_rank(out[i].1)
        }),
{
    let out = results(g, gr, q, k, ef, flt, filtered);
    if gr.entry is Some && k > 0 {
        lemma_search_entry(g, gr, q);
        let sc = scorer(g, gr.keys, q);
        let adm = admitted(gr, flt);
        let ask = search_ask(k, ef, filtered);
        beam::results_are_admitted_and_ranked(gr.links, sc, adm, ask, search_entry(g, gr, q));
        let f = search_found(g, gr, q, k, ef, flt, filtered);
        assert forall|i: int| 0 <= i < out.len() implies flt((#[trigger] out[i]).0) && exists|x: int|
            0 <= x < gr.ids.len() && #[trigger] gr.ids[x] == out[i].0 && !gr.deleted[x]
                && out[i].1 == product(g, q, gr.keys[x]) by {
            let c = f[f.len() - 1 - i];
            assert(adm(c.node) && c == beam::cand(sc, c.node));
            assert(gr.ids[c.node as int] == out[i].0);
        }
        assert forall|i: int, j: int| 0 <= i < j < out.len() implies out[i].0 != out[j].0
            && bits::total_rank(out[j].1) <= bits::total_rank(out[i].1) by {
            let a = f[f.len() - 1 - i];
            let b = f[f.len() - 1 - j];
            assert(beam::worse(b, a));
            assert(a.node != b.node);
            assert(a.node < gr.ids.len() && b.node < gr.ids.len());
            if a.node < b.node {
                assert(gr.ids[a.node as int] != gr.ids[b.node as int]);
            } else {
                assert(gr.ids[b.node as int] != gr.ids[a.node as int]);
            }
        }
    }
}

/// A deleted id is left out of all results at once.
pub proof fn deleted_ids_are_never_returned(
    g: arith::Calc32,
    gr: Graph,
    x: int,
    q: Seq<u32>,
    k: nat,
    ef: nat,
    flt: spec_fn(u32) -> bool,
    filtered: bool,
)
    requires
        gr.wf(),
        0 <= x < gr.ids.len(),
    ensures
        ({
            let after = without(gr, x);
            forall|i: int|
                0 <= i < results(g, after, q, k, ef, flt, filtered).len() ==> (#[trigger] results(
                    g,
                    after,
                    q,
                    k,
                    ef,
                    flt,
                    filtered,
                )[i]).0 != gr.ids[x]
        }),
{
    let after = without(gr, x);
    assert(after.wf());
    results_are_live_and_let_through(g, after, q, k, ef, flt, filtered);
    let out = results(g, after, q, k, ef, flt, filtered);
    assert forall|i: int| 0 <= i < out.len() implies (#[trigger] out[i]).0 != gr.ids[x] by {
        let y = choose|y: int|
            0 <= y < after.ids.len() && #[trigger] after.ids[y] == out[i].0 && !after.deleted[y]
                && out[i].1 == product(g, q, after.keys[y]);
        assert(y != x);
        if x < y {
            assert(gr.ids[x] != gr.ids[y]);
        } else {
            assert(gr.ids[y] != gr.ids[x]);
        }
    }
}

/// A search that returns fewer than `k` results has returned every live
/// node that the filter lets through and that the links of layer 0 lead to.
/// So a filter with `k` matches among those nodes yields `k` results.
pub proof fn filter_never_starves(
    g: arith::Calc32,
    gr: Graph,
    q: Seq<u32>,
    k: nat,
    ef: nat,
    flt: spec_fn(u32) -> bool,
    filtered: bool,
    p: Seq<u32>,
)
    requires
        gr.wf(),
        gr.entry is Some,
        results(g, gr, q, k, ef, flt, filtered).len() < k,
        beam::path(gr.links, 0, p),
        p[0] == search_entry(g, gr, q).node,
        admitted(gr, flt)(p.last()),
    ensures
        results(g, gr, q, k, ef, flt, filtered).contains(
            (gr.ids[p.last() as int], product(g, q, gr.keys[p.last() as int])),
        ),
{
    lemma_search_entry(g, gr, q);
    let sc = scorer(g, gr.keys, q);
    let adm = admitted(gr, flt);
    let ask = search_ask(k, ef, filtered);
    let f = search_found(g, gr, q, k, ef, flt, filtered);
    beam::short_results_are_all_there_is(gr.links, sc, adm, ask, search_entry(g, gr, q), p);
    let j = f.index_of(beam::cand(sc, p.last()));
    let out = results(g, gr, q, k, ef, flt, filtered);
    assert(out[f.len() - 1 - j] == (
        gr.ids[p.last() as int],
        product(g, q, gr.keys[p.last() as int]),
    ));
}

/// An unfiltered search with a beam as wide as the index returns, first of
/// all, a node that no live node scores above that the links of layer 0
/// lead to.
pub proof fn wide_search_is_exact(
    g: arith::Calc32,
    gr: Graph,
    q: Seq<u32>,
    k: nat,
    ef: nat,
    flt: spec_fn(u32) -> bool,
    p: Seq<u32>,
)
    requires
        gr.wf(),
        gr.entry is Some,
        k > 0,
        ef >= gr.ids.len(),
        u32::MAX <= usize::MAX,
        beam::path(gr.links, 0, p),
        p[0] == search_entry(g, gr, q).node,
        admitted(gr, flt)(p.last()),
    ensures
        results(g, gr, q, k, ef, flt, false).len() > 0,
        bits::total_rank(product(g, q, gr.keys[p.last() as int])) <= bits::total_rank(
            results(g, gr, q, k, ef, flt, false)[0].1,
        ),
{
    lemma_search_entry(g, gr, q);
    let sc = scorer(g, gr.keys, q);
    let adm = admitted(gr, flt);
    let ask = search_ask(k, ef, false);
    let f = search_found(g, gr, q, k, ef, flt, false);
    beam::wide_beam_is_exact(gr.links, sc, adm, ask, search_entry(g, gr, q), p);
    let out = results(g, gr, q, k, ef, flt, false);
    assert(f.len() > 0);
    assert(out[0].1 == f[f.len() - 1].score);
}

} // verus!

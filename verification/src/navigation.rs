//! Laws of the index: levels, neighbour selection, what an insert stores,
//! and what is accounted for.

use vstd::prelude::*;

use crate::arith;
use crate::arith::Op;
use crate::beam::Cand;
use crate::bits;
use crate::footprint;
use crate::footprint::NodeReserved;
use crate::hnsw;
use crate::hnsw::{Graph, NeighborSelection};
use crate::reals;
use crate::reals::Reading;

verus! {

// -------------------------------------------------------------------- levels

/// Whole numbers up to the cap are read as they are, and comparing with them
/// is comparing the numbers.
pub open spec fn compares(k: arith::Calc, r: Reading, x: u64, w: nat) -> bool {
    let p = k(Op::Whole, w as u64, 0);
    bits::num_lt(p, x) || bits::num_eq(p, x) <==> (r.val)(x) >= w as real
}

proof fn lemma_floor(k: arith::Calc, r: Reading, x: u64, cap: nat)
    requires
        (r.val)(x) >= 0 as real,
        forall|w: nat| w <= cap ==> #[trigger] compares(k, r, x, w),
    ensures
        hnsw::floor_to(k, x, cap) <= cap,
        hnsw::floor_to(k, x, cap) as real <= (r.val)(x),
        hnsw::floor_to(k, x, cap) < cap ==> (r.val)(x) < hnsw::floor_to(k, x, cap) as real + 1 as real,
    decreases cap,
{
    if cap > 0 {
        let c = (cap - 1) as nat;
        lemma_floor(k, r, x, c);
        assert(compares(k, r, x, cap));
        assert(cap as real == c as real + 1 as real);
    }
}

/// The level of an id is the whole part of its sample, or the cap of 24
/// where that is less; and the sample is the one whose negative exponential
/// is the upper 53 bits of the hash, plus one, in units of `2^-53`.
pub proof fn level_is_the_whole_part_of_the_sample(k: arith::Calc, r: Reading, id: u32)
    requires
        reals::constants(r),
        reals::exponential(r),
        reals::logarithm(r),
        (r.val)(0x3CA0_0000_0000_0000) * 0x20_0000_0000_0000 as real == 1 as real,
        (r.val)(hnsw::sample(k, id)) >= 0 as real,
        forall|w: nat| w <= 24 ==> #[trigger] compares(k, r, hnsw::sample(k, id), w),
        ({
            let h = hnsw::mixed(id as u64) >> 11;
            let a = k(Op::Whole, h, 0);
            let b = k(Op::Plus, a, arith::ONE);
            let u = k(Op::Times, b, hnsw::TINY);
            &&& reals::precise(k, r, Op::Whole, h, 0)
            &&& reals::precise(k, r, Op::Plus, a, arith::ONE)
            &&& reals::precise(k, r, Op::Times, b, hnsw::TINY)
            &&& reals::precise(k, r, Op::Ln, u, 0)
        }),
    ensures
        ({
            let (l, x) = (hnsw::level(k, id), (r.val)(hnsw::sample(k, id)));
            &&& l <= 24
            &&& l as real <= x
            &&& l < 24 ==> x < l as real + 1 as real
            &&& (r.exp)(-x) * 0x20_0000_0000_0000 as real == (hnsw::mixed(id as u64) >> 11) as real
                + 1 as real
        }),
{
    let x = hnsw::sample(k, id);
    lemma_floor(k, r, x, 24);
    let h = hnsw::mixed(id as u64) >> 11;
    let n = h as real + 1 as real;
    let t = (r.val)(0x3CA0_0000_0000_0000);
    let big = 0x20_0000_0000_0000 as real;
    reals::lemma_regroup(n, t, big);
    reals::lemma_units(n);
    assert(t > 0 as real) by (nonlinear_arith)
        requires
            t * big == 1 as real,
            big > 0 as real,
    ;
    reals::lemma_positive(n, t);
    assert((r.exp)((r.ln)(n * t)) == n * t);
}

/// The seed that the hash was taken of: each step undone, the last first.
pub open spec fn unmixed(h: u64) -> u64 {
    let c = h ^ (h >> 31) ^ (h >> 62);
    let b = c.wrapping_mul(0x3196_42B2_D24D_8EC3);
    let b2 = b ^ (b >> 27) ^ (b >> 54);
    let a = b2.wrapping_mul(0x96DE_1B17_3F11_9089);
    let a2 = a ^ (a >> 30) ^ (a >> 60);
    a2.wrapping_sub(0x9E37_79B9_7F4A_7C15)
}

/// A factor and its inverse cancel.
proof fn lemma_cancel(x: u64, c: u64, d: u64)
    requires
        (c * d) % 0x1_0000_0000_0000_0000 == 1,
    ensures
        x.wrapping_mul(c).wrapping_mul(d) == x,
{
    let m = 0x1_0000_0000_0000_0000int;
    let y = x as int * c as int;
    vstd::arithmetic::div_mod::lemma_mul_mod_noop_left(y, d as int, m);
    assert(y * d as int == x as int * (c as int * d as int)) by (nonlinear_arith)
        requires
            y == x as int * c as int,
    ;
    vstd::arithmetic::div_mod::lemma_mul_mod_noop_right(x as int, c as int * d as int, m);
    assert(x as int * 1 == x as int);
}

/// The hash can be undone: no two ids share one, so no two draw the same
/// sample for want of a different hash.
pub proof fn hash_can_be_undone(seed: u64)
    ensures
        unmixed(hnsw::mixed(seed)) == seed,
{
    let a = seed.wrapping_add(0x9E37_79B9_7F4A_7C15);
    let a1 = a ^ (a >> 30);
    let b = a1.wrapping_mul(0xBF58_476D_1CE4_E5B9);
    let b1 = b ^ (b >> 27);
    let c = b1.wrapping_mul(0x94D0_49BB_1331_11EB);
    let h = c ^ (c >> 31);
    assert(h ^ (h >> 31) ^ (h >> 62) == c) by (bit_vector)
        requires
            h == c ^ (c >> 31),
    ;
    lemma_cancel(b1, 0x94D0_49BB_1331_11EB, 0x3196_42B2_D24D_8EC3);
    assert(b1 ^ (b1 >> 27) ^ (b1 >> 54) == b) by (bit_vector)
        requires
            b1 == b ^ (b >> 27),
    ;
    lemma_cancel(a1, 0xBF58_476D_1CE4_E5B9, 0x96DE_1B17_3F11_9089);
    assert(a1 ^ (a1 >> 30) ^ (a1 >> 60) == a) by (bit_vector)
        requires
            a1 == a ^ (a >> 30),
    ;
}

// ----------------------------------------------------------------- selection

/// Closer to `c` than the base is.
pub open spec fn closer(g: arith::Calc32, keys: Seq<Seq<u32>>, c: u32, base: u32, other: u32) -> bool {
    bits::num_lt_32(
        hnsw::product(g, keys[c as int], keys[base as int]),
        hnsw::product(g, keys[c as int], keys[other as int]),
    )
}

/// The diversity policy takes in candidates in their order; none that is
/// closer to one taken in before than to the base; and it passes over none
/// but the base, those, and what comes after it has enough.
pub proof fn diverse_selection_keeps_neighbours_apart(
    g: arith::Calc32,
    keys: Seq<Seq<u32>>,
    cands: Seq<Cand>,
    base: u32,
    cap: nat,
)
    ensures
        ({
            let out = hnsw::spread_out(g, keys, cands, base, cap);
            &&& out.len() <= cap
            &&& forall|i: int, j: int|
                0 <= i < j < out.len() ==> !closer(
                    g,
                    keys,
                    #[trigger] out[j],
                    base,
                    #[trigger] out[i],
                )
            &&& !out.contains(base)
            &&& out.len() < cap ==> forall|i: int|
                0 <= i < cands.len() ==> {
                    let c = (#[trigger] cands[i]).node;
                    c == base || out.contains(c) || exists|j: int|
                        0 <= j < out.len() && closer(g, keys, c, base, #[trigger] out[j])
                }
        }),
    decreases cands.len(),
{
    let out = hnsw::spread_out(g, keys, cands, base, cap);
    if cands.len() > 0 {
        let f = cands.drop_last();
        diverse_selection_keeps_neighbours_apart(g, keys, f, base, cap);
        let taken = hnsw::spread_out(g, keys, f, base, cap);
        let last = cands.last().node;
        assert forall|i: int, j: int| 0 <= i < j < out.len() implies !closer(
            g,
            keys,
            #[trigger] out[j],
            base,
            #[trigger] out[i],
        ) by {
            if j < taken.len() {
                assert(out[j] == taken[j] && out[i] == taken[i]);
            } else {
                assert(out[i] == taken[i]);
            }
        }
        if out.contains(base) {
            let i = choose|i: int| 0 <= i < out.len() && out[i] == base;
            if i < taken.len() {
                assert(taken[i] == base);
            }
        }
        if out.len() < cap {
            assert forall|i: int| 0 <= i < cands.len() implies ({
                let c = (#[trigger] cands[i]).node;
                c == base || out.contains(c) || exists|j: int|
                    0 <= j < out.len() && closer(g, keys, c, base, #[trigger] out[j])
            }) by {
                let c = cands[i].node;
                if i < f.len() {
                    assert(f[i] == cands[i]);
                    if taken.contains(c) {
                        let t = choose|t: int| 0 <= t < taken.len() && taken[t] == c;
                        assert(out[t] == c);
                    } else if c != base {
                        let j = choose|j: int|
                            0 <= j < taken.len() && closer(g, keys, c, base, #[trigger] taken[j]);
                        assert(out[j] == taken[j]);
                    }
                } else if c != base {
                    if hnsw::dominated(g, keys, c, base, taken) {
                        let j = choose|j: int|
                            0 <= j < taken.len() && bits::num_lt_32(
                                hnsw::product(g, keys[c as int], keys[base as int]),
                                hnsw::product(
                                    g,
                                    keys[c as int],
                                    keys[(#[trigger] taken[j]) as int],
                                ),
                            );
                        assert(closer(g, keys, c, base, out[j]));
                    } else {
                        assert(out[out.len() - 1] == c);
                    }
                }
            }
        }
    } else {
        assert(!out.contains(base));
    }
}

/// The policy that keeps the best takes the first candidates, as many as it
/// may; both take all where there are no more than that.
pub proof fn best_selection_takes_the_first(
    g: arith::Calc32,
    keys: Seq<Seq<u32>>,
    policy: NeighborSelection,
    cands: Seq<Cand>,
    base: u32,
    cap: nat,
    i: int,
)
    requires
        policy == NeighborSelection::KeepBest || cands.len() <= cap,
        0 <= i < cands.len(),
        i < cap,
    ensures
        hnsw::selected(g, keys, policy, cands, base, cap).len() == if cands.len() < cap {
            cands.len()
        } else {
            cap
        },
        hnsw::selected(g, keys, policy, cands, base, cap)[i] == cands[i].node,
{
}

// -------------------------------------------------------------------- insert

proof fn lemma_linked_down(g: arith::Calc32, gr: Graph, node: u32, cur: Cand, layer: int)
    ensures
        ({
            let b = hnsw::linked_down(g, gr, node, cur, layer);
            b == (Graph { links: b.links, ..gr })
        }),
    decreases layer + 1,
{
    if layer >= 0 {
        lemma_linked_down(
            g,
            hnsw::linked_layer(g, gr, node, cur, layer),
            node,
            hnsw::next_entry(g, gr, node, cur, layer),
            layer - 1,
        );
    }
}

/// An insert stores the id and the key behind those that are there, alive,
/// and changes none of them. The new node is where searches enter exactly
/// if the index was empty or its level is above all others.
pub proof fn insert_stores_the_node(
    g: arith::Calc32,
    gr: Graph,
    id: u32,
    key: Seq<u32>,
    level: nat,
)
    ensures
        ({
            let b = hnsw::inserted(g, gr, id, key, level);
            &&& b.ids == gr.ids.push(id)
            &&& b.keys == gr.keys.push(key)
            &&& b.deleted == gr.deleted.push(false)
            &&& b.d == gr.d && b.m == gr.m && b.m0 == gr.m0 && b.ef == gr.ef && b.selection
                == gr.selection
            &&& gr.entry is None || level > gr.top ==> b.entry == Some(gr.ids.len() as u32)
                && b.top == level
            &&& gr.entry is Some && level <= gr.top ==> b.entry == gr.entry && b.top == gr.top
        }),
{
    if let Some(e) = gr.entry {
        let a = hnsw::appended(gr, id, key, level);
        let sc = hnsw::scorer(g, a.keys, key);
        let first = crate::beam::cand(sc, e);
        let cur = if gr.top > level {
            crate::beam::descended(a.links, sc, first, gr.top as int, (level + 1) as int)
        } else {
            first
        };
        let start = if level < gr.top {
            level as int
        } else {
            gr.top as int
        };
        lemma_linked_down(g, a, gr.ids.len() as u32, cur, start);
    }
}

/// A neighbour with room takes the new node in behind its own; one without
/// keeps as many as it may, of its own and the new node.
pub proof fn neighbours_take_the_node_in(
    g: arith::Calc32,
    keys: Seq<Seq<u32>>,
    policy: NeighborSelection,
    links: Seq<Seq<Seq<u32>>>,
    nb: u32,
    node: u32,
    layer: int,
    cap: nat,
)
    requires
        0 <= nb < links.len(),
        0 <= layer < links[nb as int].len(),
    ensures
        ({
            let before = links[nb as int][layer];
            let out = hnsw::linked_back(g, keys, policy, links, nb, node, layer, cap);
            let after = out[nb as int][layer];
            &&& before.len() < cap ==> after == before.push(node)
            &&& before.len() >= cap ==> after.len() <= cap && forall|i: int|
                0 <= i < after.len() ==> before.push(node).contains(#[trigger] after[i])
            &&& forall|x: int, l: int|
                0 <= x < links.len() && 0 <= l < links[x].len() && !(x == nb && l == layer)
                    ==> #[trigger] out[x][l] == links[x][l]
        }),
{
    let list = links[nb as int][layer].push(node);
    if list.len() > cap {
        let ranked = hnsw::by_rank(g, keys, nb, list);
        let cands = ranked.reverse();
        hnsw::lemma_by_rank(g, keys, nb, list);
        hnsw::selection_is_from_the_candidates(g, keys, policy, cands, nb, cap);
        let kept = hnsw::selected(g, keys, policy, cands, nb, cap);
        assert forall|i: int| 0 <= i < kept.len() implies list.contains(#[trigger] kept[i]) by {
            assert(hnsw::nodes(cands).contains(kept[i]));
            let j = choose|j: int| 0 <= j < cands.len() && hnsw::nodes(cands)[j] == kept[i];
            assert(cands[j] == ranked[cands.len() - 1 - j]);
        }
    }
}

// ---------------------------------------------------------------- accounting

/// The fraction of deleted nodes, times all nodes, is how many are deleted.
pub proof fn tombstone_fraction_counts_the_deleted(
    k: arith::Calc,
    r: Reading,
    gr: Graph,
)
    requires
        gr.wf(),
        gr.ids.len() > 0,
        ({
            let (a, n) = (hnsw::tally(gr.deleted) as u64, gr.ids.len() as u64);
            &&& reals::precise(k, r, Op::Whole, a, 0)
            &&& reals::precise(k, r, Op::Whole, n, 0)
            &&& reals::precise(k, r, Op::Over, k(Op::Whole, a, 0), k(Op::Whole, n, 0))
        }),
    ensures
        (r.val)(hnsw::fraction_deleted(k, gr)) * gr.ids.len() as real == hnsw::tally(
            gr.deleted,
        ) as real,
        hnsw::tally(gr.deleted) + gr.live() == gr.ids.len(),
{
    lemma_tally(gr.deleted);
    let (a, n) = (hnsw::tally(gr.deleted), gr.ids.len());
    assert((a as u64) as real == a as real);
    assert((n as u64) as real == n as real);
    reals::lemma_quotient(a as real, n as real, 0 as real);
}

/// Deleting a node takes one off the live ones and changes nothing else: no
/// id, no key, no link.
pub proof fn deleting_takes_one_off_the_live(gr: Graph, x: int)
    requires
        gr.wf(),
        0 <= x < gr.ids.len(),
        !gr.deleted[x],
    ensures
        ({
            let b = hnsw::without(gr, x);
            &&& b.live() == gr.live() - 1
            &&& b.ids == gr.ids && b.keys == gr.keys && b.links == gr.links && b.entry == gr.entry
            &&& forall|y: int| 0 <= y < gr.ids.len() ==> (#[trigger] b.deleted[y] <==> gr.deleted[y]
                || y == x)
        }),
{
    deleting_counts_one_more(gr.deleted, x);
    lemma_tally(gr.deleted.update(x, true));
}

proof fn lemma_tally(v: Seq<bool>)
    ensures
        hnsw::tally(v) <= v.len(),
    decreases v.len(),
{
    if v.len() > 0 {
        lemma_tally(v.drop_last());
    }
}

/// Deleting a node that is alive counts one more; the rest stay as they are.
pub proof fn deleting_counts_one_more(v: Seq<bool>, x: int)
    requires
        0 <= x < v.len(),
        !v[x],
    ensures
        hnsw::tally(v.update(x, true)) == hnsw::tally(v) + 1,
    decreases v.len(),
{
    let w = v.update(x, true);
    if x == v.len() - 1 {
        assert(w.drop_last() =~= v.drop_last());
    } else {
        deleting_counts_one_more(v.drop_last(), x);
        assert(w.drop_last() =~= v.drop_last().update(x, true));
    }
}

/// Neighbours take four bytes each, wherever they stand.
pub proof fn neighbours_take_four_bytes(a: Seq<usize>, b: Seq<usize>, n: usize)
    ensures
        footprint::list_bytes(a + b) == footprint::list_bytes(a) + footprint::list_bytes(b),
        footprint::list_bytes(seq![n]) == 4 * n,
    decreases b.len(),
{
    let one = seq![n];
    assert(one.drop_last() =~= Seq::empty());
    assert(footprint::list_bytes(one.drop_last()) == 0);
    if b.len() == 0 {
        assert(a + b =~= a);
    } else {
        neighbours_take_four_bytes(a, b.drop_last(), n);
        assert((a + b).drop_last() =~= a + b.drop_last());
    }
}

/// Nodes take a header of 24 bytes each, as much for each layer, and their
/// neighbours.
pub proof fn nodes_take_their_headers(a: Seq<NodeReserved>, b: Seq<NodeReserved>, x: NodeReserved)
    ensures
        footprint::link_bytes(a + b) == footprint::link_bytes(a) + footprint::link_bytes(b),
        footprint::link_bytes(seq![x]) == 24 * (1 + x.layers) + footprint::list_bytes(x.lists@),
    decreases b.len(),
{
    let one = seq![x];
    assert(one.drop_last() =~= Seq::empty());
    assert(footprint::link_bytes(one.drop_last()) == 0);
    if b.len() == 0 {
        assert(a + b =~= a);
    } else {
        nodes_take_their_headers(a, b.drop_last(), x);
        assert((a + b).drop_last() =~= a + b.drop_last());
    }
}

proof fn lemma_others_stay(
    g: arith::Calc32,
    keys: Seq<Seq<u32>>,
    policy: NeighborSelection,
    links: Seq<Seq<Seq<u32>>>,
    nbs: Seq<u32>,
    node: u32,
    layer: int,
    cap: nat,
)
    requires
        nbs.no_duplicates(),
        forall|i: int|
            0 <= i < nbs.len() ==> #[trigger] nbs[i] < links.len() && 0 <= layer
                < links[nbs[i] as int].len(),
    ensures
        ({
            let out = hnsw::linked_back_all(g, keys, policy, links, nbs, node, layer, cap);
            &&& out.len() == links.len()
            &&& forall|x: int| 0 <= x < links.len() ==> #[trigger] out[x].len() == links[x].len()
            &&& forall|x: int, l: int|
                0 <= x < links.len() && 0 <= l < links[x].len() && (l != layer || !nbs.contains(
                    x as u32,
                )) ==> #[trigger] out[x][l] == links[x][l]
            &&& forall|i: int|
                0 <= i < nbs.len() ==> out[(#[trigger] nbs[i]) as int][layer] == hnsw::linked_back(
                    g,
                    keys,
                    policy,
                    links,
                    nbs[i],
                    node,
                    layer,
                    cap,
                )[nbs[i] as int][layer]
        }),
    decreases nbs.len(),
{
    if nbs.len() > 0 {
        let rest = nbs.drop_last();
        let last = nbs.last();
        assert(nbs[nbs.len() - 1] == last);
        assert forall|i: int| 0 <= i < rest.len() implies #[trigger] rest[i] < links.len() && 0
            <= layer < links[rest[i] as int].len() by {
            assert(rest[i] == nbs[i]);
        }
        lemma_others_stay(g, keys, policy, links, rest, node, layer, cap);
        let mid = hnsw::linked_back_all(g, keys, policy, links, rest, node, layer, cap);
        let out = hnsw::linked_back_all(g, keys, policy, links, nbs, node, layer, cap);
        assert(!rest.contains(last)) by {
            if rest.contains(last) {
                let i = choose|i: int| 0 <= i < rest.len() && rest[i] == last;
                assert(nbs[i] == nbs[nbs.len() - 1]);
            }
        }
        assert(mid[last as int].len() == links[last as int].len());
        assert(mid[last as int][layer] == links[last as int][layer]);
        assert forall|x: int, l: int|
            0 <= x < links.len() && 0 <= l < links[x].len() && (l != layer || !nbs.contains(
                x as u32,
            )) implies #[trigger] out[x][l] == links[x][l] by {
            if rest.contains(x as u32) {
                let i = choose|i: int| 0 <= i < rest.len() && rest[i] == x as u32;
                assert(nbs[i] == x as u32);
            }
            if l == layer && x == last {
                assert(nbs.contains(x as u32));
            }
            assert(mid[x].len() == links[x].len());
            assert(mid[x][l] == links[x][l]);
        }
        assert forall|i: int| 0 <= i < nbs.len() implies out[(#[trigger] nbs[i]) as int][layer]
            == hnsw::linked_back(g, keys, policy, links, nbs[i], node, layer, cap)[nbs[i] as int][layer] by {
            if i < rest.len() {
                assert(rest[i] == nbs[i]);
                assert(nbs[i] != nbs[nbs.len() - 1]);
            }
        }
    }
}

/// Linking goes both ways: each of the chosen neighbours that has room takes
/// the new node in behind its own, whatever the others do, and no other
/// node's links change.
pub proof fn every_neighbour_takes_the_node_in(
    g: arith::Calc32,
    keys: Seq<Seq<u32>>,
    policy: NeighborSelection,
    links: Seq<Seq<Seq<u32>>>,
    nbs: Seq<u32>,
    node: u32,
    layer: int,
    cap: nat,
    i: int,
)
    requires
        nbs.no_duplicates(),
        forall|j: int|
            0 <= j < nbs.len() ==> #[trigger] nbs[j] < links.len() && 0 <= layer
                < links[nbs[j] as int].len(),
        0 <= i < nbs.len(),
        links[nbs[i] as int][layer].len() < cap,
    ensures
        ({
            let out = hnsw::linked_back_all(g, keys, policy, links, nbs, node, layer, cap);
            &&& out[nbs[i] as int][layer] == links[nbs[i] as int][layer].push(node)
            &&& forall|x: int, l: int|
                0 <= x < links.len() && 0 <= l < links[x].len() && (l != layer || !nbs.contains(
                    x as u32,
                )) ==> #[trigger] out[x][l] == links[x][l]
        }),
{
    lemma_others_stay(g, keys, policy, links, nbs, node, layer, cap);
    neighbours_take_the_node_in(g, keys, policy, links, nbs[i], node, layer, cap);
}

/// A search enters layer 0 at a node that no neighbour in layer 1 scores
/// above, where there is a layer 1.
pub proof fn search_enters_at_a_local_best(g: arith::Calc32, gr: Graph, q: Seq<u32>)
    requires
        gr.wf(),
        gr.entry is Some,
        gr.top >= 1,
    ensures
        ({
            let e = hnsw::search_entry(g, gr, q);
            let around = crate::beam::neighbors(gr.links, e.node as int, 1);
            &&& e.node < gr.ids.len()
            &&& e.score == hnsw::product(g, q, gr.keys[e.node as int])
            &&& forall|i: int|
                0 <= i < around.len() ==> !bits::num_lt_32(
                    e.score,
                    hnsw::product(g, q, gr.keys[(#[trigger] around[i]) as int]),
                )
        }),
{
    let sc = hnsw::scorer(g, gr.keys, q);
    let first = crate::beam::cand(sc, gr.entry->0);
    assert(crate::beam::closed_links(gr.links));
    crate::beam::descent_ends_at_a_local_best(gr.links, sc, first, gr.top as int, 1);
    let e = hnsw::search_entry(g, gr, q);
    let around = crate::beam::neighbors(gr.links, e.node as int, 1);
    assert forall|i: int| 0 <= i < around.len() implies !bits::num_lt_32(
        e.score,
        hnsw::product(g, q, gr.keys[(#[trigger] around[i]) as int]),
    ) by {
        assert(!bits::num_lt_32(e.score, sc(around[i])));
    }
}

/// The bytes of an index: four for each number of a key and each id that
/// fits, one for each tombstone, sixteen for each entry of the id map, and
/// the links.
pub proof fn room_takes_its_bytes(r: footprint::Reserved, nodes: nat)
    ensures
        footprint::reserved_bytes(r, nodes) - footprint::link_bytes(r.nodes@) == 4 * (r.keys + r.ids)
            + r.deleted + 16 * nodes,
{
}

} // verus!

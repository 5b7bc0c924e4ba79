//! Best-first search over one layer of a layered graph.
//!
//! Scores are single-precision numbers as bit patterns; higher is better,
//! and ties break towards the lower node.

use vstd::prelude::*;

use crate::bits;
use crate::bits::{lt_32, total_rank_of};

verus! {

/// A scored candidate.
#[derive(Clone, Copy, Debug, PartialEq, Eq, Structural)]
pub struct Cand {
    /// The score.
    pub score: u32,
    /// The node.
    pub node: u32,
}

/// `a` ranks below `b`: by score, then the higher node below the lower.
pub open spec fn worse(a: Cand, b: Cand) -> bool {
    bits::total_rank(a.score) < bits::total_rank(b.score) || bits::total_rank(a.score)
        == bits::total_rank(b.score) && a.node > b.node
}

/// True where `a` ranks below `b`.
pub fn is_worse(a: Cand, b: Cand) -> (r: bool)
    ensures
        r == worse(a, b),
{
    let x: i64 = total_rank_of(a.score);
    let y: i64 = total_rank_of(b.score);
    x < y || x == y && a.node > b.node
}

/// The list with one more candidate at its place, worst first.
pub open spec fn put(s: Seq<Cand>, c: Cand) -> Seq<Cand>
    decreases s.len(),
{
    if s.len() == 0 || worse(s.last(), c) {
        s.push(c)
    } else {
        put(s.drop_last(), c).push(s.last())
    }
}

/// Worst first.
pub open spec fn ranked(s: Seq<Cand>) -> bool {
    forall|i: int, j: int| 0 <= i < j < s.len() ==> worse(s[i], s[j])
}

proof fn lemma_put_at(s: Seq<Cand>, c: Cand, i: int)
    requires
        0 <= i <= s.len(),
        i > 0 ==> worse(s[i - 1], c),
        forall|j: int| i <= j < s.len() ==> !worse(#[trigger] s[j], c),
    ensures
        put(s, c) == s.insert(i, c),
    decreases s.len(),
{
    if i == s.len() {
        assert(s.insert(i, c) =~= s.push(c));
    } else {
        let r = s.drop_last();
        assert(!worse(s[s.len() - 1], c));
        assert forall|j: int| i <= j < r.len() implies !worse(#[trigger] r[j], c) by {
            assert(r[j] == s[j]);
        }
        lemma_put_at(r, c, i);
        assert(s.insert(i, c) =~= r.insert(i, c).push(s.last()));
    }
}

/// Puts a candidate at its place in a list, worst first.
pub fn put_in(v: &mut Vec<Cand>, c: Cand)
    ensures
        final(v)@ == put(old(v)@, c),
{
    let mut i: usize = v.len();
    while i > 0 && !is_worse(v[i - 1], c)
        invariant
            i <= v@.len(),
            v@ == old(v)@,
            forall|j: int| i <= j < v@.len() ==> !worse(#[trigger] v@[j], c),
        decreases i,
    {
        i -= 1;
    }
    proof {
        lemma_put_at(v@, c, i as int);
    }
    v.insert(i, c);
}

/// The neighbours of a node in a layer; none where the node does not reach
/// that layer.
pub open spec fn neighbors(links: Seq<Seq<Seq<u32>>>, x: int, layer: int) -> Seq<u32> {
    if layer < links[x].len() {
        links[x][layer]
    } else {
        Seq::empty()
    }
}

/// The links of a graph as a mathematical value.
pub open spec fn links_view(v: Seq<Vec<Vec<u32>>>) -> Seq<Seq<Seq<u32>>> {
    Seq::new(v.len(), |x: int| Seq::new(v[x]@.len(), |l: int| v[x]@[l]@))
}

/// Every link leads to a node.
pub open spec fn closed_links(links: Seq<Seq<Seq<u32>>>) -> bool {
    forall|x: int, l: int, i: int|
        0 <= x < links.len() && 0 <= l < links[x].len() && 0 <= i < links[x][l].len()
            ==> #[trigger] links[x][l][i] < links.len()
}

/// `f` tells of each of the first `n` nodes what `sp` says.
pub open spec fn tells<T, F: Fn(u32) -> T>(f: F, sp: spec_fn(u32) -> T, n: nat) -> bool {
    &&& forall|x: u32| x < n ==> #[trigger] call_requires(f, (x,))
    &&& forall|x: u32, r: T| x < n && #[trigger] call_ensures(f, (x,), r) ==> r == sp(x)
}

/// A beam under way.
pub struct Beam {
    /// The nodes seen.
    pub visited: Seq<bool>,
    /// The candidates to expand, worst first.
    pub frontier: Seq<Cand>,
    /// The candidates accepted as results, worst first.
    pub accepted: Seq<Cand>,
}

/// The accepted results with one more, and the worst let go where there are
/// more than `ef`.
pub open spec fn accept(s: Seq<Cand>, c: Cand, ef: nat) -> Seq<Cand> {
    let t = put(s, c);
    if t.len() > ef {
        t.drop_first()
    } else {
        t
    }
}

/// The beam after looking at one neighbour.
pub open spec fn looked(
    sc: spec_fn(u32) -> u32,
    adm: spec_fn(u32) -> bool,
    ef: nat,
    b: Beam,
    x: u32,
) -> Beam {
    if b.visited[x as int] {
        b
    } else {
        let visited = b.visited.update(x as int, true);
        let c = Cand { score: sc(x), node: x };
        if b.accepted.len() >= ef && !bits::num_lt_32(b.accepted[0].score, c.score) {
            Beam { visited, ..b }
        } else {
            Beam {
                visited,
                frontier: put(b.frontier, c),
                accepted: if adm(x) {
                    accept(b.accepted, c, ef)
                } else {
                    b.accepted
                },
            }
        }
    }
}

/// The beam after looking at a list of neighbours in order.
pub open spec fn looked_all(
    sc: spec_fn(u32) -> u32,
    adm: spec_fn(u32) -> bool,
    ef: nat,
    b: Beam,
    xs: Seq<u32>,
) -> Beam
    decreases xs.len(),
{
    if xs.len() == 0 {
        b
    } else {
        looked(sc, adm, ef, looked_all(sc, adm, ef, b, xs.drop_last()), xs.last())
    }
}

/// What a beam search is asked for.
pub struct Ask {
    /// The layer.
    pub layer: int,
    /// How many results to keep.
    pub ef: nat,
    /// How many results there must be before the budget counts.
    pub k_floor: nat,
    /// How many nodes to expand.
    pub budget: nat,
}

/// True where the search stops at the best candidate `c` of the frontier,
/// after `pops` expansions.
pub open spec fn done(ask: Ask, accepted: Seq<Cand>, c: Cand, pops: nat) -> bool {
    ||| accepted.len() >= ask.ef && bits::num_lt_32(c.score, accepted[0].score)
    ||| pops >= ask.budget && accepted.len() >= ask.k_floor
}

/// The beam in the end, after at most `fuel` more expansions.
pub open spec fn run(
    links: Seq<Seq<Seq<u32>>>,
    sc: spec_fn(u32) -> u32,
    adm: spec_fn(u32) -> bool,
    ask: Ask,
    b: Beam,
    pops: nat,
    fuel: nat,
) -> Beam
    decreases fuel,
{
    if fuel == 0 || b.frontier.len() == 0 || done(ask, b.accepted, b.frontier.last(), pops) {
        b
    } else {
        let c = b.frontier.last();
        let rest = Beam { frontier: b.frontier.drop_last(), ..b };
        run(
            links,
            sc,
            adm,
            ask,
            looked_all(sc, adm, ask.ef, rest, neighbors(links, c.node as int, ask.layer)),
            pops + 1,
            (fuel - 1) as nat,
        )
    }
}

/// No node seen yet.
pub open spec fn unseen(n: nat) -> Seq<bool> {
    Seq::new(n, |i: int| false)
}

/// The beam at the entry.
pub open spec fn start(n: nat, adm: spec_fn(u32) -> bool, entry: Cand) -> Beam {
    Beam {
        visited: unseen(n).update(entry.node as int, true),
        frontier: seq![entry],
        accepted: if adm(entry.node) {
            seq![entry]
        } else {
            Seq::empty()
        },
    }
}

/// The accepted results of a search, worst first.
pub open spec fn found(
    links: Seq<Seq<Seq<u32>>>,
    sc: spec_fn(u32) -> u32,
    adm: spec_fn(u32) -> bool,
    ask: Ask,
    entry: Cand,
) -> Seq<Cand> {
    run(links, sc, adm, ask, start(links.len(), adm, entry), 0, links.len()).accepted
}

/// How many nodes are not yet seen.
pub open spec fn unseen_count(v: Seq<bool>) -> nat
    decreases v.len(),
{
    if v.len() == 0 {
        0
    } else {
        unseen_count(v.drop_last()) + (if v.last() {
            0nat
        } else {
            1nat
        })
    }
}

proof fn lemma_unseen_all(n: nat)
    ensures
        unseen_count(unseen(n)) == n,
    decreases n,
{
    if n > 0 {
        assert(unseen(n).drop_last() =~= unseen((n - 1) as nat));
        lemma_unseen_all((n - 1) as nat);
    }
}

proof fn lemma_see(v: Seq<bool>, x: int)
    requires
        0 <= x < v.len(),
    ensures
        unseen_count(v.update(x, true)) == unseen_count(v) - (if v[x] {
            0int
        } else {
            1int
        }),
    decreases v.len(),
{
    let w = v.update(x, true);
    if x == v.len() - 1 {
        assert(w.drop_last() =~= v.drop_last());
    } else {
        lemma_see(v.drop_last(), x);
        assert(w.drop_last() =~= v.drop_last().update(x, true));
    }
}

/// Every frontier candidate is a node that was seen.
pub open spec fn sane(b: Beam, n: nat) -> bool {
    &&& b.visited.len() == n
    &&& forall|i: int| 0 <= i < b.frontier.len() ==> (#[trigger] b.frontier[i]).node < n
}

/// The list has one more candidate.
pub proof fn lemma_put_len(s: Seq<Cand>, c: Cand)
    ensures
        put(s, c).len() == s.len() + 1,
        forall|x: Cand| #[trigger] put(s, c).contains(x) <==> s.contains(x) || x == c,
    decreases s.len(),
{
    let t = put(s, c);
    if s.len() == 0 || worse(s.last(), c) {
        assert forall|x: Cand| #[trigger] t.contains(x) <==> s.contains(x) || x == c by {
            if t.contains(x) {
                let i = t.index_of(x);
                if i < s.len() {
                    assert(s[i] == x);
                }
            }
            if s.contains(x) {
                assert(t[s.index_of(x)] == x);
            }
            if x == c {
                assert(t[t.len() - 1] == x);
            }
        }
    } else {
        let r = s.drop_last();
        let p = put(r, c);
        lemma_put_len(r, c);
        assert forall|x: Cand| #[trigger] t.contains(x) <==> s.contains(x) || x == c by {
            if t.contains(x) {
                let i = t.index_of(x);
                if i < p.len() {
                    assert(p[i] == x);
                    assert(p.contains(x));
                    if r.contains(x) {
                        assert(s[r.index_of(x)] == x);
                    }
                } else {
                    assert(s[s.len() - 1] == x);
                }
            }
            if s.contains(x) {
                let i = s.index_of(x);
                if i < r.len() {
                    assert(r[i] == x);
                    assert(p.contains(x));
                    assert(t[p.index_of(x)] == x);
                } else {
                    assert(t[t.len() - 1] == x);
                }
            }
            if x == c {
                assert(p.contains(x));
                assert(t[p.index_of(x)] == x);
            }
        }
    }
}

proof fn lemma_looked(
    sc: spec_fn(u32) -> u32,
    adm: spec_fn(u32) -> bool,
    ef: nat,
    b: Beam,
    x: u32,
    n: nat,
)
    requires
        sane(b, n),
        x < n,
    ensures
        ({
            let a = looked(sc, adm, ef, b, x);
            &&& sane(a, n)
            &&& unseen_count(a.visited) + a.frontier.len() <= unseen_count(b.visited)
                + b.frontier.len()
        }),
{
    let a = looked(sc, adm, ef, b, x);
    lemma_see(b.visited, x as int);
    let c = Cand { score: sc(x), node: x };
    lemma_put_len(b.frontier, c);
    assert forall|i: int| 0 <= i < a.frontier.len() implies (#[trigger] a.frontier[i]).node < n by {
        if a.frontier != b.frontier {
            assert(put(b.frontier, c).contains(a.frontier[i]));
            if b.frontier.contains(a.frontier[i]) {
                let j = b.frontier.index_of(a.frontier[i]);
                assert(b.frontier[j].node < n);
            }
        }
    }
}

/// Best-first beam over one layer. `welcome` gates the results alone: nodes
/// that it turns down still route. The search ends where the best of the
/// frontier is below the worst of `ef` results, or where `budget` nodes were
/// expanded and there are `k_floor` results. The results come best first.
pub(crate) fn search_layer<S: Fn(u32) -> u32, A: Fn(u32) -> bool>(
    links: &Vec<Vec<Vec<u32>>>,
    entry: Cand,
    layer: usize,
    ef: usize,
    k_floor: usize,
    budget: usize,
    score: &S,
    welcome: &A,
    sc: Ghost<spec_fn(u32) -> u32>,
    adm: Ghost<spec_fn(u32) -> bool>,
) -> (out: Vec<Cand>)
    requires
        ef >= 1,
        links@.len() <= u32::MAX,
        closed_links(links_view(links@)),
        entry.node < links@.len(),
        tells(*score, sc@, links@.len()),
        tells(*welcome, adm@, links@.len()),
    ensures
        out@ == found(
            links_view(links@),
            sc@,
            adm@,
            Ask {
                layer: layer as int,
                ef: ef as nat,
                k_floor: k_floor as nat,
                budget: budget as nat,
            },
            entry,
        ).reverse(),
{
    let n: usize = links.len();
    let ghost lv = links_view(links@);
    let ghost ask = Ask {
        layer: layer as int,
        ef: ef as nat,
        k_floor: k_floor as nat,
        budget: budget as nat,
    };
    let mut visited: Vec<bool> = Vec::new();
    let mut i: usize = 0;
    while i < n
        invariant
            i <= n,
            visited@ == unseen(i as nat),
        decreases n - i,
    {
        visited.push(false);
        i += 1;
        assert(visited@ =~= unseen(i as nat));
    }
    proof {
        lemma_unseen_all(n as nat);
        lemma_see(visited@, entry.node as int);
    }
    visited.set(entry.node as usize, true);
    let mut frontier: Vec<Cand> = Vec::new();
    frontier.push(entry);
    let mut accepted: Vec<Cand> = Vec::new();
    if welcome(entry.node) {
        accepted.push(entry);
    }
    let ghost first = start(n as nat, adm@, entry);
    assert(frontier@ =~= first.frontier);
    assert(accepted@ =~= first.accepted);
    let mut pops: usize = 0;
    let ghost mut fuel: nat = n as nat;
    while frontier.len() > 0
        invariant_except_break
            ef >= 1,
            n == links@.len(),
            n <= u32::MAX,
            lv == links_view(links@),
            closed_links(lv),
            tells(*score, sc@, n as nat),
            tells(*welcome, adm@, n as nat),
            ask == (Ask {
                layer: layer as int,
                ef: ef as nat,
                k_floor: k_floor as nat,
                budget: budget as nat,
            }),
            sane(
                Beam { visited: visited@, frontier: frontier@, accepted: accepted@ },
                n as nat,
            ),
            pops + fuel == n,
            unseen_count(visited@) + frontier@.len() <= fuel,
            run(lv, sc@, adm@, ask, first, 0, n as nat) == run(
                lv,
                sc@,
                adm@,
                ask,
                Beam { visited: visited@, frontier: frontier@, accepted: accepted@ },
                pops as nat,
                fuel,
            ),
        ensures
            accepted@ == run(lv, sc@, adm@, ask, first, 0, n as nat).accepted,
        decreases fuel,
    {
        let ghost b = Beam { visited: visited@, frontier: frontier@, accepted: accepted@ };
        let c: Cand = frontier[frontier.len() - 1];
        assert(frontier@[frontier@.len() - 1].node < n);
        let enough: bool = accepted.len() >= ef;
        if enough && lt_32(c.score, accepted[0].score) || pops >= budget && accepted.len()
            >= k_floor {
            assert(done(ask, b.accepted, b.frontier.last(), pops as nat));
            break;
        }
        assert(!done(ask, b.accepted, b.frontier.last(), pops as nat));
        frontier.pop();
        let ghost rest = Beam { frontier: b.frontier.drop_last(), ..b };
        pops += 1;
        let x: usize = c.node as usize;
        let ghost nbs = neighbors(lv, c.node as int, layer as int);
        assert(frontier@ =~= rest.frontier);
        assert forall|t: int| 0 <= t < rest.frontier.len() implies (#[trigger] rest.frontier[t]).node
            < n by {
            assert(rest.frontier[t] == b.frontier[t]);
        }
        if layer < links[x].len() {
            let list = &links[x][layer];
            let mut t: usize = 0;
            assert(list@ == nbs);
            while t < list.len()
                invariant
                    ef >= 1,
                    t <= list@.len(),
                    list@ == nbs,
                    n == links@.len(),
                    n <= u32::MAX,
                    tells(*score, sc@, n as nat),
                    tells(*welcome, adm@, n as nat),
                    forall|y: int| 0 <= y < nbs.len() ==> #[trigger] nbs[y] < n,
                    sane(
                        Beam { visited: visited@, frontier: frontier@, accepted: accepted@ },
                        n as nat,
                    ),
                    unseen_count(visited@) + frontier@.len() <= unseen_count(rest.visited)
                        + rest.frontier.len(),
                    (Beam { visited: visited@, frontier: frontier@, accepted: accepted@ })
                        == looked_all(sc@, adm@, ef as nat, rest, nbs.take(t as int)),
                decreases list.len() - t,
            {
                let nb: u32 = list[t];
                assert(nbs[t as int] < n);
                let ghost now = Beam {
                    visited: visited@,
                    frontier: frontier@,
                    accepted: accepted@,
                };
                let ghost next = looked(sc@, adm@, ef as nat, now, nb);
                proof {
                    assert(nbs.take(t + 1).drop_last() =~= nbs.take(t as int));
                    lemma_looked(sc@, adm@, ef as nat, now, nb, n as nat);
                }
                t += 1;
                let nbi: usize = nb as usize;
                if !visited[nbi] {
                    visited.set(nbi, true);
                    let s: u32 = score(nb);
                    if !(accepted.len() >= ef) || lt_32(accepted[0].score, s) {
                        let cand = Cand { score: s, node: nb };
                        put_in(&mut frontier, cand);
                        if welcome(nb) {
                            put_in(&mut accepted, cand);
                            if accepted.len() > ef {
                                let ghost full = accepted@;
                                accepted.remove(0);
                                assert(accepted@ =~= full.drop_first());
                            }
                        }
                    }
                }
                assert(visited@ =~= next.visited);
                assert(frontier@ =~= next.frontier);
                assert(accepted@ =~= next.accepted);
            }
            assert(nbs.take(t as int) =~= nbs);
        } else {
            assert(nbs =~= Seq::<u32>::empty());
        }
        proof {
            fuel = (fuel - 1) as nat;
        }
    }
    let ghost acc = accepted@;
    let mut out: Vec<Cand> = Vec::new();
    let mut j: usize = accepted.len();
    while j > 0
        invariant
            j <= accepted@.len(),
            accepted@ == acc,
            out@ == acc.reverse().take(acc.len() - j),
        decreases j,
    {
        j -= 1;
        out.push(accepted[j]);
        assert(out@ =~= acc.reverse().take(acc.len() - j));
    }
    assert(out@ =~= acc.reverse());
    out
}

// ------------------------------------------------------------------ laws

/// The candidate that a node makes.
pub open spec fn cand(sc: spec_fn(u32) -> u32, x: u32) -> Cand {
    Cand { score: sc(x), node: x }
}

/// The results so far are nodes seen and admitted, with their scores, worst
/// first, and no more than `ef`.
pub open spec fn kept(
    sc: spec_fn(u32) -> u32,
    adm: spec_fn(u32) -> bool,
    ef: nat,
    b: Beam,
    n: nat,
) -> bool {
    &&& b.visited.len() == n
    &&& ranked(b.accepted)
    &&& b.accepted.len() <= ef
    &&& forall|i: int|
        0 <= i < b.accepted.len() ==> {
            let c = #[trigger] b.accepted[i];
            c.node < n && b.visited[c.node as int] && adm(c.node) && c == cand(sc, c.node)
        }
}

proof fn lemma_put_ranked(s: Seq<Cand>, c: Cand)
    requires
        ranked(s),
        forall|i: int| 0 <= i < s.len() ==> (#[trigger] s[i]).node != c.node,
    ensures
        ranked(put(s, c)),
    decreases s.len(),
{
    if s.len() > 0 && !worse(s.last(), c) {
        let r = s.drop_last();
        assert forall|i: int, j: int| 0 <= i < j < r.len() implies worse(r[i], r[j]) by {
            assert(worse(s[i], s[j]));
        }
        assert forall|i: int| 0 <= i < r.len() implies (#[trigger] r[i]).node != c.node by {
            assert(r[i] == s[i]);
        }
        lemma_put_ranked(r, c);
        lemma_put_len(r, c);
        let p = put(r, c);
        let t = put(s, c);
        assert forall|i: int, j: int| 0 <= i < j < t.len() implies worse(t[i], t[j]) by {
            if j < p.len() {
                assert(worse(p[i], p[j]));
            } else {
                assert(p.contains(p[i]));
                if r.contains(p[i]) {
                    let x = r.index_of(p[i]);
                    assert(worse(s[x], s[s.len() - 1]));
                } else {
                    assert(s[s.len() - 1].node != c.node);
                }
            }
        }
    } else {
        let t = put(s, c);
        assert forall|i: int, j: int| 0 <= i < j < t.len() implies worse(t[i], t[j]) by {
            if j < s.len() {
                assert(worse(s[i], s[j]));
            } else if i < s.len() - 1 {
                assert(worse(s[i], s[s.len() - 1]));
            }
        }
    }
}

proof fn lemma_looked_kept(
    sc: spec_fn(u32) -> u32,
    adm: spec_fn(u32) -> bool,
    ef: nat,
    b: Beam,
    x: u32,
    n: nat,
)
    requires
        kept(sc, adm, ef, b, n),
        x < n,
        ef >= 1,
    ensures
        kept(sc, adm, ef, looked(sc, adm, ef, b, x), n),
        looked(sc, adm, ef, b, x).accepted.len() >= b.accepted.len(),
        b.visited[x as int] || b.accepted.len() < ef ==> forall|c: Cand|
            b.accepted.contains(c) ==> #[trigger] looked(
                sc,
                adm,
                ef,
                b,
                x,
            ).accepted.contains(c),
        !b.visited[x as int] && b.accepted.len() < ef && adm(x) ==> looked(
            sc,
            adm,
            ef,
            b,
            x,
        ).accepted.contains(cand(sc, x)),
{
    let a = looked(sc, adm, ef, b, x);
    let c = cand(sc, x);
    if !b.visited[x as int] {
        let t = put(b.accepted, c);
        lemma_put_len(b.accepted, c);
        assert forall|i: int| 0 <= i < b.accepted.len() implies (#[trigger] b.accepted[i]).node
            != c.node by {
            assert(b.visited[b.accepted[i].node as int]);
        }
        lemma_put_ranked(b.accepted, c);
        assert forall|i: int| 0 <= i < t.len() implies ({
            let y = #[trigger] t[i];
            y == c || b.accepted.contains(y)
        }) by {
            assert(t.contains(t[i]));
        }
        assert forall|i: int| 0 <= i < a.accepted.len() implies ({
            let y = #[trigger] a.accepted[i];
            y.node < n && a.visited[y.node as int] && adm(y.node) && y == cand(sc, y.node)
        }) by {
            let y = a.accepted[i];
            if a.accepted == b.accepted {
                assert(b.accepted[i] == y);
            } else {
                if t.len() > ef {
                    assert(y == t[i + 1]);
                } else {
                    assert(y == t[i]);
                }
                if y != c {
                    assert(b.accepted.contains(y));
                    let j = b.accepted.index_of(y);
                    assert(b.accepted[j] == y);
                }
            }
        }
        assert(ranked(a.accepted)) by {
            if a.accepted != b.accepted && t.len() > ef {
                assert forall|i: int, j: int| 0 <= i < j < a.accepted.len() implies worse(
                    a.accepted[i],
                    a.accepted[j],
                ) by {
                    assert(worse(t[i + 1], t[j + 1]));
                }
            }
        }
        if b.accepted.len() < ef {
            assert(a.accepted == b.accepted || a.accepted == t);
            if adm(x) {
                assert(a.accepted == t);
                assert(t.contains(c));
            }
            assert forall|y: Cand| b.accepted.contains(y) implies #[trigger] a.accepted.contains(
                y,
            ) by {
                assert(t.contains(y));
            }
        }
    } else {
        assert forall|y: Cand| b.accepted.contains(y) implies #[trigger] a.accepted.contains(y) by {
        }
    }
}

proof fn lemma_looked_all_kept(
    sc: spec_fn(u32) -> u32,
    adm: spec_fn(u32) -> bool,
    ef: nat,
    b: Beam,
    xs: Seq<u32>,
    n: nat,
)
    requires
        kept(sc, adm, ef, b, n),
        sane(b, n),
        forall|i: int| 0 <= i < xs.len() ==> #[trigger] xs[i] < n,
        ef >= 1,
    ensures
        ({
            let a = looked_all(sc, adm, ef, b, xs);
            &&& kept(sc, adm, ef, a, n)
            &&& sane(a, n)
            &&& a.accepted.len() >= b.accepted.len()
            &&& unseen_count(a.visited) + a.frontier.len() <= unseen_count(b.visited)
                + b.frontier.len()
        }),
    decreases xs.len(),
{
    if xs.len() > 0 {
        let r = xs.drop_last();
        assert forall|i: int| 0 <= i < r.len() implies #[trigger] r[i] < n by {
            assert(r[i] == xs[i]);
        }
        lemma_looked_all_kept(sc, adm, ef, b, r, n);
        let m = looked_all(sc, adm, ef, b, r);
        assert(xs[xs.len() - 1] == xs.last());
        lemma_looked_kept(sc, adm, ef, m, xs.last(), n);
        lemma_looked(sc, adm, ef, m, xs.last(), n);
    }
}

proof fn lemma_neighbors(links: Seq<Seq<Seq<u32>>>, x: int, layer: int)
    requires
        closed_links(links),
        0 <= x < links.len(),
        0 <= layer,
    ensures
        forall|i: int|
            0 <= i < neighbors(links, x, layer).len() ==> #[trigger] neighbors(links, x, layer)[i]
                < links.len(),
{
    if layer < links[x].len() {
        assert forall|i: int| 0 <= i < neighbors(links, x, layer).len() implies #[trigger] neighbors(
            links,
            x,
            layer,
        )[i] < links.len() by {
            assert(links[x][layer][i] < links.len());
        }
    }
}

proof fn lemma_run_kept(
    links: Seq<Seq<Seq<u32>>>,
    sc: spec_fn(u32) -> u32,
    adm: spec_fn(u32) -> bool,
    ask: Ask,
    b: Beam,
    pops: nat,
    fuel: nat,
)
    requires
        closed_links(links),
        ask.ef >= 1,
        ask.layer >= 0,
        kept(sc, adm, ask.ef, b, links.len()),
        sane(b, links.len()),
    ensures
        kept(sc, adm, ask.ef, run(links, sc, adm, ask, b, pops, fuel), links.len()),
        run(links, sc, adm, ask, b, pops, fuel).accepted.len() >= b.accepted.len(),
    decreases fuel,
{
    if fuel == 0 || b.frontier.len() == 0 || done(ask, b.accepted, b.frontier.last(), pops) {
    } else {
        let n = links.len();
        let c = b.frontier[b.frontier.len() - 1];
        let rest = Beam { frontier: b.frontier.drop_last(), ..b };
        assert forall|t: int| 0 <= t < rest.frontier.len() implies (#[trigger] rest.frontier[t]).node
            < n by {
            assert(rest.frontier[t] == b.frontier[t]);
        }
        assert(c.node < n);
        lemma_neighbors(links, c.node as int, ask.layer);
        let nbs = neighbors(links, c.node as int, ask.layer);
        lemma_looked_all_kept(sc, adm, ask.ef, rest, nbs, n);
        lemma_run_kept(
            links,
            sc,
            adm,
            ask,
            looked_all(sc, adm, ask.ef, rest, nbs),
            pops + 1,
            (fuel - 1) as nat,
        );
    }
}

proof fn lemma_start(
    n: nat,
    sc: spec_fn(u32) -> u32,
    adm: spec_fn(u32) -> bool,
    ef: nat,
    entry: Cand,
)
    requires
        ef >= 1,
        entry.node < n,
        entry == cand(sc, entry.node),
    ensures
        kept(sc, adm, ef, start(n, adm, entry), n),
        sane(start(n, adm, entry), n),
        unseen_count(start(n, adm, entry).visited) + 1 == n,
{
    lemma_unseen_all(n);
    lemma_see(unseen(n), entry.node as int);
}

/// The results of a search are admitted nodes with their own scores, none
/// twice, no more than `ef`, in order of rank.
pub proof fn results_are_admitted_and_ranked(
    links: Seq<Seq<Seq<u32>>>,
    sc: spec_fn(u32) -> u32,
    adm: spec_fn(u32) -> bool,
    ask: Ask,
    entry: Cand,
)
    requires
        closed_links(links),
        ask.ef >= 1,
        ask.layer >= 0,
        entry.node < links.len(),
        entry == cand(sc, entry.node),
    ensures
        ranked(found(links, sc, adm, ask, entry)),
        found(links, sc, adm, ask, entry).len() <= ask.ef,
        forall|i: int|
            0 <= i < found(links, sc, adm, ask, entry).len() ==> {
                let c = #[trigger] found(links, sc, adm, ask, entry)[i];
                c.node < links.len() && adm(c.node) && c == cand(sc, c.node)
            },
        forall|i: int, j: int|
            0 <= i < j < found(links, sc, adm, ask, entry).len() ==> found(
                links,
                sc,
                adm,
                ask,
                entry,
            )[i].node != found(links, sc, adm, ask, entry)[j].node,
{
    let n = links.len();
    lemma_start(n, sc, adm, ask.ef, entry);
    lemma_run_kept(links, sc, adm, ask, start(n, adm, entry), 0, n);
    let f = found(links, sc, adm, ask, entry);
    assert forall|i: int, j: int| 0 <= i < j < f.len() implies f[i].node != f[j].node by {
        assert(worse(f[i], f[j]));
        assert(f[i] == cand(sc, f[i].node));
        assert(f[j] == cand(sc, f[j].node));
    }
}

/// Every node seen has been accepted if admitted, and either waits to be
/// expanded or has had all its neighbours seen.
pub open spec fn thorough(
    links: Seq<Seq<Seq<u32>>>,
    sc: spec_fn(u32) -> u32,
    adm: spec_fn(u32) -> bool,
    layer: int,
    b: Beam,
) -> bool {
    &&& forall|x: u32|
        x < links.len() && #[trigger] b.visited[x as int] && adm(x) ==> b.accepted.contains(
            cand(sc, x),
        )
    &&& forall|x: u32|
        x < links.len() && #[trigger] b.visited[x as int] ==> b.frontier.contains(cand(sc, x))
            || surrounded(links, layer, b, x)
}

/// All neighbours of `x` have been seen.
pub open spec fn surrounded(links: Seq<Seq<Seq<u32>>>, layer: int, b: Beam, x: u32) -> bool {
    forall|i: int|
        0 <= i < neighbors(links, x as int, layer).len() ==> b.visited[#[trigger] neighbors(
            links,
            x as int,
            layer,
        )[i] as int]
}

/// Looking at neighbours one after the other while there is room keeps the
/// search thorough, except for the node whose neighbours they are.
proof fn lemma_looked_all_thorough(
    links: Seq<Seq<Seq<u32>>>,
    sc: spec_fn(u32) -> u32,
    adm: spec_fn(u32) -> bool,
    ask: Ask,
    b: Beam,
    from: u32,
    xs: Seq<u32>,
)
    requires
        closed_links(links),
        ask.ef >= 1,
        ask.layer >= 0,
        kept(sc, adm, ask.ef, b, links.len()),
        sane(b, links.len()),
        forall|i: int| 0 <= i < xs.len() ==> #[trigger] xs[i] < links.len(),
        room(links, sc, adm, ask.ef, b, xs),
        forall|x: u32|
            x < links.len() && #[trigger] b.visited[x as int] && adm(x) ==> b.accepted.contains(
                cand(sc, x),
            ),
        forall|x: u32|
            x < links.len() && #[trigger] b.visited[x as int] ==> x == from || b.frontier.contains(
                cand(sc, x),
            ) || surrounded(links, ask.layer, b, x),
    ensures
        ({
            let a = looked_all(sc, adm, ask.ef, b, xs);
            &&& forall|x: u32|
                x < links.len() && #[trigger] a.visited[x as int] && adm(x) ==> a.accepted.contains(
                    cand(sc, x),
                )
            &&& forall|x: u32|
                x < links.len() && #[trigger] a.visited[x as int] ==> x == from
                    || a.frontier.contains(cand(sc, x)) || surrounded(links, ask.layer, a, x)
            &&& forall|x: u32| x < links.len() && b.visited[x as int] ==> #[trigger] a.visited[x as int]
            &&& forall|i: int| 0 <= i < xs.len() ==> a.visited[#[trigger] xs[i] as int]
        }),
    decreases xs.len(),
{
    if xs.len() > 0 {
        let n = links.len();
        let r = xs.drop_last();
        assert forall|i: int| 0 <= i < r.len() implies #[trigger] r[i] < n by {
            assert(r[i] == xs[i]);
        }
        let m = looked_all(sc, adm, ask.ef, b, r);
        assert(room(links, sc, adm, ask.ef, b, r)) by {
            assert forall|t: int| 0 <= t < r.len() implies roomy(
                sc,
                adm,
                ask.ef,
                b,
                #[trigger] r.take(t),
                r[t],
            ) by {
                assert(r.take(t) =~= xs.take(t));
                assert(r[t] == xs[t]);
            }
        }
        lemma_looked_all_thorough(links, sc, adm, ask, b, from, r);
        lemma_looked_all_kept(sc, adm, ask.ef, b, r, n);
        let y = xs[xs.len() - 1];
        assert(xs.last() == y);
        let a = looked_all(sc, adm, ask.ef, b, xs);
        assert(a == looked(sc, adm, ask.ef, m, y));
        assert(roomy(sc, adm, ask.ef, b, xs.take(xs.len() - 1), xs[xs.len() - 1]));
        assert(xs.take(xs.len() - 1) =~= r);
        lemma_looked_kept(sc, adm, ask.ef, m, y, n);
        lemma_put_len(m.frontier, cand(sc, y));
        assert forall|x: u32| x < n && #[trigger] a.visited[x as int] && adm(x) implies a.accepted.contains(
            cand(sc, x),
        ) by {
            if x != y || m.visited[y as int] {
                assert(m.visited[x as int]);
            }
        }
        assert forall|x: u32| x < n && #[trigger] a.visited[x as int] implies x == from
            || a.frontier.contains(cand(sc, x)) || surrounded(links, ask.layer, a, x) by {
            if x != from {
                if x == y && !m.visited[y as int] {
                    assert(put(m.frontier, cand(sc, y)).contains(cand(sc, y)));
                } else {
                    assert(m.visited[x as int]);
                    if m.frontier.contains(cand(sc, x)) {
                        assert(a.frontier.contains(cand(sc, x)));
                    } else {
                        assert(surrounded(links, ask.layer, m, x));
                        lemma_neighbors(links, x as int, ask.layer);
                        assert(surrounded(links, ask.layer, a, x));
                    }
                }
            }
        }
        assert forall|i: int| 0 <= i < xs.len() implies a.visited[#[trigger] xs[i] as int] by {
            if i < r.len() {
                assert(m.visited[r[i] as int]);
            }
        }
    } else {
        assert forall|x: u32| x < links.len() && b.visited[x as int] implies #[trigger] looked_all(
            sc,
            adm,
            ask.ef,
            b,
            xs,
        ).visited[x as int] by {}
    }
}

/// There is room for a new node at this point, or it is not new.
pub open spec fn roomy(
    sc: spec_fn(u32) -> u32,
    adm: spec_fn(u32) -> bool,
    ef: nat,
    b: Beam,
    before: Seq<u32>,
    x: u32,
) -> bool {
    let m = looked_all(sc, adm, ef, b, before);
    m.visited[x as int] || m.accepted.len() < ef
}

/// There is room for each new node in the list.
pub open spec fn room(
    links: Seq<Seq<Seq<u32>>>,
    sc: spec_fn(u32) -> u32,
    adm: spec_fn(u32) -> bool,
    ef: nat,
    b: Beam,
    xs: Seq<u32>,
) -> bool {
    forall|t: int| 0 <= t < xs.len() ==> roomy(sc, adm, ef, b, #[trigger] xs.take(t), xs[t])
}

/// Where the results never fill up, or filling up means that every node is
/// among them, the search sees everything that it can reach.
proof fn lemma_run_thorough(
    links: Seq<Seq<Seq<u32>>>,
    sc: spec_fn(u32) -> u32,
    adm: spec_fn(u32) -> bool,
    ask: Ask,
    b: Beam,
    pops: nat,
    fuel: nat,
)
    requires
        closed_links(links),
        ask.ef >= 1,
        ask.layer >= 0,
        links.len() <= u32::MAX,
        kept(sc, adm, ask.ef, b, links.len()),
        sane(b, links.len()),
        pops + fuel == links.len(),
        unseen_count(b.visited) + b.frontier.len() <= fuel,
        thorough(links, sc, adm, ask.layer, b),
        forall|i: int| 0 <= i < b.frontier.len() ==> (#[trigger] b.frontier[i]) == cand(
            sc,
            b.frontier[i].node,
        ),
        ({
            let end = run(links, sc, adm, ask, b, pops, fuel).accepted.len();
            (end < ask.ef && end < ask.k_floor) || (ask.ef >= links.len() && ask.budget
                >= links.len())
        }),
    ensures
        ({
            let end = run(links, sc, adm, ask, b, pops, fuel);
            &&& forall|x: u32| x < links.len() && b.visited[x as int] ==> #[trigger] end.visited[x as int]
            &&& forall|x: u32|
                x < links.len() && #[trigger] end.visited[x as int] && adm(x)
                    ==> end.accepted.contains(cand(sc, x))
            &&& (forall|x: u32| x < links.len() && #[trigger] end.visited[x as int] ==> surrounded(
                links,
                ask.layer,
                end,
                x,
            )) || (forall|x: u32| x < links.len() ==> #[trigger] end.accepted.contains(cand(sc, x)))
        }),
    decreases fuel,
{
    let n = links.len();
    let end = run(links, sc, adm, ask, b, pops, fuel);
    if b.accepted.len() >= n {
        lemma_all_accepted(sc, adm, ask.ef, b, n);
        lemma_run_all(links, sc, adm, ask, b, pops, fuel);
        assert forall|x: u32| x < n && #[trigger] end.visited[x as int] && adm(x) implies end.accepted.contains(
            cand(sc, x),
        ) by {}
    } else if b.frontier.len() == 0 {
        assert forall|x: u32| x < n && #[trigger] end.visited[x as int] implies surrounded(
            links,
            ask.layer,
            end,
            x,
        ) by {
            assert(!b.frontier.contains(cand(sc, x)));
        }
    } else {
        let c = b.frontier[b.frontier.len() - 1];
        assert(b.frontier.last() == c);
        lemma_run_kept(links, sc, adm, ask, b, pops, fuel);
        if done(ask, b.accepted, c, pops) {
            assert(false);
        }
        let rest = Beam { frontier: b.frontier.drop_last(), ..b };
        assert forall|t: int| 0 <= t < rest.frontier.len() implies (#[trigger] rest.frontier[t]).node
            < n && rest.frontier[t] == cand(sc, rest.frontier[t].node) by {
            assert(rest.frontier[t] == b.frontier[t]);
        }
        assert(c.node < n && c == cand(sc, c.node));
        lemma_neighbors(links, c.node as int, ask.layer);
        let nbs = neighbors(links, c.node as int, ask.layer);
        let a = looked_all(sc, adm, ask.ef, rest, nbs);
        lemma_looked_all_kept(sc, adm, ask.ef, rest, nbs, n);
        lemma_run_kept(links, sc, adm, ask, a, pops + 1, (fuel - 1) as nat);
        assert(end == run(links, sc, adm, ask, a, pops + 1, (fuel - 1) as nat));
        assert forall|t: int| 0 <= t < nbs.len() implies roomy(
            sc,
            adm,
            ask.ef,
            rest,
            #[trigger] nbs.take(t),
            nbs[t],
        ) by {
            lemma_prefix_room(links, sc, adm, ask, rest, nbs, t, end.accepted.len());
        }
        assert forall|x: u32| x < n && #[trigger] rest.visited[x as int] implies x == c.node
            || rest.frontier.contains(cand(sc, x)) || surrounded(links, ask.layer, rest, x) by {
            assert(b.visited[x as int]);
            if b.frontier.contains(cand(sc, x)) {
                let i = b.frontier.index_of(cand(sc, x));
                if i < rest.frontier.len() {
                    assert(rest.frontier[i] == cand(sc, x));
                }
            } else {
                assert(surrounded(links, ask.layer, b, x));
                assert(surrounded(links, ask.layer, rest, x));
            }
        }
        lemma_looked_all_thorough(links, sc, adm, ask, rest, c.node, nbs);
        assert(surrounded(links, ask.layer, a, c.node));
        lemma_frontier_cands(sc, adm, ask.ef, rest, nbs);
        lemma_run_thorough(links, sc, adm, ask, a, pops + 1, (fuel - 1) as nat);
        assert forall|x: u32| x < n && b.visited[x as int] implies #[trigger] end.visited[x as int] by {
            assert(rest.visited[x as int]);
            assert(a.visited[x as int]);
        }
    }
}

/// Frontier candidates carry the scores of their nodes.
proof fn lemma_frontier_cands(
    sc: spec_fn(u32) -> u32,
    adm: spec_fn(u32) -> bool,
    ef: nat,
    b: Beam,
    xs: Seq<u32>,
)
    requires
        forall|i: int| 0 <= i < b.frontier.len() ==> (#[trigger] b.frontier[i]) == cand(
            sc,
            b.frontier[i].node,
        ),
    ensures
        forall|i: int|
            0 <= i < looked_all(sc, adm, ef, b, xs).frontier.len() ==> (#[trigger] looked_all(
                sc,
                adm,
                ef,
                b,
                xs,
            ).frontier[i]) == cand(sc, looked_all(sc, adm, ef, b, xs).frontier[i].node),
    decreases xs.len(),
{
    if xs.len() > 0 {
        let m = looked_all(sc, adm, ef, b, xs.drop_last());
        lemma_frontier_cands(sc, adm, ef, b, xs.drop_last());
        let c = cand(sc, xs.last());
        lemma_put_len(m.frontier, c);
        let a = looked_all(sc, adm, ef, b, xs);
        assert forall|i: int| 0 <= i < a.frontier.len() implies (#[trigger] a.frontier[i]) == cand(
            sc,
            a.frontier[i].node,
        ) by {
            if a.frontier != m.frontier {
                assert(put(m.frontier, c).contains(a.frontier[i]));
                if m.frontier.contains(a.frontier[i]) {
                    let j = m.frontier.index_of(a.frontier[i]);
                    assert(m.frontier[j] == cand(sc, m.frontier[j].node));
                }
            }
        }
    }
}

/// While the results stay below `ef` in the end there is room all along;
/// and where `ef` is as large as the graph, no room is left only once every
/// node was seen.
proof fn lemma_prefix_room(
    links: Seq<Seq<Seq<u32>>>,
    sc: spec_fn(u32) -> u32,
    adm: spec_fn(u32) -> bool,
    ask: Ask,
    b: Beam,
    xs: Seq<u32>,
    t: int,
    end: nat,
)
    requires
        ask.ef >= 1,
        kept(sc, adm, ask.ef, b, links.len()),
        sane(b, links.len()),
        forall|i: int| 0 <= i < xs.len() ==> #[trigger] xs[i] < links.len(),
        0 <= t < xs.len(),
        end >= looked_all(sc, adm, ask.ef, b, xs).accepted.len(),
        end < ask.ef || ask.ef >= links.len(),
        links.len() <= u32::MAX,
    ensures
        roomy(sc, adm, ask.ef, b, xs.take(t), xs[t]),
{
    let n = links.len();
    let p = xs.take(t);
    assert forall|i: int| 0 <= i < p.len() implies #[trigger] p[i] < n by {
        assert(p[i] == xs[i]);
    }
    lemma_looked_all_kept(sc, adm, ask.ef, b, p, n);
    let m = looked_all(sc, adm, ask.ef, b, p);
    if end < ask.ef {
        lemma_looked_all_grows(sc, adm, ask.ef, b, xs, t, n);
    } else if m.accepted.len() >= ask.ef {
        lemma_all_accepted(sc, adm, ask.ef, m, n);
        assert(xs[t] < n);
        assert(m.accepted.contains(cand(sc, xs[t])));
        let i = m.accepted.index_of(cand(sc, xs[t]));
        assert(m.visited[m.accepted[i].node as int]);
    }
}

proof fn lemma_looked_all_grows(
    sc: spec_fn(u32) -> u32,
    adm: spec_fn(u32) -> bool,
    ef: nat,
    b: Beam,
    xs: Seq<u32>,
    t: int,
    n: nat,
)
    requires
        ef >= 1,
        kept(sc, adm, ef, b, n),
        sane(b, n),
        forall|i: int| 0 <= i < xs.len() ==> #[trigger] xs[i] < n,
        0 <= t <= xs.len(),
    ensures
        looked_all(sc, adm, ef, b, xs.take(t)).accepted.len() <= looked_all(
            sc,
            adm,
            ef,
            b,
            xs,
        ).accepted.len(),
    decreases xs.len(),
{
    if t == xs.len() {
        assert(xs.take(t) =~= xs);
    } else {
        let r = xs.drop_last();
        assert forall|i: int| 0 <= i < r.len() implies #[trigger] r[i] < n by {
            assert(r[i] == xs[i]);
        }
        assert(r.take(t) =~= xs.take(t));
        lemma_looked_all_grows(sc, adm, ef, b, r, t, n);
        lemma_looked_all_kept(sc, adm, ef, b, r, n);
        assert(xs[xs.len() - 1] == xs.last());
        lemma_looked_kept(sc, adm, ef, looked_all(sc, adm, ef, b, r), xs.last(), n);
    }
}

/// As many results as there are nodes are all the nodes.
proof fn lemma_all_accepted(
    sc: spec_fn(u32) -> u32,
    adm: spec_fn(u32) -> bool,
    ef: nat,
    b: Beam,
    n: nat,
)
    requires
        kept(sc, adm, ef, b, n),
        b.accepted.len() >= n,
    ensures
        forall|x: u32| x < n ==> #[trigger] b.accepted.contains(cand(sc, x)),
        b.accepted.len() == n,
{
    let nodes = Seq::new(b.accepted.len(), |i: int| b.accepted[i].node as int);
    assert forall|i: int, j: int| 0 <= i < nodes.len() && 0 <= j < nodes.len() && i != j implies nodes[i]
        != nodes[j] by {
        if i < j {
            assert(worse(b.accepted[i], b.accepted[j]));
        } else {
            assert(worse(b.accepted[j], b.accepted[i]));
        }
        assert(b.accepted[i] == cand(sc, b.accepted[i].node));
        assert(b.accepted[j] == cand(sc, b.accepted[j].node));
    }
    nodes.unique_seq_to_set();
    let all = vstd::set_lib::set_int_range(0, n as int);
    vstd::set_lib::lemma_int_range(0, n as int);
    assert forall|x: int| nodes.to_set().contains(x) implies all.contains(x) by {
        let i = nodes.index_of(x);
        assert(b.accepted[i].node < n);
    }
    vstd::set_lib::lemma_len_subset(nodes.to_set(), all);
    vstd::set_lib::lemma_subset_equality(nodes.to_set(), all);
    assert forall|x: u32| x < n implies #[trigger] b.accepted.contains(cand(sc, x)) by {
        assert(all.contains(x as int));
        assert(nodes.to_set().contains(x as int));
        let i = nodes.index_of(x as int);
        assert(b.accepted[i] == cand(sc, b.accepted[i].node));
    }
}

/// Once every node is among the results nothing changes any more.
proof fn lemma_run_all(
    links: Seq<Seq<Seq<u32>>>,
    sc: spec_fn(u32) -> u32,
    adm: spec_fn(u32) -> bool,
    ask: Ask,
    b: Beam,
    pops: nat,
    fuel: nat,
)
    requires
        closed_links(links),
        ask.ef >= 1,
        ask.layer >= 0,
        kept(sc, adm, ask.ef, b, links.len()),
        sane(b, links.len()),
        forall|x: u32| x < links.len() ==> #[trigger] b.accepted.contains(cand(sc, x)),
    ensures
        run(links, sc, adm, ask, b, pops, fuel).accepted == b.accepted,
        run(links, sc, adm, ask, b, pops, fuel).visited == b.visited,
    decreases fuel,
{
    if fuel == 0 || b.frontier.len() == 0 || done(ask, b.accepted, b.frontier.last(), pops) {
    } else {
        let n = links.len();
        let c = b.frontier[b.frontier.len() - 1];
        let rest = Beam { frontier: b.frontier.drop_last(), ..b };
        assert forall|t: int| 0 <= t < rest.frontier.len() implies (#[trigger] rest.frontier[t]).node
            < n by {
            assert(rest.frontier[t] == b.frontier[t]);
        }
        assert(c.node < n);
        lemma_neighbors(links, c.node as int, ask.layer);
        let nbs = neighbors(links, c.node as int, ask.layer);
        lemma_looked_all_idle(sc, adm, ask.ef, rest, nbs, n);
        lemma_run_all(links, sc, adm, ask, rest, pops + 1, (fuel - 1) as nat);
    }
}

proof fn lemma_looked_all_idle(
    sc: spec_fn(u32) -> u32,
    adm: spec_fn(u32) -> bool,
    ef: nat,
    b: Beam,
    xs: Seq<u32>,
    n: nat,
)
    requires
        kept(sc, adm, ef, b, n),
        forall|i: int| 0 <= i < xs.len() ==> #[trigger] xs[i] < n,
        forall|x: u32| x < n ==> #[trigger] b.accepted.contains(cand(sc, x)),
    ensures
        looked_all(sc, adm, ef, b, xs) == b,
    decreases xs.len(),
{
    if xs.len() > 0 {
        let r = xs.drop_last();
        assert forall|i: int| 0 <= i < r.len() implies #[trigger] r[i] < n by {
            assert(r[i] == xs[i]);
        }
        lemma_looked_all_idle(sc, adm, ef, b, r, n);
        let x = xs[xs.len() - 1];
        assert(x < n);
        assert(b.accepted.contains(cand(sc, x)));
        let i = b.accepted.index_of(cand(sc, x));
        assert(b.visited[b.accepted[i].node as int]);
    }
}

/// A way through the links of one layer.
pub open spec fn path(links: Seq<Seq<Seq<u32>>>, layer: int, p: Seq<u32>) -> bool {
    &&& p.len() > 0
    &&& forall|i: int|
        0 <= i < p.len() - 1 ==> neighbors(links, (#[trigger] p[i]) as int, layer).contains(
            p[i + 1],
        )
}

proof fn lemma_path_seen(links: Seq<Seq<Seq<u32>>>, layer: int, b: Beam, p: Seq<u32>)
    requires
        closed_links(links),
        layer >= 0,
        b.visited.len() == links.len(),
        path(links, layer, p),
        p[0] < links.len(),
        b.visited[p[0] as int],
        forall|x: u32| x < links.len() && #[trigger] b.visited[x as int] ==> surrounded(
            links,
            layer,
            b,
            x,
        ),
    ensures
        p.last() < links.len(),
        b.visited[p.last() as int],
    decreases p.len(),
{
    if p.len() > 1 {
        let r = p.drop_last();
        assert forall|i: int| 0 <= i < r.len() - 1 implies neighbors(
            links,
            (#[trigger] r[i]) as int,
            layer,
        ).contains(r[i + 1]) by {
            assert(p[i] == r[i]);
        }
        lemma_path_seen(links, layer, b, r);
        let x = p[p.len() - 2];
        assert(r.last() == x);
        assert(neighbors(links, p[p.len() - 2] as int, layer).contains(p[p.len() - 2 + 1]));
        let nbs = neighbors(links, x as int, layer);
        let i = nbs.index_of(p.last());
        lemma_neighbors(links, x as int, layer);
        assert(surrounded(links, layer, b, x));
        assert(b.visited[neighbors(links, x as int, layer)[i] as int]);
    }
}

/// A search that comes back with fewer results than it was to keep, and
/// fewer than its budget asks for, has found every admitted node that the
/// entry leads to.
pub proof fn short_results_are_all_there_is(
    links: Seq<Seq<Seq<u32>>>,
    sc: spec_fn(u32) -> u32,
    adm: spec_fn(u32) -> bool,
    ask: Ask,
    entry: Cand,
    p: Seq<u32>,
)
    requires
        closed_links(links),
        links.len() <= u32::MAX,
        ask.ef >= 1,
        ask.layer >= 0,
        entry.node < links.len(),
        entry == cand(sc, entry.node),
        found(links, sc, adm, ask, entry).len() < ask.ef,
        found(links, sc, adm, ask, entry).len() < ask.k_floor,
        path(links, ask.layer, p),
        p[0] == entry.node,
        adm(p.last()),
    ensures
        found(links, sc, adm, ask, entry).contains(cand(sc, p.last())),
{
    lemma_reached(links, sc, adm, ask, entry, p);
}

/// A search as wide as the graph, without a budget, finds every admitted
/// node that the entry leads to; so the best of them comes out on top.
pub proof fn wide_beam_is_exact(
    links: Seq<Seq<Seq<u32>>>,
    sc: spec_fn(u32) -> u32,
    adm: spec_fn(u32) -> bool,
    ask: Ask,
    entry: Cand,
    p: Seq<u32>,
)
    requires
        closed_links(links),
        links.len() <= u32::MAX,
        ask.ef >= 1,
        ask.layer >= 0,
        entry.node < links.len(),
        entry == cand(sc, entry.node),
        ask.ef >= links.len(),
        ask.budget >= links.len(),
        path(links, ask.layer, p),
        p[0] == entry.node,
        adm(p.last()),
    ensures
        found(links, sc, adm, ask, entry).contains(cand(sc, p.last())),
        !worse(found(links, sc, adm, ask, entry).last(), cand(sc, p.last())),
{
    lemma_reached(links, sc, adm, ask, entry, p);
    results_are_admitted_and_ranked(links, sc, adm, ask, entry);
    let f = found(links, sc, adm, ask, entry);
    let i = f.index_of(cand(sc, p.last()));
    if i < f.len() - 1 {
        assert(worse(f[i], f[f.len() - 1]));
    }
}

proof fn lemma_reached(
    links: Seq<Seq<Seq<u32>>>,
    sc: spec_fn(u32) -> u32,
    adm: spec_fn(u32) -> bool,
    ask: Ask,
    entry: Cand,
    p: Seq<u32>,
)
    requires
        closed_links(links),
        links.len() <= u32::MAX,
        ask.ef >= 1,
        ask.layer >= 0,
        entry.node < links.len(),
        entry == cand(sc, entry.node),
        (found(links, sc, adm, ask, entry).len() < ask.ef && found(
            links,
            sc,
            adm,
            ask,
            entry,
        ).len() < ask.k_floor) || (ask.ef >= links.len() && ask.budget >= links.len()),
        path(links, ask.layer, p),
        p[0] == entry.node,
        adm(p.last()),
    ensures
        found(links, sc, adm, ask, entry).contains(cand(sc, p.last())),
{
    let n = links.len();
    let b = start(n, adm, entry);
    lemma_start(n, sc, adm, ask.ef, entry);
    assert(b.frontier[0] == entry);
    assert forall|x: u32| x < n && #[trigger] b.visited[x as int] implies x == entry.node by {}
    assert(thorough(links, sc, adm, ask.layer, b)) by {
        assert forall|x: u32| x < n && #[trigger] b.visited[x as int] && adm(x) implies b.accepted.contains(
            cand(sc, x),
        ) by {
            assert(b.accepted[0] == entry);
        }
        assert forall|x: u32| x < n && #[trigger] b.visited[x as int] implies b.frontier.contains(
            cand(sc, x),
        ) || surrounded(links, ask.layer, b, x) by {
            assert(b.frontier[0] == cand(sc, x));
        }
    }
    lemma_run_kept(links, sc, adm, ask, b, 0, n);
    lemma_run_thorough(links, sc, adm, ask, b, 0, n);
    let end = run(links, sc, adm, ask, b, 0, n);
    assert(end.visited[entry.node as int]) by {
        assert(b.visited[entry.node as int]);
    }
    if forall|x: u32| x < n ==> #[trigger] end.accepted.contains(cand(sc, x)) {
        lemma_path_in(links, ask.layer, p);
        assert(end.accepted.contains(cand(sc, p.last())));
    } else {
        lemma_path_seen(links, ask.layer, end, p);
        assert(end.accepted.contains(cand(sc, p.last())));
    }
}

proof fn lemma_path_in(links: Seq<Seq<Seq<u32>>>, layer: int, p: Seq<u32>)
    requires
        closed_links(links),
        layer >= 0,
        path(links, layer, p),
        p[0] < links.len(),
    ensures
        p.last() < links.len(),
    decreases p.len(),
{
    if p.len() > 1 {
        let r = p.drop_last();
        assert forall|i: int| 0 <= i < r.len() - 1 implies neighbors(
            links,
            (#[trigger] r[i]) as int,
            layer,
        ).contains(r[i + 1]) by {
            assert(p[i] == r[i]);
        }
        lemma_path_in(links, layer, r);
        assert(r.last() == p[p.len() - 2]);
        assert(neighbors(links, p[p.len() - 2] as int, layer).contains(p[p.len() - 2 + 1]));
        lemma_neighbors(links, p[p.len() - 2] as int, layer);
    }
}

// ----------------------------------------------------------- confinement

/// `ok` holds of every neighbour, in this layer, of a node of which it
/// holds.
pub open spec fn closed_under(
    links: Seq<Seq<Seq<u32>>>,
    layer: int,
    ok: spec_fn(u32) -> bool,
) -> bool {
    forall|x: u32, i: int|
        x < links.len() && ok(x) && 0 <= i < neighbors(links, x as int, layer).len() ==> ok(
            #[trigger] neighbors(links, x as int, layer)[i],
        )
}

/// `ok` holds of every candidate.
pub open spec fn all_ok(s: Seq<Cand>, ok: spec_fn(u32) -> bool) -> bool {
    forall|i: int| 0 <= i < s.len() ==> ok((#[trigger] s[i]).node)
}

proof fn lemma_put_ok(s: Seq<Cand>, c: Cand, ok: spec_fn(u32) -> bool)
    requires
        all_ok(s, ok),
        ok(c.node),
    ensures
        all_ok(put(s, c), ok),
{
    lemma_put_len(s, c);
    let t = put(s, c);
    assert forall|i: int| 0 <= i < t.len() implies ok((#[trigger] t[i]).node) by {
        assert(t.contains(t[i]));
        if s.contains(t[i]) {
            assert(ok(s[s.index_of(t[i])].node));
        }
    }
}

proof fn lemma_looked_all_ok(
    sc: spec_fn(u32) -> u32,
    adm: spec_fn(u32) -> bool,
    ef: nat,
    b: Beam,
    xs: Seq<u32>,
    ok: spec_fn(u32) -> bool,
)
    requires
        all_ok(b.frontier, ok),
        all_ok(b.accepted, ok),
        forall|i: int| 0 <= i < xs.len() ==> ok(#[trigger] xs[i]),
    ensures
        all_ok(looked_all(sc, adm, ef, b, xs).frontier, ok),
        all_ok(looked_all(sc, adm, ef, b, xs).accepted, ok),
    decreases xs.len(),
{
    if xs.len() > 0 {
        let r = xs.drop_last();
        assert forall|i: int| 0 <= i < r.len() implies ok(#[trigger] r[i]) by {
            assert(r[i] == xs[i]);
        }
        lemma_looked_all_ok(sc, adm, ef, b, r, ok);
        let m = looked_all(sc, adm, ef, b, r);
        let x = xs[xs.len() - 1];
        assert(ok(x));
        lemma_put_ok(m.frontier, cand(sc, x), ok);
        lemma_put_ok(m.accepted, cand(sc, x), ok);
        let t = put(m.accepted, cand(sc, x));
        assert forall|i: int| 0 <= i < t.drop_first().len() implies ok(
            (#[trigger] t.drop_first()[i]).node,
        ) by {
            assert(t.drop_first()[i] == t[i + 1]);
        }
    }
}

proof fn lemma_run_ok(
    links: Seq<Seq<Seq<u32>>>,
    sc: spec_fn(u32) -> u32,
    adm: spec_fn(u32) -> bool,
    ask: Ask,
    b: Beam,
    pops: nat,
    fuel: nat,
    ok: spec_fn(u32) -> bool,
)
    requires
        closed_under(links, ask.layer, ok),
        forall|x: u32| #[trigger] ok(x) ==> x < links.len(),
        all_ok(b.frontier, ok),
        all_ok(b.accepted, ok),
    ensures
        all_ok(run(links, sc, adm, ask, b, pops, fuel).accepted, ok),
    decreases fuel,
{
    if fuel == 0 || b.frontier.len() == 0 || done(ask, b.accepted, b.frontier.last(), pops) {
    } else {
        let c = b.frontier[b.frontier.len() - 1];
        assert(ok(c.node));
        let rest = Beam { frontier: b.frontier.drop_last(), ..b };
        assert forall|i: int| 0 <= i < rest.frontier.len() implies ok(
            (#[trigger] rest.frontier[i]).node,
        ) by {
            assert(rest.frontier[i] == b.frontier[i]);
        }
        let nbs = neighbors(links, c.node as int, ask.layer);
        lemma_looked_all_ok(sc, adm, ask.ef, rest, nbs, ok);
        lemma_run_ok(
            links,
            sc,
            adm,
            ask,
            looked_all(sc, adm, ask.ef, rest, nbs),
            pops + 1,
            (fuel - 1) as nat,
            ok,
        );
    }
}

/// A search stays among the nodes that its entry's links lead to.
pub proof fn results_stay_within(
    links: Seq<Seq<Seq<u32>>>,
    sc: spec_fn(u32) -> u32,
    adm: spec_fn(u32) -> bool,
    ask: Ask,
    entry: Cand,
    ok: spec_fn(u32) -> bool,
)
    requires
        closed_under(links, ask.layer, ok),
        forall|x: u32| #[trigger] ok(x) ==> x < links.len(),
        ok(entry.node),
    ensures
        all_ok(found(links, sc, adm, ask, entry), ok),
{
    lemma_run_ok(links, sc, adm, ask, start(links.len(), adm, entry), 0, links.len(), ok);
}

// --------------------------------------------------------------- descent

/// The best of a candidate and a list of nodes, taken in order; only a
/// strictly better score moves on.
pub open spec fn climbed(sc: spec_fn(u32) -> u32, c: Cand, xs: Seq<u32>) -> Cand
    decreases xs.len(),
{
    if xs.len() == 0 {
        c
    } else {
        let b = climbed(sc, c, xs.drop_last());
        if bits::num_lt_32(b.score, sc(xs.last())) {
            cand(sc, xs.last())
        } else {
            b
        }
    }
}

/// The end of a hill climb in one layer, after at most `fuel` moves.
pub open spec fn climb(
    links: Seq<Seq<Seq<u32>>>,
    sc: spec_fn(u32) -> u32,
    layer: int,
    c: Cand,
    fuel: nat,
) -> Cand
    decreases fuel,
{
    let next = climbed(sc, c, neighbors(links, c.node as int, layer));
    if fuel == 0 || next == c {
        c
    } else {
        climb(links, sc, layer, next, (fuel - 1) as nat)
    }
}

/// Hill climbs from layer `from` down to layer `to`.
pub open spec fn descended(
    links: Seq<Seq<Seq<u32>>>,
    sc: spec_fn(u32) -> u32,
    c: Cand,
    from: int,
    to: int,
) -> Cand
    decreases from - to,
{
    let top = climb(links, sc, from, c, links.len());
    if from <= to {
        top
    } else {
        descended(links, sc, top, from - 1, to)
    }
}

/// How many of the first `n` nodes score better than `s`.
pub open spec fn better_count(sc: spec_fn(u32) -> u32, n: nat, s: u32) -> nat
    decreases n,
{
    if n == 0 {
        0
    } else {
        better_count(sc, (n - 1) as nat, s) + (if bits::num_lt_32(s, sc((n - 1) as u32)) {
            1nat
        } else {
            0nat
        })
    }
}

proof fn lemma_better_count(sc: spec_fn(u32) -> u32, n: nat, s: u32, t: u32)
    requires
        bits::num_lt_32(s, t),
    ensures
        better_count(sc, n, t) <= better_count(sc, n, s) <= n,
        (exists|x: u32| x < n && #[trigger] sc(x) == t) && n <= u32::MAX ==> better_count(sc, n, t)
            < better_count(sc, n, s),
    decreases n,
{
    if n > 0 {
        lemma_better_count(sc, (n - 1) as nat, s, t);
        if (exists|x: u32| x < n && #[trigger] sc(x) == t) && n <= u32::MAX {
            let x = choose|x: u32| x < n && #[trigger] sc(x) == t;
            if x < n - 1 {
                assert(exists|x: u32| x < n - 1 && #[trigger] sc(x) == t);
            }
        }
    }
}

proof fn lemma_better_bound(sc: spec_fn(u32) -> u32, n: nat, s: u32)
    ensures
        better_count(sc, n, s) <= n,
    decreases n,
{
    if n > 0 {
        lemma_better_bound(sc, (n - 1) as nat, s);
    }
}

/// A climb either stays put or moves to a node of strictly better score.
proof fn lemma_climbed(sc: spec_fn(u32) -> u32, c: Cand, xs: Seq<u32>, n: nat)
    requires
        forall|i: int| 0 <= i < xs.len() ==> #[trigger] xs[i] < n,
    ensures
        ({
            let b = climbed(sc, c, xs);
            b == c || (b.node < n && b == cand(sc, b.node) && bits::num_lt_32(c.score, b.score)
                && xs.contains(b.node))
        }),
    decreases xs.len(),
{
    if xs.len() > 0 {
        let r = xs.drop_last();
        assert forall|i: int| 0 <= i < r.len() implies #[trigger] r[i] < n by {
            assert(r[i] == xs[i]);
        }
        lemma_climbed(sc, c, r, n);
        assert(xs[xs.len() - 1] == xs.last());
        let b = climbed(sc, c, r);
        if b != c {
            assert(xs[r.index_of(b.node)] == b.node);
        }
    }
}

/// Greedy hill climb from layer `from` down to layer `to`, strict
/// improvement only.
pub(crate) fn greedy_at_layers<S: Fn(u32) -> u32>(
    links: &Vec<Vec<Vec<u32>>>,
    entry: Cand,
    from: usize,
    to: usize,
    score: &S,
    sc: Ghost<spec_fn(u32) -> u32>,
) -> (r: Cand)
    requires
        from >= to,
        links@.len() <= u32::MAX,
        closed_links(links_view(links@)),
        entry.node < links@.len(),
        entry == cand(sc@, entry.node),
        tells(*score, sc@, links@.len()),
    ensures
        r == descended(links_view(links@), sc@, entry, from as int, to as int),
        r.node < links@.len(),
        r == cand(sc@, r.node),
{
    let ghost lv = links_view(links@);
    let ghost n = links@.len();
    let mut cur: Cand = entry;
    let mut layer: usize = from;
    loop
        invariant_except_break
            to <= layer <= from,
            n == links@.len(),
            n <= u32::MAX,
            lv == links_view(links@),
            closed_links(lv),
            tells(*score, sc@, n),
            cur.node < n,
            cur == cand(sc@, cur.node),
            descended(lv, sc@, entry, from as int, to as int) == descended(
                lv,
                sc@,
                cur,
                layer as int,
                to as int,
            ),
        ensures
            cur == descended(lv, sc@, entry, from as int, to as int),
            cur.node < n,
            cur == cand(sc@, cur.node),
        decreases layer,
    {
        let ghost at = cur;
        let ghost mut fuel: nat = n;
        proof {
            lemma_better_bound(sc@, n, cur.score);
        }
        let mut improved: bool = true;
        while improved
            invariant
                n == links@.len(),
                n <= u32::MAX,
                lv == links_view(links@),
                closed_links(lv),
                tells(*score, sc@, n),
                cur.node < n,
                cur == cand(sc@, cur.node),
                better_count(sc@, n, cur.score) <= fuel,
                improved ==> climb(lv, sc@, layer as int, at, n) == climb(
                    lv,
                    sc@,
                    layer as int,
                    cur,
                    fuel,
                ),
                !improved ==> climb(lv, sc@, layer as int, at, n) == cur,
            decreases
                fuel + (if improved {
                    1nat
                } else {
                    0nat
                }),
        {
            improved = false;
            let ghost base = cur;
            let x: usize = cur.node as usize;
            let ghost nbs = neighbors(lv, base.node as int, layer as int);
            proof {
                lemma_neighbors(lv, base.node as int, layer as int);
                lemma_climbed(sc@, base, nbs, n);
            }
            if layer < links[x].len() {
                let list = &links[x][layer];
                assert(list@ == nbs);
                let mut t: usize = 0;
                while t < list.len()
                    invariant
                        t <= list@.len(),
                        list@ == nbs,
                        forall|i: int| 0 <= i < nbs.len() ==> #[trigger] nbs[i] < n,
                        tells(*score, sc@, n),
                        cur == climbed(sc@, base, nbs.take(t as int)),
                        improved == (cur != base),
                        cur.node < n,
                        bits::num_lt_32(base.score, cur.score) || cur == base,
                    decreases list.len() - t,
                {
                    let nb: u32 = list[t];
                    assert(nbs[t as int] < n);
                    assert(nbs.take(t + 1).drop_last() =~= nbs.take(t as int));
                    let s: u32 = score(nb);
                    if lt_32(cur.score, s) {
                        cur = Cand { score: s, node: nb };
                        improved = true;
                    }
                    t += 1;
                }
                assert(nbs.take(t as int) =~= nbs);
            } else {
                assert(nbs =~= Seq::<u32>::empty());
            }
            proof {
                if improved {
                    assert(sc@(cur.node) == cur.score);
                    lemma_better_count(sc@, n, base.score, cur.score);
                    assert(fuel > 0);
                    fuel = (fuel - 1) as nat;
                }
            }
        }
        if layer == to {
            break ;
        }
        layer -= 1;
    }
    cur
}

/// Every node that a climb passes through is one that `ok` holds of.
pub proof fn lemma_climb_ok(
    links: Seq<Seq<Seq<u32>>>,
    sc: spec_fn(u32) -> u32,
    layer: int,
    c: Cand,
    fuel: nat,
    ok: spec_fn(u32) -> bool,
)
    requires
        closed_links(links),
        layer >= 0,
        closed_under(links, layer, ok),
        ok(c.node),
        c.node < links.len(),
    ensures
        ok(climb(links, sc, layer, c, fuel).node),
        climb(links, sc, layer, c, fuel).node < links.len(),
    decreases fuel,
{
    let nbs = neighbors(links, c.node as int, layer);
    let next = climbed(sc, c, nbs);
    lemma_neighbors(links, c.node as int, layer);
    lemma_climbed(sc, c, nbs, links.len());
    if fuel > 0 && next != c {
        let i = nbs.index_of(next.node);
        assert(ok(neighbors(links, c.node as int, layer)[i]));
        lemma_climb_ok(links, sc, layer, next, (fuel - 1) as nat, ok);
    }
}

/// A climb ends at a node that scores as its candidate says.
pub proof fn lemma_climb_cand(
    links: Seq<Seq<Seq<u32>>>,
    sc: spec_fn(u32) -> u32,
    layer: int,
    c: Cand,
    fuel: nat,
)
    requires
        closed_links(links),
        layer >= 0,
        c.node < links.len(),
        c == cand(sc, c.node),
    ensures
        ({
            let r = climb(links, sc, layer, c, fuel);
            r.node < links.len() && r == cand(sc, r.node)
        }),
    decreases fuel,
{
    let nbs = neighbors(links, c.node as int, layer);
    let next = climbed(sc, c, nbs);
    lemma_neighbors(links, c.node as int, layer);
    lemma_climbed(sc, c, nbs, links.len());
    if fuel > 0 && next != c {
        lemma_climb_cand(links, sc, layer, next, (fuel - 1) as nat);
    }
}

proof fn lemma_climbed_best(sc: spec_fn(u32) -> u32, c: Cand, xs: Seq<u32>)
    ensures
        forall|i: int|
            0 <= i < xs.len() ==> !bits::num_lt_32(climbed(sc, c, xs).score, sc(#[trigger] xs[i])),
    decreases xs.len(),
{
    if xs.len() > 0 {
        let r = xs.drop_last();
        lemma_climbed_best(sc, c, r);
        let (b, d) = (climbed(sc, c, r), climbed(sc, c, xs));
        assert forall|i: int| 0 <= i < xs.len() implies !bits::num_lt_32(
            d.score,
            sc(#[trigger] xs[i]),
        ) by {
            if i < r.len() {
                assert(r[i] == xs[i]);
                assert(!bits::num_lt_32(b.score, sc(r[i])));
            }
        }
    }
}

proof fn lemma_climb_ends(
    links: Seq<Seq<Seq<u32>>>,
    sc: spec_fn(u32) -> u32,
    layer: int,
    c: Cand,
    fuel: nat,
)
    requires
        closed_links(links),
        links.len() <= u32::MAX,
        layer >= 0,
        c.node < links.len(),
        c == cand(sc, c.node),
        better_count(sc, links.len(), c.score) <= fuel,
    ensures
        ({
            let r = climb(links, sc, layer, c, fuel);
            &&& r.node < links.len() && r == cand(sc, r.node)
            &&& !bits::num_lt_32(r.score, c.score)
            &&& forall|i: int|
                0 <= i < neighbors(links, r.node as int, layer).len() ==> !bits::num_lt_32(
                    r.score,
                    sc(#[trigger] neighbors(links, r.node as int, layer)[i]),
                )
        }),
    decreases fuel,
{
    let nbs = neighbors(links, c.node as int, layer);
    let next = climbed(sc, c, nbs);
    lemma_neighbors(links, c.node as int, layer);
    lemma_climbed(sc, c, nbs, links.len());
    lemma_climbed_best(sc, c, nbs);
    if next != c {
        assert(sc(next.node) == next.score);
        lemma_better_count(sc, links.len(), c.score, next.score);
        assert(fuel > 0);
        lemma_climb_ends(links, sc, layer, next, (fuel - 1) as nat);
    }
}

/// A hill climb through the layers ends, in the last one, at a node that no
/// neighbour scores above.
pub proof fn descent_ends_at_a_local_best(
    links: Seq<Seq<Seq<u32>>>,
    sc: spec_fn(u32) -> u32,
    c: Cand,
    from: int,
    to: int,
)
    requires
        closed_links(links),
        links.len() <= u32::MAX,
        0 <= to <= from,
        c.node < links.len(),
        c == cand(sc, c.node),
    ensures
        ({
            let r = descended(links, sc, c, from, to);
            &&& r.node < links.len() && r == cand(sc, r.node)
            &&& !bits::num_lt_32(r.score, c.score)
            &&& forall|i: int|
                0 <= i < neighbors(links, r.node as int, to).len() ==> !bits::num_lt_32(
                    r.score,
                    sc(#[trigger] neighbors(links, r.node as int, to)[i]),
                )
        }),
    decreases from - to,
{
    lemma_better_bound(sc, links.len(), c.score);
    lemma_climb_ends(links, sc, from, c, links.len());
    let top = climb(links, sc, from, c, links.len());
    if from > to {
        descent_ends_at_a_local_best(links, sc, top, from - 1, to);
        lemma_climb_better(links, sc, from, c, links.len());
        lemma_descent_better(links, sc, top, from - 1, to);
    }
}

proof fn lemma_climb_better(
    links: Seq<Seq<Seq<u32>>>,
    sc: spec_fn(u32) -> u32,
    layer: int,
    c: Cand,
    fuel: nat,
)
    requires
        closed_links(links),
        layer >= 0,
        c.node < links.len(),
        c == cand(sc, c.node),
    ensures
        ({
            let r = climb(links, sc, layer, c, fuel);
            r == c || bits::num_lt_32(c.score, r.score)
        }),
    decreases fuel,
{
    let nbs = neighbors(links, c.node as int, layer);
    let next = climbed(sc, c, nbs);
    lemma_neighbors(links, c.node as int, layer);
    lemma_climbed(sc, c, nbs, links.len());
    if fuel > 0 && next != c {
        lemma_climb_better(links, sc, layer, next, (fuel - 1) as nat);
    }
}

proof fn lemma_descent_better(
    links: Seq<Seq<Seq<u32>>>,
    sc: spec_fn(u32) -> u32,
    c: Cand,
    from: int,
    to: int,
)
    requires
        closed_links(links),
        0 <= to <= from,
        c.node < links.len(),
        c == cand(sc, c.node),
    ensures
        ({
            let r = descended(links, sc, c, from, to);
            r == c || bits::num_lt_32(c.score, r.score)
        }),
    decreases from - to,
{
    lemma_climb_better(links, sc, from, c, links.len());
    lemma_climb_cand(links, sc, from, c, links.len());
    if from > to {
        lemma_descent_better(links, sc, climb(links, sc, from, c, links.len()), from - 1, to);
    }
}

} // verus!

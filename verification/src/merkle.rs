//! Tamper-evident audit log via Merkle tree.
//!
//! Each entry has a leaf hash; the root commits to all of them, so that
//! any later modification shows in the root. The log
//! exposes the current root and per-entry inclusion proofs.

use vstd::arithmetic::power2::{lemma_pow2_pos, lemma_pow2_unfold, pow2};
use vstd::prelude::*;

use crate::bytes::push_all;
use crate::digest;
use crate::digest::{same_digest, sha256_of};

verus! {

/// SHA-256 hash output (32 bytes).
pub type Hash = [u8; 32];

/// The hash of an entry: a zero byte, then the payload.
pub open spec fn leaf(payload: Seq<u8>) -> Hash {
    digest::sha256(seq![0u8] + payload)
}

/// The hash of an interior node: a one byte, then both children.
pub open spec fn pair(left: Hash, right: Hash) -> Hash {
    digest::sha256(seq![1u8] + left@ + right@)
}

/// The level above: neighbours paired, an odd one out promoted.
pub open spec fn next_level(l: Seq<Hash>) -> Seq<Hash> {
    Seq::new(
        ((l.len() + 1) / 2) as nat,
        |i: int|
            if 2 * i + 1 < l.len() {
                pair(l[2 * i], l[2 * i + 1])
            } else {
                l[2 * i]
            },
    )
}

/// The Merkle root; the empty log has the hash of the empty string.
pub open spec fn root_of(l: Seq<Hash>) -> Hash
    decreases l.len(),
{
    if l.len() == 0 {
        digest::sha256(Seq::empty())
    } else if l.len() == 1 {
        l[0]
    } else {
        root_of(next_level(l))
    }
}

/// The sibling hashes from entry `i` up to the root.
pub open spec fn path_of(l: Seq<Hash>, i: int) -> Seq<Hash>
    decreases l.len(),
{
    if l.len() <= 1 {
        Seq::empty()
    } else {
        sibling(l, i) + path_of(next_level(l), i / 2)
    }
}

/// The sibling of entry `i`, if it has one.
pub open spec fn sibling(l: Seq<Hash>, i: int) -> Seq<Hash> {
    if i % 2 == 1 {
        seq![l[i - 1]]
    } else if i + 1 < l.len() {
        seq![l[i + 1]]
    } else {
        Seq::empty()
    }
}

/// The root that a path leads to from hash `h` at place `i` of `n`, if the
/// path is long enough; what is left over of it is ignored.
pub open spec fn climb(h: Hash, i: int, n: nat, path: Seq<Hash>, p: int) -> Option<Hash>
    decreases n,
{
    if n <= 1 {
        Some(h)
    } else if i % 2 == 0 && i + 1 >= n {
        climb(h, i / 2, (n + 1) / 2, path, p)
    } else if p >= path.len() {
        None
    } else if i % 2 == 0 {
        climb(pair(h, path[p]), i / 2, (n + 1) / 2, path, p + 1)
    } else {
        climb(pair(path[p], h), i / 2, (n + 1) / 2, path, p + 1)
    }
}

/// A path proves that `payload` is entry `i` of a log of `n` entries with
/// this root.
pub open spec fn included(payload: Seq<u8>, i: int, n: nat, path: Seq<Hash>, root: Hash) -> bool {
    n > 0 && climb(leaf(payload), i, n, path, 0) == Some(root)
}

/// SHA-256.
pub fn h(data: &[u8]) -> (r: Hash)
    ensures
        r == digest::sha256(data@),
{
    sha256_of(data)
}

/// The hash of an entry.
pub fn h_leaf(payload: &[u8]) -> (r: Hash)
    ensures
        r == leaf(payload@),
{
    let mut buf: Vec<u8> = Vec::new();
    buf.push(0); // domain separator: leaf
    push_all(&mut buf, payload);
    assert(buf@ =~= seq![0u8] + payload@);
    h(buf.as_slice())
}

/// The hash of an interior node.
pub fn h_pair(left: &Hash, right: &Hash) -> (r: Hash)
    ensures
        r == pair(*left, *right),
{
    let mut buf: Vec<u8> = Vec::new();
    buf.push(1); // domain separator: interior node
    push_all(&mut buf, left);
    push_all(&mut buf, right);
    assert(buf@ =~= seq![1u8] + left@ + right@);
    h(buf.as_slice())
}

/// The level above.
fn level_above(level: &Vec<Hash>) -> (next: Vec<Hash>)
    ensures
        next@ == next_level(level@),
{
    let mut next: Vec<Hash> = Vec::new();
    let len: usize = level.len();
    let mut i: usize = 0;
    while i < len && len - i > 1
        invariant
            len == level@.len(),
            i <= len,
            i % 2 == 0,
            next@.len() * 2 == i,
            forall|k: int| 0 <= k < next@.len() ==> next@[k] == next_level(level@)[k],
        decreases len - i,
    {
        next.push(h_pair(&level[i], &level[i + 1]));
        i += 2;
    }
    if i < len {
        // odd one out: promoted
        next.push(level[i]);
    }
    assert(next@ =~= next_level(level@));
    next
}

/// Append-only Merkle audit log. All leaf hashes are kept; the root is
/// computed on demand.
pub struct MerkleAuditLog {
    leaves: Vec<Hash>,
}

impl View for MerkleAuditLog {
    type V = Seq<Hash>;

    closed spec fn view(&self) -> Seq<Hash> {
        self.leaves@
    }
}

impl Default for MerkleAuditLog {
    /// Empty log.
    fn default() -> (r: Self)
        ensures
            r@ == Seq::<Hash>::empty(),
    {
        MerkleAuditLog::new()
    }
}

impl MerkleAuditLog {
    /// Empty log.
    pub fn new() -> (r: Self)
        ensures
            r@ == Seq::<Hash>::empty(),
    {
        MerkleAuditLog { leaves: Vec::new() }
    }

    /// Append one entry. Returns the index of the new entry.
    pub fn append(&mut self, payload: &[u8]) -> (idx: usize)
        ensures
            final(self)@ == old(self)@.push(leaf(payload@)),
            idx == old(self)@.len(),
    {
        let idx: usize = self.leaves.len();
        self.leaves.push(h_leaf(payload));
        idx
    }

    /// Number of entries.
    pub fn len(&self) -> (n: usize)
        ensures
            n == self@.len(),
    {
        self.leaves.len()
    }

    /// Is the log empty?
    pub fn is_empty(&self) -> (r: bool)
        ensures
            r == (self@.len() == 0),
    {
        self.leaves.len() == 0
    }

    /// Current Merkle root over all appended entries. An empty log has a
    /// fixed sentinel (SHA-256 of the empty string).
    pub fn root(&self) -> (r: Hash)
        ensures
            r == root_of(self@),
    {
        if self.leaves.len() == 0 {
            let none: Vec<u8> = Vec::new();
            assert(none@ =~= Seq::empty());
            return h(none.as_slice());
        }
        let mut level: Vec<Hash> = vstd::slice::slice_to_vec(self.leaves.as_slice());
        while level.len() > 1
            invariant
                level@.len() > 0,
                root_of(level@) == root_of(self@),
            decreases level@.len(),
        {
            level = level_above(&level);
        }
        level[0]
    }

    /// Inclusion proof for entry `idx`: the sibling hashes along the path
    /// from the leaf to the root. `None` if `idx` is out of range.
    pub fn inclusion_proof(&self, idx: usize) -> (r: Option<Vec<Hash>>)
        ensures
            match r {
                Some(path) => idx < self@.len() && path@ == path_of(self@, idx as int),
                None => idx >= self@.len(),
            },
    {
        if idx >= self.leaves.len() {
            return None;
        }
        let mut path: Vec<Hash> = Vec::new();
        let mut i: usize = idx;
        let mut level: Vec<Hash> = vstd::slice::slice_to_vec(self.leaves.as_slice());
        assert(path@ + path_of(level@, i as int) =~= path_of(self@, idx as int));
        while level.len() > 1
            invariant
                i < level@.len(),
                path@ + path_of(level@, i as int) == path_of(self@, idx as int),
            decreases level@.len(),
        {
            let ghost before = path@;
            if i % 2 == 0 {
                if level.len() - i > 1 {
                    path.push(level[i + 1]); // real right sibling
                }
                // else odd-out: no proof entry, just promote up
            } else {
                path.push(level[i - 1]); // real left sibling
            }
            proof {
                assert(path@ =~= before + sibling(level@, i as int));
                assert(path@ + path_of(next_level(level@), (i / 2) as int) =~= before + path_of(
                    level@,
                    i as int,
                ));
            }
            level = level_above(&level);
            i = i / 2;
        }
        assert(path@ + path_of(level@, i as int) =~= path@);
        Some(path)
    }

    /// Verify that a leaf is included in a published root.
    pub fn verify(
        payload: &[u8],
        idx: usize,
        n_leaves: usize,
        path: &[Hash],
        root: &Hash,
    ) -> (r: bool)
        ensures
            r == included(payload@, idx as int, n_leaves as nat, path@, *root),
    {
        if n_leaves == 0 {
            return false;
        }
        let mut hh: Hash = h_leaf(payload);
        let mut i: usize = idx;
        let mut level_size: usize = n_leaves;
        let mut p: usize = 0;
        while level_size > 1
            invariant
                n_leaves > 0,
                p <= path@.len(),
                climb(leaf(payload@), idx as int, n_leaves as nat, path@, 0) == climb(
                    hh,
                    i as int,
                    level_size as nat,
                    path@,
                    p as int,
                ),
            decreases level_size,
        {
            if i % 2 == 0 {
                if i < level_size - 1 {
                    if p >= path.len() {
                        return false;
                    }
                    hh = h_pair(&hh, &path[p]);
                    p += 1;
                }
                // odd-out: no sibling, no hash
            } else {
                if p >= path.len() {
                    return false;
                }
                hh = h_pair(&path[p], &hh);
                p += 1;
            }
            i = i / 2;
            level_size = level_size / 2 + level_size % 2;
        }
        same_digest(&hh, root)
    }
}

// --------------------------------------------------------------------- laws

proof fn lemma_climb_shift(h: Hash, i: int, n: nat, a: Seq<Hash>, b: Seq<Hash>, p: int)
    requires
        0 <= p,
    ensures
        climb(h, i, n, a + b, a.len() + p) == climb(h, i, n, b, p),
    decreases n,
{
    if n > 1 {
        if i % 2 == 0 && i + 1 >= n {
            lemma_climb_shift(h, i / 2, (n + 1) / 2, a, b, p);
        } else if p < b.len() {
            assert((a + b)[a.len() + p] == b[p]);
            if i % 2 == 0 {
                lemma_climb_shift(pair(h, b[p]), i / 2, (n + 1) / 2, a, b, p + 1);
            } else {
                lemma_climb_shift(pair(b[p], h), i / 2, (n + 1) / 2, a, b, p + 1);
            }
        }
    }
}

proof fn lemma_path_climbs(l: Seq<Hash>, i: int)
    requires
        0 <= i < l.len(),
    ensures
        climb(l[i], i, l.len(), path_of(l, i), 0) == Some(root_of(l)),
    decreases l.len(),
{
    if l.len() > 1 {
        let up = next_level(l);
        let s = sibling(l, i);
        let rest = path_of(up, i / 2);
        lemma_path_climbs(up, i / 2);
        lemma_climb_shift(up[i / 2], i / 2, up.len(), s, rest, 0);
        if i % 2 == 1 {
            assert((s + rest)[0] == l[i - 1]);
        } else if i + 1 < l.len() {
            assert((s + rest)[0] == l[i + 1]);
        }
    }
}

/// The inclusion proof of every entry verifies against the log's root.
pub proof fn inclusion_proof_verifies(log: Seq<Hash>, i: int, payload: Seq<u8>)
    requires
        0 <= i < log.len(),
        log[i] == leaf(payload),
    ensures
        included(payload, i, log.len(), path_of(log, i), root_of(log)),
{
    lemma_path_climbs(log, i);
}

// -------------------------------------------------------- tamper evidence

/// The string whose digest is the hash of an entry.
pub open spec fn leaf_string(payload: Seq<u8>) -> Seq<u8> {
    seq![0u8] + payload
}

/// The string whose digest is the hash of an interior node.
pub open spec fn pair_string(left: Hash, right: Hash) -> Seq<u8> {
    seq![1u8] + left@ + right@
}

/// The hashes of the entries of a log.
pub open spec fn leaves(p: Seq<Seq<u8>>) -> Seq<Hash> {
    Seq::new(p.len(), |i: int| leaf(p[i]))
}

/// The byte strings hashed for the levels above `l`.
pub open spec fn node_strings(l: Seq<Hash>) -> Set<Seq<u8>>
    decreases l.len(),
{
    if l.len() <= 1 {
        Set::empty()
    } else {
        Set::new(
            |x: Seq<u8>|
                exists|i: int|
                    0 <= i && 2 * i + 1 < l.len() && x == #[trigger] pair_string(
                        l[2 * i],
                        l[2 * i + 1],
                    ),
        ).union(node_strings(next_level(l)))
    }
}

/// The byte strings hashed for the root of a log with these entries.
pub open spec fn hashed(p: Seq<Seq<u8>>) -> Set<Seq<u8>> {
    if p.len() == 0 {
        Set::empty().insert(Seq::<u8>::empty())
    } else {
        Set::new(
            |x: Seq<u8>| exists|i: int| 0 <= i < p.len() && x == leaf_string(#[trigger] p[i]),
        ).union(node_strings(leaves(p)))
    }
}

/// The byte strings hashed on the way up a path.
pub open spec fn climbed(h: Hash, i: int, n: nat, path: Seq<Hash>, p: int) -> Set<Seq<u8>>
    decreases n,
{
    if n <= 1 {
        Set::empty()
    } else if i % 2 == 0 && i + 1 >= n {
        climbed(h, i / 2, (n + 1) / 2, path, p)
    } else if p >= path.len() {
        Set::empty()
    } else if i % 2 == 0 {
        climbed(pair(h, path[p]), i / 2, (n + 1) / 2, path, p + 1).insert(pair_string(h, path[p]))
    } else {
        climbed(pair(path[p], h), i / 2, (n + 1) / 2, path, p + 1).insert(pair_string(path[p], h))
    }
}

/// No two different strings of these share a digest.
pub open spec fn collision_free(s: Set<Seq<u8>>) -> bool {
    forall|x: Seq<u8>, y: Seq<u8>| #[trigger]
        s.contains(x) && #[trigger] s.contains(y) && digest::sha256(x) == digest::sha256(y) ==> x
            == y
}

proof fn lemma_pair_string(a: Hash, b: Hash, c: Hash, d: Hash)
    requires
        pair_string(a, b) == pair_string(c, d),
    ensures
        a == c,
        b == d,
{
    let (x, y) = (pair_string(a, b), pair_string(c, d));
    assert forall|i: int| 0 <= i < 32 implies a[i] == c[i] by {
        assert(x[1 + i] == a@[i]);
        assert(y[1 + i] == c@[i]);
    }
    assert forall|i: int| 0 <= i < 32 implies b[i] == d[i] by {
        assert(x[33 + i] == b@[i]);
        assert(y[33 + i] == d@[i]);
    }
    assert(a =~= c);
    assert(b =~= d);
}

proof fn lemma_leaf_string(a: Seq<u8>, b: Seq<u8>)
    requires
        leaf_string(a) == leaf_string(b),
    ensures
        a == b,
{
    assert(leaf_string(a).skip(1) =~= a);
    assert(leaf_string(b).skip(1) =~= b);
}

/// The tree that a root commits to.
pub enum Tree {
    Entry(Seq<u8>),
    Node(Box<Tree>, Box<Tree>),
}

/// The hash of a tree.
spec fn hash_of(t: Tree) -> Hash
    decreases t,
{
    match t {
        Tree::Entry(payload) => leaf(payload),
        Tree::Node(l, r) => pair(hash_of(*l), hash_of(*r)),
    }
}

/// The payloads of a tree, from left to right.
spec fn entries_of(t: Tree) -> Seq<Seq<u8>>
    decreases t,
{
    match t {
        Tree::Entry(payload) => seq![payload],
        Tree::Node(l, r) => entries_of(*l) + entries_of(*r),
    }
}

/// Every string hashed for the tree is in `s`.
spec fn within(t: Tree, s: Set<Seq<u8>>) -> bool
    decreases t,
{
    match t {
        Tree::Entry(payload) => s.contains(leaf_string(payload)),
        Tree::Node(l, r) => s.contains(pair_string(hash_of(*l), hash_of(*r))) && within(*l, s)
            && within(*r, s),
    }
}

/// Where digests do not collide, the hash determines the tree.
proof fn lemma_same_tree(a: Tree, b: Tree, s: Set<Seq<u8>>)
    requires
        within(a, s),
        within(b, s),
        collision_free(s),
        hash_of(a) == hash_of(b),
    ensures
        a == b,
    decreases a,
{
    match (a, b) {
        (Tree::Entry(x), Tree::Entry(y)) => {
            assert(s.contains(leaf_string(x)) && s.contains(leaf_string(y)));
            lemma_leaf_string(x, y);
        },
        (Tree::Node(l, r), Tree::Node(m, q)) => {
            let x = pair_string(hash_of(*l), hash_of(*r));
            let y = pair_string(hash_of(*m), hash_of(*q));
            assert(s.contains(x) && s.contains(y));
            lemma_pair_string(hash_of(*l), hash_of(*r), hash_of(*m), hash_of(*q));
            lemma_same_tree(*l, *m, s);
            lemma_same_tree(*r, *q, s);
        },
        (Tree::Entry(x), Tree::Node(m, q)) => {
            let y = pair_string(hash_of(*m), hash_of(*q));
            assert(s.contains(leaf_string(x)) && s.contains(y));
            assert(leaf_string(x)[0] == 0 && y[0] == 1);
        },
        (Tree::Node(l, r), Tree::Entry(y)) => {
            let x = pair_string(hash_of(*l), hash_of(*r));
            assert(s.contains(x) && s.contains(leaf_string(y)));
            assert(x[0] == 1 && leaf_string(y)[0] == 0);
        },
    }
}

/// The trees of the level above.
spec fn trees_above(ts: Seq<Tree>) -> Seq<Tree> {
    Seq::new(
        ((ts.len() + 1) / 2) as nat,
        |i: int|
            if 2 * i + 1 < ts.len() {
                Tree::Node(Box::new(ts[2 * i]), Box::new(ts[2 * i + 1]))
            } else {
                ts[2 * i]
            },
    )
}

/// The tree over the trees of a level.
spec fn tree_of(ts: Seq<Tree>) -> Tree
    decreases ts.len(),
{
    if ts.len() <= 1 {
        ts[0]
    } else {
        tree_of(trees_above(ts))
    }
}

/// The hashes of trees.
spec fn hashes(ts: Seq<Tree>) -> Seq<Hash> {
    Seq::new(ts.len(), |i: int| hash_of(ts[i]))
}

/// The payloads of trees, one tree after the other.
spec fn flat(ts: Seq<Tree>) -> Seq<Seq<u8>>
    decreases ts.len(),
{
    if ts.len() == 0 {
        Seq::empty()
    } else {
        flat(ts.drop_last()) + entries_of(ts.last())
    }
}

proof fn lemma_flat_above(ts: Seq<Tree>)
    ensures
        flat(trees_above(ts)) == flat(ts),
    decreases ts.len(),
{
    let up = trees_above(ts);
    if ts.len() == 0 {
        assert(up =~= ts);
    } else if ts.len() % 2 == 1 {
        lemma_flat_above(ts.drop_last());
        assert(up.drop_last() =~= trees_above(ts.drop_last()));
        assert(up.last() == ts.last());
    } else {
        let less = ts.drop_last().drop_last();
        lemma_flat_above(less);
        assert(up.drop_last() =~= trees_above(less));
        let (l, r) = (ts[ts.len() - 2], ts[ts.len() - 1]);
        assert(up.last() == Tree::Node(Box::new(l), Box::new(r)));
        assert(ts.last() == r && ts.drop_last().last() == l);
        assert(flat(ts) =~= flat(less) + (entries_of(l) + entries_of(r))) by {
            reveal_with_fuel(flat, 3);
        }
    }
}

proof fn lemma_tree(ts: Seq<Tree>, s: Set<Seq<u8>>)
    requires
        ts.len() > 0,
        forall|i: int| 0 <= i < ts.len() ==> within(#[trigger] ts[i], s),
        node_strings(hashes(ts)).subset_of(s),
    ensures
        hash_of(tree_of(ts)) == root_of(hashes(ts)),
        entries_of(tree_of(ts)) == flat(ts),
        within(tree_of(ts), s),
    decreases ts.len(),
{
    let l = hashes(ts);
    if ts.len() == 1 {
        assert(ts.drop_last() =~= Seq::<Tree>::empty());
        assert(within(ts[0], s));
        assert(flat(ts) =~= entries_of(ts[0])) by {
            reveal_with_fuel(flat, 2);
        }
    } else {
        let up = trees_above(ts);
        assert(hashes(up) =~= next_level(l)) by {
            assert forall|i: int| 0 <= i < up.len() implies hashes(up)[i] == next_level(l)[i] by {
                if 2 * i + 1 < ts.len() {
                    assert(hash_of(up[i]) == pair(hash_of(ts[2 * i]), hash_of(ts[2 * i + 1])));
                }
            }
        }
        assert forall|x: Seq<u8>| node_strings(next_level(l)).contains(x) implies s.contains(x) by {
            assert(node_strings(l).contains(x));
        }
        assert forall|i: int| 0 <= i < up.len() implies within(#[trigger] up[i], s) by {
            assert(within(ts[2 * i], s));
            if 2 * i + 1 < ts.len() {
                assert(within(ts[2 * i + 1], s));
                let x = pair_string(l[2 * i], l[2 * i + 1]);
                assert(node_strings(l).contains(x));
                assert(s.contains(x));
            }
        }
        lemma_tree(up, s);
        lemma_flat_above(ts);
    }
}

/// The entries of a log as trees.
spec fn entry_trees(p: Seq<Seq<u8>>) -> Seq<Tree> {
    Seq::new(p.len(), |i: int| Tree::Entry(p[i]))
}

proof fn lemma_flat_entries(p: Seq<Seq<u8>>)
    ensures
        flat(entry_trees(p)) == p,
    decreases p.len(),
{
    if p.len() > 0 {
        lemma_flat_entries(p.drop_last());
        assert(entry_trees(p).drop_last() =~= entry_trees(p.drop_last()));
        assert(flat(entry_trees(p)) =~= p.drop_last() + seq![p.last()]);
        assert(p =~= p.drop_last() + seq![p.last()]);
    }
}

proof fn lemma_log_tree(p: Seq<Seq<u8>>, s: Set<Seq<u8>>)
    requires
        p.len() > 0,
        hashed(p).subset_of(s),
    ensures
        hash_of(tree_of(entry_trees(p))) == root_of(leaves(p)),
        entries_of(tree_of(entry_trees(p))) == p,
        within(tree_of(entry_trees(p)), s),
{
    let ts = entry_trees(p);
    assert(hashes(ts) =~= leaves(p));
    assert forall|i: int| 0 <= i < ts.len() implies within(#[trigger] ts[i], s) by {
        assert(hashed(p).contains(leaf_string(p[i])));
    }
    assert forall|x: Seq<u8>| node_strings(leaves(p)).contains(x) implies s.contains(x) by {
        assert(hashed(p).contains(x));
    }
    lemma_tree(ts, s);
    lemma_flat_entries(p);
}

/// The first byte tells a tree's strings from the empty string.
proof fn lemma_root_string(t: Tree, s: Set<Seq<u8>>)
    requires
        within(t, s),
        collision_free(s),
        s.contains(Seq::<u8>::empty()),
    ensures
        hash_of(t) != digest::sha256(Seq::<u8>::empty()),
{
    let x = match t {
        Tree::Entry(payload) => leaf_string(payload),
        Tree::Node(l, r) => pair_string(hash_of(*l), hash_of(*r)),
    };
    assert(s.contains(x));
    assert(x.len() > 0);
    assert(x != Seq::<u8>::empty());
}

/// Tamper evidence: where no two different strings hashed for the two logs
/// share a digest, equal roots mean the same payloads in the same order and
/// number. Whatever is appended, edited, dropped or put in between shows in
/// the root.
pub proof fn same_root_same_payloads(p: Seq<Seq<u8>>, q: Seq<Seq<u8>>)
    requires
        root_of(leaves(p)) == root_of(leaves(q)),
        collision_free(hashed(p).union(hashed(q))),
    ensures
        p == q,
{
    let s = hashed(p).union(hashed(q));
    if p.len() == 0 && q.len() == 0 {
        assert(p =~= q);
    } else if p.len() == 0 {
        lemma_log_tree(q, s);
        assert(hashed(p).contains(Seq::<u8>::empty()));
        lemma_root_string(tree_of(entry_trees(q)), s);
    } else if q.len() == 0 {
        lemma_log_tree(p, s);
        assert(hashed(q).contains(Seq::<u8>::empty()));
        lemma_root_string(tree_of(entry_trees(p)), s);
    } else {
        lemma_log_tree(p, s);
        lemma_log_tree(q, s);
        lemma_same_tree(tree_of(entry_trees(p)), tree_of(entry_trees(q)), s);
    }
}

proof fn lemma_climb_back(h: Hash, l: Seq<Hash>, i: int, path: Seq<Hash>, p: int, s: Set<Seq<u8>>)
    requires
        0 <= i < l.len(),
        0 <= p <= path.len(),
        climb(h, i, l.len(), path, p) == Some(root_of(l)),
        node_strings(l).subset_of(s),
        climbed(h, i, l.len(), path, p).subset_of(s),
        collision_free(s),
    ensures
        h == l[i],
        path_of(l, i).is_prefix_of(path.skip(p)),
    decreases l.len(),
{
    if l.len() > 1 {
        let n = l.len();
        let up = next_level(l);
        assert(up.len() == (n + 1) / 2);
        assert forall|x: Seq<u8>| node_strings(up).contains(x) implies s.contains(x) by {
            assert(node_strings(l).contains(x));
        }
        let rest = path_of(up, i / 2);
        if i % 2 == 0 && i + 1 >= n {
            lemma_climb_back(h, up, i / 2, path, p, s);
            assert(path_of(l, i) =~= rest);
        } else {
            let j = i / 2;
            let x = pair_string(l[2 * j], l[2 * j + 1]);
            assert(node_strings(l).contains(x));
            assert(s.contains(x));
            let (a, b) = if i % 2 == 0 {
                (h, path[p])
            } else {
                (path[p], h)
            };
            let y = pair_string(a, b);
            let more = climbed(pair(a, b), j, up.len(), path, p + 1);
            assert(climbed(h, i, n, path, p) == more.insert(y));
            assert forall|z: Seq<u8>| more.contains(z) implies s.contains(z) by {
                assert(climbed(h, i, n, path, p).contains(z));
            }
            assert(climbed(h, i, n, path, p).contains(y));
            assert(s.contains(y));
            lemma_climb_back(pair(a, b), up, j, path, p + 1, s);
            assert(digest::sha256(x) == digest::sha256(y));
            lemma_pair_string(a, b, l[2 * j], l[2 * j + 1]);
            let sib = sibling(l, i);
            assert(sib =~= seq![path[p]]);
            assert(path.skip(p).take(1) =~= sib);
            assert(path.skip(p).skip(1) =~= path.skip(p + 1));
            assert(path_of(l, i) =~= sib + rest);
            assert forall|t: int| 0 <= t < path_of(l, i).len() implies path_of(l, i)[t] == path.skip(
                p,
            )[t] by {
                if t > 0 {
                    assert(rest[t - 1] == path.skip(p + 1)[t - 1]);
                }
            }
            assert(path_of(l, i) =~= path.skip(p).take(path_of(l, i).len() as int));
        }
    } else {
        assert(path_of(l, i) =~= path.skip(p).take(0));
    }
}

proof fn lemma_climb_prefix(h: Hash, i: int, n: nat, a: Seq<Hash>, b: Seq<Hash>, p: int)
    requires
        0 <= p,
        climb(h, i, n, a, p) is Some,
        a.is_prefix_of(b),
    ensures
        climb(h, i, n, b, p) == climb(h, i, n, a, p),
    decreases n,
{
    if n > 1 {
        if i % 2 == 0 && i + 1 >= n {
            lemma_climb_prefix(h, i / 2, (n + 1) / 2, a, b, p);
        } else {
            assert(a[p] == b[p]);
            if i % 2 == 0 {
                lemma_climb_prefix(pair(h, a[p]), i / 2, (n + 1) / 2, a, b, p + 1);
            } else {
                lemma_climb_prefix(pair(a[p], h), i / 2, (n + 1) / 2, a, b, p + 1);
            }
        }
    }
}

/// Where no two different strings hashed here share a digest, a path proves
/// a payload at a place of a log if and only if it is the payload of that
/// entry and the path begins with the entry's own.
pub proof fn included_iff_the_entry(
    log: Seq<Seq<u8>>,
    i: int,
    payload: Seq<u8>,
    path: Seq<Hash>,
)
    requires
        0 <= i < log.len(),
        collision_free(
            hashed(log).union(climbed(leaf(payload), i, log.len(), path, 0)).insert(
                leaf_string(payload),
            ),
        ),
    ensures
        included(payload, i, log.len(), path, root_of(leaves(log))) <==> payload == log[i]
            && path_of(leaves(log), i).is_prefix_of(path),
{
    let l = leaves(log);
    let up = climbed(leaf(payload), i, log.len(), path, 0);
    let s = hashed(log).union(up).insert(leaf_string(payload));
    lemma_path_climbs(l, i);
    if included(payload, i, log.len(), path, root_of(l)) {
        assert forall|x: Seq<u8>| node_strings(l).contains(x) implies s.contains(x) by {
            assert(hashed(log).contains(x));
        }
        lemma_climb_back(leaf(payload), l, i, path, 0, s);
        assert(path.skip(0) =~= path);
        assert(hashed(log).contains(leaf_string(log[i])));
        assert(s.contains(leaf_string(log[i])) && s.contains(leaf_string(payload)));
        lemma_leaf_string(payload, log[i]);
    }
    if payload == log[i] && path_of(l, i).is_prefix_of(path) {
        lemma_climb_prefix(leaf(payload), i, log.len(), path_of(l, i), path, 0);
    }
}

/// Nothing is included in an empty log.
pub proof fn empty_log_includes_nothing(payload: Seq<u8>, i: int, path: Seq<Hash>, root: Hash)
    ensures
        !included(payload, i, 0, path, root),
{
}

proof fn lemma_root_next(l: Seq<Hash>)
    requires
        l.len() > 0,
    ensures
        root_of(l) == root_of(next_level(l)),
{
    if l.len() == 1 {
        assert(next_level(l) =~= l);
    }
}

/// The root of a log is the hash of the roots of its two parts, cut at the
/// largest power of two below its length: the earlier part, of `2^j`
/// entries, on the left, the rest on the right.
pub proof fn root_splits_at_a_power_of_two(l: Seq<Hash>, j: nat)
    requires
        pow2(j) < l.len() <= 2 * pow2(j),
    ensures
        root_of(l) == digest::sha256(
            seq![1u8] + root_of(l.take(pow2(j) as int))@ + root_of(l.skip(pow2(j) as int))@,
        ),
    decreases j,
{
    let k = pow2(j) as int;
    let (a, b) = (l.take(k), l.skip(k));
    let up = next_level(l);
    lemma_pow2_pos(j);
    lemma_root_next(l);
    lemma_root_next(a);
    lemma_root_next(b);
    if j == 0 {
        vstd::arithmetic::power2::lemma2_to64();
        assert(up =~= seq![pair(l[0], l[1])]);
        assert(root_of(a) == a[0] && root_of(b) == b[0]);
    } else {
        lemma_pow2_unfold(j);
        let h = pow2((j - 1) as nat) as int;
        assert(k == 2 * h);
        assert(up.take(h) =~= next_level(a));
        assert(up.skip(h) =~= next_level(b)) by {
            assert(up.skip(h).len() == next_level(b).len());
            assert forall|i: int| 0 <= i < next_level(b).len() implies up.skip(h)[i] == next_level(
                b,
            )[i] by {
                assert(up.skip(h)[i] == up[h + i]);
                assert(b[2 * i] == l[2 * (h + i)]);
                if 2 * i + 1 < b.len() {
                    assert(b[2 * i + 1] == l[2 * (h + i) + 1]);
                }
            }
        }
        root_splits_at_a_power_of_two(up, (j - 1) as nat);
    }
}

/// The root of one entry is the digest of a zero byte and its payload.
pub proof fn root_of_one_entry(payload: Seq<u8>)
    ensures
        root_of(leaves(seq![payload])) == digest::sha256(seq![0u8] + payload),
        root_of(leaves(Seq::empty())) == digest::sha256(Seq::empty()),
{
    assert(leaves(seq![payload])[0] == leaf(payload));
}

} // verus!

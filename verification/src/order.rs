//! Keys of any ordered type: how two of them stand to each other.

use vstd::prelude::*;
use vstd::std_specs::cmp::{OrdSpec, PartialEqSpec, PartialOrdSpec};

verus! {

/// The comparisons of `K` agree with one another and make a total order, as
/// `Ord` asks of them.
pub open spec fn lawful<K: Ord>() -> bool {
    vstd::laws_cmp::obeys_cmp::<K>()
}

/// `a` is less than `b`.
pub open spec fn below<K: Ord>(a: K, b: K) -> bool {
    a.partial_cmp_spec(&b) == Some(std::cmp::Ordering::Less)
}

/// `a` equals `b`, by the type's own equality.
pub open spec fn same<K: PartialEq>(a: K, b: K) -> bool {
    a.eq_spec(&b)
}

/// A column in ascending order.
pub open spec fn sorted<K: Ord>(s: Seq<K>) -> bool {
    forall|i: int, j: int| 0 <= i <= j < s.len() ==> !below(#[trigger] s[j], #[trigger] s[i])
}

/// How one key stands to another.
pub enum Place {
    /// It is less.
    Before,
    /// It equals the other.
    Level,
    /// It is greater.
    Behind,
}

/// How `a` stands to `b`.
pub fn place_of<K: Ord>(a: &K, b: &K) -> (p: Place)
    ensures
        lawful::<K>() ==> match p {
            Place::Before => below(*a, *b),
            Place::Level => same(*a, *b),
            Place::Behind => below(*b, *a),
        },
{
    proof {
        if lawful::<K>() {
            reveal(vstd::laws_cmp::obeys_cmp_ord);
            reveal(vstd::laws_cmp::obeys_cmp_partial_ord);
            reveal(vstd::laws_cmp::obeys_partial_cmp_spec_properties);
            assert(a.partial_cmp_spec(b) == Some(a.cmp_spec(b)));
            assert(b.partial_cmp_spec(a) == Some(b.cmp_spec(a)));
        }
    }
    match a.cmp(b) {
        std::cmp::Ordering::Less => Place::Before,
        std::cmp::Ordering::Equal => Place::Level,
        std::cmp::Ordering::Greater => Place::Behind,
    }
}

/// Is `a` less than `b`?
pub fn is_below<K: Ord>(a: &K, b: &K) -> (r: bool)
    ensures
        lawful::<K>() ==> r == below(*a, *b),
{
    proof {
        if lawful::<K>() {
            reveal(vstd::laws_cmp::obeys_cmp_partial_ord);
        }
    }
    *a < *b
}

/// Does `a` equal `b`?
pub fn is_same<K: Ord>(a: &K, b: &K) -> (r: bool)
    ensures
        lawful::<K>() ==> r == same(*a, *b),
{
    *a == *b
}

/// The laws of the order.
pub proof fn lemma_order<K: Ord>()
    requires
        lawful::<K>(),
    ensures
        forall|a: K| #[trigger] same(a, a),
        forall|a: K, b: K| #[trigger] same(a, b) ==> same(b, a),
        forall|a: K, b: K, c: K| #[trigger] same(a, b) && #[trigger] same(b, c) ==> same(a, c),
        forall|a: K, b: K| #[trigger] below(a, b) ==> !below(b, a) && !same(a, b) && !same(b, a),
        forall|a: K, b: K| !(#[trigger] below(a, b)) && !below(b, a) ==> same(a, b),
        forall|a: K, b: K, c: K| #[trigger] below(a, b) && #[trigger] below(b, c) ==> below(a, c),
        forall|a: K, b: K, c: K| #[trigger] same(a, b) && #[trigger] below(b, c) ==> below(a, c),
        forall|a: K, b: K, c: K| #[trigger] below(a, b) && #[trigger] same(b, c) ==> below(a, c),
{
    reveal(vstd::laws_cmp::obeys_cmp_ord);
    reveal(vstd::laws_cmp::obeys_cmp_partial_ord);
    reveal(vstd::laws_cmp::obeys_partial_cmp_spec_properties);
    reveal(vstd::laws_eq::obeys_eq_spec_properties);
    assert forall|a: K, b: K| true implies #[trigger] below(a, b) || same(a, b) || below(b, a) by {
        assert(a.partial_cmp_spec(&b) == Some(a.cmp_spec(&b)));
        assert(b.partial_cmp_spec(&a) == Some(b.cmp_spec(&a)));
    }
    assert forall|a: K| #[trigger] same(a, a) by {
        assert(a.partial_cmp_spec(&a) == Some(a.cmp_spec(&a)));
    }
    assert forall|a: K, b: K| #[trigger] below(a, b) implies !below(b, a) && !same(a, b) && !same(
        b,
        a,
    ) by {
        assert(b.partial_cmp_spec(&a) == Some(std::cmp::Ordering::Greater));
    }
    assert forall|a: K, b: K, c: K| #[trigger] same(a, b) && #[trigger] below(b, c) implies below(
        a,
        c,
    ) by {
        assert(below(a, c) || same(a, c) || below(c, a));
        assert(below(b, a) || same(b, a) || below(a, b));
        if same(a, c) {
            assert(same(b, a) && same(b, c));
        }
        if below(c, a) {
            assert(below(b, a));
        }
    }
    assert forall|a: K, b: K, c: K| #[trigger] below(a, b) && #[trigger] same(b, c) implies below(
        a,
        c,
    ) by {
        assert(below(a, c) || same(a, c) || below(c, a));
        if same(a, c) {
            assert(same(c, b));
            assert(same(a, b));
        }
        if below(c, a) {
            assert(below(c, b));
            assert(same(c, b));
        }
    }
}

} // verus!

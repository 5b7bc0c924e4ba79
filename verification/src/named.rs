//! Association lists: values by name, in a vector.

use vstd::prelude::*;

use crate::text::same_text;

verus! {

/// The last value stored under each name.
pub open spec fn assoc<V>(s: Seq<(String, V)>) -> Map<Seq<char>, V>
    decreases s.len(),
{
    if s.len() == 0 {
        Map::empty()
    } else {
        assoc(s.drop_last()).insert(s.last().0@, s.last().1)
    }
}

/// No name occurs twice.
pub open spec fn distinct_names<V>(s: Seq<(String, V)>) -> bool {
    forall|i: int, j: int|
        0 <= i < j < s.len() ==> (#[trigger] s[i]).0@ != (#[trigger] s[j]).0@
}

/// In a list of distinct names, each name maps to its value.
pub proof fn lemma_assoc_has<V>(s: Seq<(String, V)>, i: int)
    requires
        0 <= i < s.len(),
        distinct_names(s),
    ensures
        assoc(s).contains_key(s[i].0@),
        assoc(s)[s[i].0@] == s[i].1,
    decreases s.len(),
{
    if i < s.len() - 1 {
        lemma_assoc_has(s.drop_last(), i);
        assert(s[i].0@ != s[s.len() - 1].0@);
    }
}

/// A name that maps to a value stands in the list with it.
pub proof fn lemma_assoc_from<V>(s: Seq<(String, V)>, name: Seq<char>) -> (i: int)
    requires
        assoc(s).contains_key(name),
    ensures
        0 <= i < s.len(),
        s[i].0@ == name,
        assoc(s)[name] == s[i].1,
    decreases s.len(),
{
    if s.last().0@ == name {
        s.len() - 1
    } else {
        lemma_assoc_from(s.drop_last(), name)
    }
}

/// The last value stored under `name`.
pub fn assoc_get<'a, V>(list: &'a Vec<(String, V)>, name: &str) -> (r: Option<&'a V>)
    ensures
        match r {
            Some(v) => assoc(list@).contains_key(name@) && assoc(list@)[name@] == v,
            None => !assoc(list@).contains_key(name@),
        },
{
    let mut i: usize = list.len();
    assert(list@.take(i as int) =~= list@);
    while i > 0
        invariant
            i <= list@.len(),
            assoc(list@).contains_key(name@) == assoc(list@.take(i as int)).contains_key(name@),
            assoc(list@)[name@] == assoc(list@.take(i as int))[name@],
        decreases i,
    {
        assert(list@.take(i as int).drop_last() =~= list@.take(i - 1));
        i -= 1;
        if same_text(list[i].0.as_str(), name) {
            return Some(&list[i].1);
        }
    }
    None
}

/// The place of `name` in a list.
pub fn place_of<V>(list: &Vec<(String, V)>, name: &str) -> (r: Option<usize>)
    requires
        distinct_names(list@),
    ensures
        match r {
            Some(i) => i < list@.len() && list@[i as int].0@ == name@ && assoc(
                list@,
            ).contains_key(name@) && assoc(list@)[name@] == list@[i as int].1,
            None => !assoc(list@).contains_key(name@),
        },
{
    let mut i: usize = 0;
    while i < list.len()
        invariant
            distinct_names(list@),
            i <= list@.len(),
            forall|j: int| 0 <= j < i ==> (#[trigger] list@[j]).0@ != name@,
        decreases list.len() - i,
    {
        if same_text(list[i].0.as_str(), name) {
            proof {
                lemma_assoc_has(list@, i as int);
            }
            return Some(i);
        }
        i += 1;
    }
    proof {
        if assoc(list@).contains_key(name@) {
            let k = lemma_assoc_from(list@, name@);
            assert(list@[k].0@ != name@);
        }
    }
    None
}

/// Taking an entry out of a list of distinct names takes its name out of
/// the map.
pub proof fn lemma_assoc_remove<V>(s: Seq<(String, V)>, i: int)
    requires
        0 <= i < s.len(),
        distinct_names(s),
    ensures
        distinct_names(s.remove(i)),
        assoc(s.remove(i)) == assoc(s).remove(s[i].0@),
{
    let t = s.remove(i);
    let m = assoc(s).remove(s[i].0@);
    assert forall|a: int, b: int| 0 <= a < b < t.len() implies (#[trigger] t[a]).0@ != (
    #[trigger] t[b]).0@ by {
        let x = if a < i { a } else { a + 1 };
        let y = if b < i { b } else { b + 1 };
        assert(t[a] == s[x]);
        assert(t[b] == s[y]);
    }
    assert forall|n: Seq<char>| assoc(t).dom().contains(n) == m.dom().contains(n) by {
        if assoc(t).contains_key(n) {
            let k = lemma_assoc_from(t, n);
            let x = if k < i { k } else { k + 1 };
            assert(t[k] == s[x]);
            lemma_assoc_has(s, x);
        }
        if m.contains_key(n) {
            let x = lemma_assoc_from(s, n);
            assert(x != i);
            let k = if x < i { x } else { x - 1 };
            assert(t[k] == s[x]);
            lemma_assoc_has(t, k);
        }
    }
    assert(assoc(t).dom() =~= m.dom());
    assert forall|n: Seq<char>| assoc(t).dom().contains(n) implies assoc(t)[n] == m[n] by {
        let k = lemma_assoc_from(t, n);
        let x = if k < i { k } else { k + 1 };
        assert(t[k] == s[x]);
        lemma_assoc_has(s, x);
    }
    assert(assoc(t) =~= m);
}

/// A list of distinct names maps as many names as it has entries.
pub proof fn lemma_assoc_len<V>(s: Seq<(String, V)>)
    requires
        distinct_names(s),
    ensures
        assoc(s).dom().finite(),
        assoc(s).len() == s.len(),
    decreases s.len(),
{
    if s.len() > 0 {
        let t = s.drop_last();
        lemma_assoc_len(t);
        if assoc(t).contains_key(s.last().0@) {
            let k = lemma_assoc_from(t, s.last().0@);
            assert(s[k].0@ != s[s.len() - 1].0@);
        }
    }
}

} // verus!

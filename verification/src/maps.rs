//! The `ahash` maps that the joins and the graph index look keys up in,
//! with what their contents are.

use vstd::prelude::*;

verus! {

/// `ahash::RandomState`, the hasher that an `AHashMap` draws its keys from.
#[verifier::external_type_specification]
#[verifier::external_body]
pub struct ExRandomState(ahash::RandomState);

/// `ahash::AHashMap`.
#[verifier::external_type_specification]
#[verifier::external_body]
#[verifier::reject_recursive_types(K)]
#[verifier::reject_recursive_types(V)]
#[verifier::reject_recursive_types(S)]
pub struct ExAHashMap<K, V, S>(ahash::AHashMap<K, V, S>);

/// The entries of a map from ids to places.
pub uninterp spec fn id_map(m: ahash::AHashMap<u32, u32>) -> Map<u32, u32>;

/// `AHashMap::new`: an empty map.
#[verifier::external_body]
pub(crate) fn new_id_map() -> (m: ahash::AHashMap<u32, u32>)
    ensures
        forall|id: u32| !#[trigger] id_map(m).contains_key(id),
{
    ahash::AHashMap::new()
}

/// `AHashMap::get`: the value under a key, if there is one.
#[verifier::external_body]
pub(crate) fn id_map_get(m: &ahash::AHashMap<u32, u32>, id: u32) -> (r: Option<u32>)
    ensures
        r == (if id_map(*m).contains_key(id) {
            Some(id_map(*m)[id])
        } else {
            None
        }),
{
    m.get(&id).copied()
}

/// `AHashMap::insert`: stores a value under a key, in place of any that was
/// there.
#[verifier::external_body]
pub(crate) fn id_map_insert(m: &mut ahash::AHashMap<u32, u32>, id: u32, place: u32)
    ensures
        id_map(*final(m)) == id_map(*old(m)).insert(id, place),
{
    m.insert(id, place);
}

/// `AHashMap::clone`: a map with the same entries.
#[verifier::external_body]
pub(crate) fn id_map_copy(m: &ahash::AHashMap<u32, u32>) -> (r: ahash::AHashMap<u32, u32>)
    ensures
        id_map(r) == id_map(*m),
{
    m.clone()
}

/// The entries of a map from keys to lists of row numbers.
pub uninterp spec fn rows_map(m: ahash::AHashMap<i64, Vec<usize>>) -> Map<i64, Seq<usize>>;

/// The rows under a key; none where the key is absent.
pub open spec fn rows_at(m: Map<i64, Seq<usize>>, key: i64) -> Seq<usize> {
    if m.contains_key(key) {
        m[key]
    } else {
        Seq::empty()
    }
}

/// `AHashMap::new`: an empty map.
#[verifier::external_body]
pub(crate) fn new_rows_map() -> (m: ahash::AHashMap<i64, Vec<usize>>)
    ensures
        forall|key: i64| !#[trigger] rows_map(m).contains_key(key),
{
    ahash::AHashMap::new()
}

/// `AHashMap::entry`, with an empty list for a new key, and a push: one
/// more row behind those under the key.
#[verifier::external_body]
pub(crate) fn rows_map_push(m: &mut ahash::AHashMap<i64, Vec<usize>>, key: i64, row: usize)
    ensures
        rows_map(*final(m)) == rows_map(*old(m)).insert(
            key,
            rows_at(rows_map(*old(m)), key).push(row),
        ),
{
    m.entry(key).or_default().push(row);
}

/// `AHashMap::get`: the rows under a key, if it is there.
#[verifier::external_body]
pub(crate) fn rows_map_get(m: &ahash::AHashMap<i64, Vec<usize>>, key: i64) -> (r: Option<
    &Vec<usize>,
>)
    ensures
        match r {
            Some(v) => rows_map(*m).contains_key(key) && v@ == rows_map(*m)[key],
            None => !rows_map(*m).contains_key(key),
        },
{
    m.get(&key)
}

/// The entries of a map from keys to lists of (other key, row number).
pub uninterp spec fn links_map(m: ahash::AHashMap<i64, Vec<(i64, usize)>>) -> Map<
    i64,
    Seq<(i64, usize)>,
>;

/// The links under a key; none where the key is absent.
pub open spec fn links_at(m: Map<i64, Seq<(i64, usize)>>, key: i64) -> Seq<(i64, usize)> {
    if m.contains_key(key) {
        m[key]
    } else {
        Seq::empty()
    }
}

/// `AHashMap::new`: an empty map.
#[verifier::external_body]
pub(crate) fn new_links_map() -> (m: ahash::AHashMap<i64, Vec<(i64, usize)>>)
    ensures
        forall|key: i64| !#[trigger] links_map(m).contains_key(key),
{
    ahash::AHashMap::new()
}

/// `AHashMap::entry`, with an empty list for a new key, and a push: one
/// more link behind those under the key.
#[verifier::external_body]
pub(crate) fn links_map_push(
    m: &mut ahash::AHashMap<i64, Vec<(i64, usize)>>,
    key: i64,
    link: (i64, usize),
)
    ensures
        links_map(*final(m)) == links_map(*old(m)).insert(
            key,
            links_at(links_map(*old(m)), key).push(link),
        ),
{
    m.entry(key).or_default().push(link);
}

/// `AHashMap::get`: the links under a key, if it is there.
#[verifier::external_body]
pub(crate) fn links_map_get(m: &ahash::AHashMap<i64, Vec<(i64, usize)>>, key: i64) -> (r: Option<
    &Vec<(i64, usize)>,
>)
    ensures
        match r {
            Some(v) => links_map(*m).contains_key(key) && v@ == links_map(*m)[key],
            None => !links_map(*m).contains_key(key),
        },
{
    m.get(&key)
}

/// The entries of a map from texts to a score and a value.
pub uninterp spec fn live_map(m: ahash::AHashMap<String, (u64, Vec<u64>)>) -> Map<
    Seq<char>,
    (u64, Seq<u64>),
>;

/// The view of a score and a value.
pub open spec fn entry_view(e: (u64, Vec<u64>)) -> (u64, Seq<u64>) {
    (e.0, e.1@)
}

/// `AHashMap::new`: an empty map.
#[verifier::external_body]
pub(crate) fn new_live_map() -> (m: ahash::AHashMap<String, (u64, Vec<u64>)>)
    ensures
        forall|key: Seq<char>| !#[trigger] live_map(m).contains_key(key),
        live_map(m).dom().finite(),
{
    ahash::AHashMap::new()
}

/// `AHashMap::contains_key`: whether there is an entry under a text.
#[verifier::external_body]
pub(crate) fn live_map_has(m: &ahash::AHashMap<String, (u64, Vec<u64>)>, key: &str) -> (r: bool)
    ensures
        r == live_map(*m).contains_key(key@),
{
    m.contains_key(key)
}

/// `AHashMap::len`: the number of entries.
#[verifier::external_body]
pub(crate) fn live_map_len(m: &ahash::AHashMap<String, (u64, Vec<u64>)>) -> (n: usize)
    ensures
        n == live_map(*m).dom().len(),
        n == 0 <==> live_map(*m).dom() == Set::<Seq<char>>::empty(),
{
    m.len()
}

/// `AHashMap::insert`: stores an entry under a text, in place of any that
/// was there.
#[verifier::external_body]
pub(crate) fn live_map_insert(
    m: &mut ahash::AHashMap<String, (u64, Vec<u64>)>,
    key: String,
    e: (u64, Vec<u64>),
)
    ensures
        live_map(*final(m)) == live_map(*old(m)).insert(key@, entry_view(e)),
{
    m.insert(key, e);
}

/// `AHashMap::remove`: takes the entry under a text out, if there is one.
#[verifier::external_body]
pub(crate) fn live_map_remove(m: &mut ahash::AHashMap<String, (u64, Vec<u64>)>, key: &str) -> (r:
    Option<(u64, Vec<u64>)>)
    ensures
        live_map(*final(m)) == live_map(*old(m)).remove(key@),
        match r {
            Some(e) => live_map(*old(m)).contains_key(key@) && entry_view(e) == live_map(
                *old(m),
            )[key@],
            None => !live_map(*old(m)).contains_key(key@),
        },
{
    m.remove(key)
}

/// `out` lists the entries of the map in the order of `keys`, each once.
pub open spec fn listed(
    m: Map<Seq<char>, (u64, Seq<u64>)>,
    keys: Seq<Seq<char>>,
    out: Seq<(u64, Seq<u64>)>,
) -> bool {
    &&& keys.no_duplicates()
    &&& forall|key: Seq<char>| #[trigger] keys.contains(key) <==> m.contains_key(key)
    &&& out.len() == keys.len()
    &&& forall|i: int| 0 <= i < keys.len() ==> #[trigger] out[i] == m[keys[i]]
}

/// `out` lists the entries of the map in some order, each once.
pub open spec fn lists(
    m: Map<Seq<char>, (u64, Seq<u64>)>,
    out: Seq<(u64, Seq<u64>)>,
) -> bool {
    exists|keys: Seq<Seq<char>>| listed(m, keys, out)
}

/// The views of a list of entries.
pub open spec fn entries_view(v: Seq<(u64, Vec<u64>)>) -> Seq<(u64, Seq<u64>)> {
    Seq::new(v.len(), |i: int| entry_view(v[i]))
}

/// `AHashMap::values`: every entry once, in an order that nothing is said
/// of.
#[verifier::external_body]
pub(crate) fn live_map_values(m: &ahash::AHashMap<String, (u64, Vec<u64>)>) -> (out: Vec<
    (u64, Vec<u64>),
>)
    ensures
        lists(live_map(*m), entries_view(out@)),
{
    m.values().cloned().collect()
}

} // verus!

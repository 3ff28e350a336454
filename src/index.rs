//! The in-memory index: for each live key, where its latest put record lies.
use vstd::prelude::*;
use dashmap::DashMap;

verus! {

/// The location of a record's payload: its segment, its length and the byte
/// offset of the payload (past the length prefix).
#[derive(Clone, Copy, Debug, PartialEq, Eq, Structural)]
pub struct Index {
    pub file: u32,
    pub len: u32,
    pub offset: u64,
}

impl Index {
    pub fn new(file: u32, len: u32, offset: u64) -> (r: Index)
        ensures
            r == (Index { file, len, offset }),
    {
        Index { file, len, offset }
    }
}

#[verifier::external_type_specification]
#[verifier::external_body]
#[verifier::reject_recursive_types(K)]
#[verifier::reject_recursive_types(V)]
#[verifier::reject_recursive_types(S)]
pub struct ExDashMap<K, V, S>(DashMap<K, V, S>);

/// What a concurrent index map holds, key by key.
pub uninterp spec fn index_entries(m: DashMap<String, Index>) -> Map<Seq<char>, Index>;

/// The entry of `k` in `m`, if any.
pub open spec fn entry_of(m: Map<Seq<char>, Index>, k: Seq<char>) -> Option<Index> {
    if m.contains_key(k) {
        Some(m[k])
    } else {
        None
    }
}

/// Relies on `DashMap::new`: a map with no entries.
#[verifier::external_body]
pub(crate) fn index_new() -> (r: DashMap<String, Index>)
    ensures
        index_entries(r).dom() == Set::<Seq<char>>::empty(),
{
    DashMap::new()
}

/// Relies on `DashMap::insert`: sets the entry of `k` and hands back the one it
/// replaced. Keys compare as strings.
#[verifier::external_body]
pub(crate) fn index_insert(m: &mut DashMap<String, Index>, k: String, v: Index) -> (r: Option<Index>)
    ensures
        index_entries(*final(m)) == index_entries(*old(m)).insert(k@, v),
        r == entry_of(index_entries(*old(m)), k@),
{
    m.insert(k, v)
}

/// Relies on `DashMap::remove`: drops the entry of `k` and hands back its value.
#[verifier::external_body]
pub(crate) fn index_remove(m: &mut DashMap<String, Index>, k: &String) -> (r: Option<Index>)
    ensures
        index_entries(*final(m)) == index_entries(*old(m)).remove(k@),
        r == entry_of(index_entries(*old(m)), k@),
{
    m.remove(k).map(|e| e.1)
}

/// Relies on `DashMap::get`: a copy of the entry of `k`.
#[verifier::external_body]
pub(crate) fn index_get(m: &DashMap<String, Index>, k: &String) -> (r: Option<Index>)
    ensures
        r == entry_of(index_entries(*m), k@),
{
    m.get(k).map(|e| *e)
}

/// Relies on `DashMap::contains_key`: whether `k` has an entry.
#[verifier::external_body]
pub(crate) fn index_contains(m: &DashMap<String, Index>, k: &String) -> (r: bool)
    ensures
        r == index_entries(*m).contains_key(k@),
{
    m.contains_key(k)
}

/// Relies on `DashMap::iter`: every entry is visited once, so the keys it
/// yields are exactly those of the map, in an order that is left open.
#[verifier::external_body]
pub(crate) fn index_keys(m: &DashMap<String, Index>) -> (r: Vec<String>)
    ensures
        forall|t: int| 0 <= t < r@.len() ==> index_entries(*m).contains_key(#[trigger] r@[t]@),
        forall|k: Seq<char>|
            #![trigger index_entries(*m).contains_key(k)]
            index_entries(*m).contains_key(k) ==> exists|t: int| 0 <= t < r@.len() && r@[t]@ == k,
{
    m.iter().map(|e| e.key().clone()).collect()
}

} // verus!

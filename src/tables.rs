//! The hash tables of the graph. Each is an `ahash::AHashMap`; what a table
//! holds is named by a spec function, and each operation that the graph uses
//! is a small function whose contract says what it does to that content.

use vstd::prelude::*;
use crate::graph::{Document, Edge, Node};

verus! {

#[verifier::external_type_specification]
#[verifier::external_body]
#[verifier::reject_recursive_types(K)]
#[verifier::reject_recursive_types(V)]
#[verifier::reject_recursive_types(S)]
pub struct ExAHashMap<K, V, S>(ahash::AHashMap<K, V, S>);

#[verifier::external_type_specification]
#[verifier::external_body]
pub struct ExRandomState(ahash::RandomState);

/// Concept records keyed by concept identifier.
pub type NodeTable = ahash::AHashMap<u64, Node>;

/// Edge records keyed by edge key.
pub type EdgeTable = ahash::AHashMap<u64, Edge>;

/// Document records keyed by document identifier.
pub type DocumentTable = ahash::AHashMap<String, Document>;

/// Co-occurrence counts keyed by document identifier.
pub type WeightTable = ahash::AHashMap<String, u64>;

/// What a node table holds.
pub uninterp spec fn node_entries(m: NodeTable) -> Map<u64, Node>;

/// What an edge table holds.
pub uninterp spec fn edge_entries(m: EdgeTable) -> Map<u64, Edge>;

/// What a document table holds, keyed by the characters of the identifier.
pub uninterp spec fn document_entries(m: DocumentTable) -> Map<Seq<char>, Document>;

/// What a weight table holds, keyed by the characters of the identifier.
pub uninterp spec fn weight_entries(m: WeightTable) -> Map<Seq<char>, u64>;

/// Relies on `AHashMap::new`: a new map is empty.
#[verifier::external_body]
pub(crate) fn node_table_new() -> (r: NodeTable)
    ensures
        node_entries(r).dom() == Set::<u64>::empty(),
{
    ahash::AHashMap::new()
}

/// Relies on `AHashMap::get`: the value under the key, if there is one.
#[verifier::external_body]
pub(crate) fn node_table_get<'a>(m: &'a NodeTable, k: u64) -> (r: Option<&'a Node>)
    ensures
        r matches Some(v) ==> node_entries(*m).contains_key(k) && node_entries(*m)[k] == *v,
        r is None ==> !node_entries(*m).contains_key(k),
{
    m.get(&k)
}

/// Relies on `AHashMap::remove`: the key leaves the map, and its value is
/// handed back.
#[verifier::external_body]
pub(crate) fn node_table_remove(m: &mut NodeTable, k: u64) -> (r: Option<Node>)
    ensures
        node_entries(*final(m)) == node_entries(*old(m)).remove(k),
        r matches Some(v) ==> node_entries(*old(m)).contains_key(k) && node_entries(*old(m))[k] == v,
        r is None ==> !node_entries(*old(m)).contains_key(k),
{
    m.remove(&k)
}

/// Relies on `AHashMap::insert`: the key is mapped to the value.
#[verifier::external_body]
pub(crate) fn node_table_insert(m: &mut NodeTable, k: u64, v: Node)
    ensures
        node_entries(*final(m)) == node_entries(*old(m)).insert(k, v),
{
    m.insert(k, v);
}

/// Relies on `AHashMap::new`: a new map is empty.
#[verifier::external_body]
pub(crate) fn edge_table_new() -> (r: EdgeTable)
    ensures
        edge_entries(r).dom() == Set::<u64>::empty(),
{
    ahash::AHashMap::new()
}

/// Relies on `AHashMap::get`: the value under the key, if there is one.
#[verifier::external_body]
pub(crate) fn edge_table_get<'a>(m: &'a EdgeTable, k: u64) -> (r: Option<&'a Edge>)
    ensures
        r matches Some(v) ==> edge_entries(*m).contains_key(k) && edge_entries(*m)[k] == *v,
        r is None ==> !edge_entries(*m).contains_key(k),
{
    m.get(&k)
}

/// Relies on `AHashMap::remove`: the key leaves the map, and its value is
/// handed back.
#[verifier::external_body]
pub(crate) fn edge_table_remove(m: &mut EdgeTable, k: u64) -> (r: Option<Edge>)
    ensures
        edge_entries(*final(m)) == edge_entries(*old(m)).remove(k),
        r matches Some(v) ==> edge_entries(*old(m)).contains_key(k) && edge_entries(*old(m))[k] == v,
        r is None ==> !edge_entries(*old(m)).contains_key(k),
{
    m.remove(&k)
}

/// Relies on `AHashMap::insert`: the key is mapped to the value.
#[verifier::external_body]
pub(crate) fn edge_table_insert(m: &mut EdgeTable, k: u64, v: Edge)
    ensures
        edge_entries(*final(m)) == edge_entries(*old(m)).insert(k, v),
{
    m.insert(k, v);
}

/// Relies on `AHashMap::new`: a new map is empty.
#[verifier::external_body]
pub(crate) fn document_table_new() -> (r: DocumentTable)
    ensures
        document_entries(r).dom() == Set::<Seq<char>>::empty(),
{
    ahash::AHashMap::new()
}

/// Relies on `AHashMap::get`: the value under the key, if there is one.
#[verifier::external_body]
pub(crate) fn document_table_get<'a>(m: &'a DocumentTable, k: &String) -> (r: Option<&'a Document>)
    ensures
        r matches Some(v) ==> document_entries(*m).contains_key(k@) && document_entries(*m)[k@] == *v,
        r is None ==> !document_entries(*m).contains_key(k@),
{
    m.get(k)
}

/// Relies on `AHashMap::remove`: the key leaves the map, and its value is
/// handed back.
#[verifier::external_body]
pub(crate) fn document_table_remove(m: &mut DocumentTable, k: &String) -> (r: Option<Document>)
    ensures
        document_entries(*final(m)) == document_entries(*old(m)).remove(k@),
        r matches Some(v) ==> document_entries(*old(m)).contains_key(k@) && document_entries(*old(m))[k@] == v,
        r is None ==> !document_entries(*old(m)).contains_key(k@),
{
    m.remove(k)
}

/// Relies on `AHashMap::insert`: the key is mapped to the value.
#[verifier::external_body]
pub(crate) fn document_table_insert(m: &mut DocumentTable, k: String, v: Document)
    ensures
        document_entries(*final(m)) == document_entries(*old(m)).insert(k@, v),
{
    m.insert(k, v);
}

/// Relies on `AHashMap::new`: a new map is empty.
#[verifier::external_body]
pub(crate) fn weight_table_new() -> (r: WeightTable)
    ensures
        weight_entries(r).dom() == Set::<Seq<char>>::empty(),
{
    ahash::AHashMap::new()
}

/// Relies on `AHashMap::get`: the value under the key, if there is one.
#[verifier::external_body]
pub(crate) fn weight_table_get(m: &WeightTable, k: &String) -> (r: Option<u64>)
    ensures
        r matches Some(v) ==> weight_entries(*m).contains_key(k@) && weight_entries(*m)[k@] == v,
        r is None ==> !weight_entries(*m).contains_key(k@),
{
    m.get(k).copied()
}

/// Relies on `AHashMap::insert`: the key is mapped to the value.
#[verifier::external_body]
pub(crate) fn weight_table_insert(m: &mut WeightTable, k: String, v: u64)
    ensures
        weight_entries(*final(m)) == weight_entries(*old(m)).insert(k@, v),
{
    m.insert(k, v);
}

/// Relies on `AHashMap::iter`: every entry is visited once, in an order that
/// the map does not promise.
#[verifier::external_body]
pub(crate) fn weight_table_entries(m: &WeightTable) -> (r: Vec<(String, u64)>)
    ensures
        forall|i: int|
            0 <= i < r@.len() ==> weight_entries(*m).contains_key(#[trigger] r@[i].0@)
                && weight_entries(*m)[r@[i].0@] == r@[i].1,
        forall|i: int, j: int| 0 <= i < j < r@.len() ==> r@[i].0@ != r@[j].0@,
        forall|k: Seq<char>|
            weight_entries(*m).contains_key(k) ==> exists|i: int|
                0 <= i < r@.len() && (#[trigger] r@[i].0@) == k,
{
    m.iter().map(|(k, v)| (k.clone(), *v)).collect()
}

} // verus!

//! The labelled edges of a trie, kept in an `ahash` map from
//! (parent node, label) to child node.
use ahash::{AHashMap, RandomState};
use vstd::prelude::*;

verus! {

#[verifier::external_type_specification]
#[verifier::external_body]
#[verifier::reject_recursive_types(K)]
#[verifier::reject_recursive_types(V)]
#[verifier::reject_recursive_types(S)]
pub struct ExAHashMap<K, V, S>(AHashMap<K, V, S>);

#[verifier::external_type_specification]
#[verifier::external_body]
pub struct ExRandomState(RandomState);

/// Edges keyed by the parent's index and the label's bytes.
pub type EdgeMap = AHashMap<(usize, Vec<u8>), usize>;

/// An edge's key in the spec: the parent's index and the label's bytes.
pub type EdgeKey = (usize, Seq<u8>);

/// The edges that a map holds.
pub uninterp spec fn edges_of(m: AHashMap<(usize, Vec<u8>), usize>) -> Map<(usize, Seq<u8>), usize>;

/// Relies on `AHashMap::with_capacity`: a new map holds no entry.
#[verifier::external_body]
pub(crate) fn new_edges(capacity: usize) -> (r: EdgeMap)
    ensures
        edges_of(r).dom() == Set::<EdgeKey>::empty(),
{
    AHashMap::with_capacity(capacity)
}

/// Relies on `AHashMap::get`: the child stored under (`node`, `label`), if any.
#[verifier::external_body]
pub(crate) fn edge_get(m: &EdgeMap, node: usize, label: &[u8]) -> (r: Option<usize>)
    ensures
        r == edges_of(*m).get((node, label@)),
{
    m.get(&(node, label.to_vec())).copied()
}

/// Relies on `AHashMap::insert`: the entry under (`node`, `label`) becomes
/// `child`, the others stay.
#[verifier::external_body]
pub(crate) fn edge_insert(m: &mut EdgeMap, node: usize, label: &[u8], child: usize)
    ensures
        edges_of(*final(m)) == edges_of(*old(m)).insert((node, label@), child),
{
    m.insert((node, label.to_vec()), child);
}

/// Relies on `HashMap::shrink_to_fit`, reached through `AHashMap`'s `Deref`:
/// the entries stay.
#[verifier::external_body]
pub(crate) fn edges_shrink(m: &mut EdgeMap)
    ensures
        edges_of(*final(m)) == edges_of(*old(m)),
{
    m.shrink_to_fit();
}

} // verus!

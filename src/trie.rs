//! Tries over sequences of labels.
//!
//! `Trie` here keys by string labels and keeps exact keys: inserting a key
//! drops the keys that are proper prefixes of it. `label_trie::Trie` keys by
//! byte labels and keeps only the shortest keys, as a suffix-matching ruleset
//! needs.
use crate::payload::labels_view;
use label_trie::{open_walk, prefixes, replaced, Path};
use vstd::prelude::*;
use vstd::slice::slice_to_vec;
use vstd::string::StringSliceAdditionalSpecFns;

pub mod domain_trie;
mod edge_map;
pub mod label_trie;

verus! {

/// The bytes of each label.
pub open spec fn str_labels(v: Seq<&str>) -> Path {
    v.map_values(|s: &str| s.spec_bytes())
}

/// The labels as owned byte strings.
fn to_byte_labels(value: &[&str]) -> (r: Vec<Vec<u8>>)
    ensures
        labels_view(r@) == str_labels(value@),
        r@.len() == value@.len(),
{
    let mut r: Vec<Vec<u8>> = Vec::new();
    let mut i: usize = 0;
    while i < value.len()
        invariant
            i <= value@.len(),
            labels_view(r@) =~= str_labels(value@).take(i as int),
            r@.len() == i,
        decreases value@.len() - i,
    {
        let ghost before = r@;
        let bytes = slice_to_vec(value[i].as_bytes());
        r.push(bytes);
        assert(labels_view(r@) =~= labels_view(before).push(bytes@));
        i = i + 1;
    }
    assert(str_labels(value@).take(i as int) =~= str_labels(value@));
    r
}

/// A trie of string-label sequences that keeps exact keys.
pub struct Trie {
    root: label_trie::Trie,
}

impl Trie {
    /// The keys held.
    pub closed spec fn view(&self) -> Set<Path> {
        self.root@
    }

    /// The label sequences that lead from the root to a node: the prefixes
    /// of every key inserted so far.
    pub closed spec fn nodes(&self) -> Set<Path> {
        self.root.nodes()
    }

    /// Internal consistency.
    pub closed spec fn wf(&self) -> bool {
        self.root.wf()
    }

    /// The number of nodes, root included.
    pub closed spec fn node_count(&self) -> nat {
        self.root.node_count()
    }

    /// An empty trie.
    pub fn new() -> (r: Trie)
        ensures
            r.wf(),
            r@ == Set::<Path>::empty(),
            r.nodes() == Set::<Path>::empty().insert(Seq::empty()),
            r.node_count() == 1,
    {
        Trie { root: label_trie::Trie::with_capacity(0) }
    }

    /// Inserts the key `value`; keys that are proper prefixes of it stop
    /// being keys.
    pub fn insert(&mut self, value: &[&str])
        requires
            old(self).wf(),
            old(self).node_count() + value@.len() <= usize::MAX,
        ensures
            final(self).wf(),
            final(self).node_count() <= old(self).node_count() + value@.len(),
            final(self)@ == replaced(old(self)@, str_labels(value@)),
            final(self).nodes() == old(self).nodes().union(prefixes(str_labels(value@))),
    {
        let labels = to_byte_labels(value);
        self.root.insert_replacing(labels.as_slice());
    }

    /// `value` is a key.
    pub fn search(&self, value: &[&str]) -> (r: bool)
        requires
            self.wf(),
        ensures
            r == self@.contains(str_labels(value@)),
    {
        let labels = to_byte_labels(value);
        self.root.contains_key(labels.as_slice())
    }

    /// Walks `value` from the root and stops at the first label with no edge:
    /// `true` if the walk uses up `value`, else whether the node where it
    /// stopped ends a key.
    pub fn starts_with(&self, value: &[&str]) -> (r: bool)
        requires
            self.wf(),
        ensures
            r == open_walk(self@, self.nodes(), str_labels(value@)),
    {
        let labels = to_byte_labels(value);
        self.root.walk_open(labels.as_slice())
    }
}

} // verus!

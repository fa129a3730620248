//! The compiled artifact: the immutable unit that the trie compiler produces
//! once, offline, and that the lookup engine only ever reads.

use crate::trie::{node_ok, trie_get, TrieNode};
use vstd::prelude::*;

verus! {

/// The mathematical shape of an [`Artifact`]: the node arena, the country
/// table indexed by region index, and the root's arena index.
pub struct ArtifactModel {
    pub nodes: Seq<TrieNode>,
    pub countries: Seq<Option<Seq<char>>>,
    pub root: int,
}

/// The compiled, immutable output of the trie compiler: a flat node arena, a
/// country table indexed by region index, and the root index.  Built once by
/// [`crate::compile::compile`], then only read.
pub struct Artifact {
    pub(crate) nodes: Vec<TrieNode>,
    pub(crate) countries: Vec<Option<String>>,
    pub(crate) root: usize,
}

impl View for Artifact {
    type V = ArtifactModel;

    closed spec fn view(&self) -> ArtifactModel {
        ArtifactModel {
            nodes: self.nodes@,
            countries: self.countries.deep_view(),
            root: self.root as int,
        }
    }
}

/// The country table entry for the outcome of a trie walk: a region index
/// with no table entry (in particular the compiler's "unmapped" sentinel)
/// resolves to no result, never to an out-of-range access.
pub open spec fn country_for(m: ArtifactModel, region: Option<u32>) -> Option<Seq<char>> {
    match region {
        Some(ri) => if (ri as int) < m.countries.len() {
            m.countries[ri as int]
        } else {
            None
        },
        None => None,
    }
}

/// What looking an address up in a compiled artifact returns: the country
/// table entry for the region index that the trie associates with the
/// address, `None` when the walk ends in an empty node or the region has no
/// table entry.
pub open spec fn spec_lookup(m: ArtifactModel, addr: u32) -> Option<Seq<char>> {
    country_for(m, trie_get(m.nodes, m.root, addr, 0))
}

impl Artifact {
    /// Well-formedness: the root is a valid arena index and every branch
    /// chain below it ends within the 32 bits of an address, so a lookup can
    /// never run past the depth bound.
    pub open spec fn wf(&self) -> bool {
        node_ok(self@.nodes, self@.root, 32)
    }

    /// Package a node arena and a country table, rooted at arena index 0.
    pub fn new(nodes: Vec<TrieNode>, countries: Vec<Option<String>>) -> (a: Artifact)
        ensures
            a@.nodes == nodes@,
            a@.countries == countries.deep_view(),
            a@.root == 0,
    {
        Artifact { nodes, countries, root: 0 }
    }

    /// The number of nodes in the arena.
    pub fn node_count(&self) -> (n: usize)
        ensures
            n == self@.nodes.len(),
    {
        self.nodes.len()
    }

    /// The arena node at index `i`.
    pub fn node_at(&self, i: usize) -> (t: TrieNode)
        requires
            i < self@.nodes.len(),
        ensures
            t == self@.nodes[i as int],
    {
        self.nodes[i]
    }

    /// The number of entries in the country table.
    pub fn country_count(&self) -> (n: usize)
        ensures
            n == self@.countries.len(),
    {
        self.countries.len()
    }

    /// The country table entry at region index `i`.
    pub fn country_at(&self, i: usize) -> (c: Option<String>)
        requires
            i < self@.countries.len(),
        ensures
            c.deep_view() == self@.countries[i as int],
    {
        match &self.countries[i] {
            Some(s) => Some(s.clone()),
            None => None,
        }
    }

    /// The arena index of the trie root.
    pub fn root_index(&self) -> (r: usize)
        ensures
            r == self@.root,
    {
        self.root
    }
}

} // verus!

//! The library's general laws, stated and proved over the compiler's and the
//! lookup engine's models: every address inside an inserted prefix resolves
//! to that prefix's region, a dataset with two overlapping prefixes never
//! compiles, and compilation is a function of the two source tables alone.

use crate::artifact::{spec_lookup, ArtifactModel};
use crate::compile::{
    lemma_region_index_bound, spec_block_region, spec_build, spec_compile, spec_countries,
    spec_region_index, spec_resolved_id, BlockModel, RegionModel,
};
use crate::parse::spec_parse_prefix;
use crate::trie::{
    lemma_get_preserved, lemma_insert_frame, lemma_insert_get, matches_prefix, spec_insert,
    trie_get, TrieNode,
};
use vstd::prelude::*;

verus! {

/// An association the arena already makes survives the rest of the build
/// fold: insertions only claim positions that held nothing.
proof fn lemma_build_preserves(
    nodes: Seq<TrieNode>,
    regions: Seq<RegionModel>,
    blocks: Seq<BlockModel>,
    i: int,
    a: u32,
    v: u32,
)
    requires
        0 <= i,
        spec_build(nodes, regions, blocks, i) is Ok,
        trie_get(nodes, 0, a, 0) == Some(v),
    ensures
        trie_get(spec_build(nodes, regions, blocks, i)->Ok_0, 0, a, 0) == Some(v),
    decreases blocks.len() - i,
{
    if i < blocks.len() {
        let pl = spec_parse_prefix(blocks[i].prefix)->Some_0;
        let region = spec_block_region(regions, blocks[i]);
        assert(spec_parse_prefix(blocks[i].prefix) is Some);
        assert(spec_insert(nodes, 0, 0u32, pl.0, pl.1, region) is Ok);
        let n2 = spec_insert(nodes, 0, 0u32, pl.0, pl.1, region)->Ok_0;
        lemma_insert_frame(nodes, 0, 0u32, pl.0, pl.1, region);
        lemma_get_preserved(nodes, n2, 0, a, 0u32, v);
        lemma_build_preserves(n2, regions, blocks, i + 1, a, v);
    }
}

proof fn lemma_build_containment(
    nodes: Seq<TrieNode>,
    regions: Seq<RegionModel>,
    blocks: Seq<BlockModel>,
    i: int,
    j: int,
    addr: u32,
    len: u32,
    a: u32,
)
    requires
        0 <= i <= j < blocks.len(),
        spec_build(nodes, regions, blocks, i) is Ok,
        spec_parse_prefix(blocks[j].prefix) == Some((addr, len)),
        matches_prefix(a, addr, 0, len),
    ensures
        trie_get(spec_build(nodes, regions, blocks, i)->Ok_0, 0, a, 0) == Some(
            spec_block_region(regions, blocks[j]),
        ),
    decreases j - i,
{
    let pl = spec_parse_prefix(blocks[i].prefix)->Some_0;
    let region = spec_block_region(regions, blocks[i]);
    assert(spec_parse_prefix(blocks[i].prefix) is Some);
    assert(spec_insert(nodes, 0, 0u32, pl.0, pl.1, region) is Ok);
    let n2 = spec_insert(nodes, 0, 0u32, pl.0, pl.1, region)->Ok_0;
    if i == j {
        lemma_insert_get(nodes, 0, 0u32, addr, len, region, a);
        lemma_build_preserves(n2, regions, blocks, i + 1, a, region);
    } else {
        lemma_build_containment(n2, regions, blocks, i + 1, j, addr, len, a);
    }
}

/// **Containment**, at the trie level: when a dataset compiles, every address
/// inside the prefix of block `j` is associated with exactly the region index
/// that block `j` was compiled with.
pub proof fn lemma_containment(
    regions: Seq<RegionModel>,
    blocks: Seq<BlockModel>,
    j: int,
    addr: u32,
    len: u32,
    a: u32,
)
    requires
        spec_compile(regions, blocks) is Ok,
        0 <= j < blocks.len(),
        spec_parse_prefix(blocks[j].prefix) == Some((addr, len)),
        matches_prefix(a, addr, 0, len),
    ensures
        trie_get(spec_compile(regions, blocks)->Ok_0, 0, a, 0) == Some(
            spec_block_region(regions, blocks[j]),
        ),
{
    lemma_build_containment(seq![TrieNode::Empty], regions, blocks, 0, j, addr, len, a);
}

/// **Containment**, at the lookup level: when a dataset compiles and block
/// `j`'s region id has a region record, looking up any address inside block
/// `j`'s prefix in the compiled artifact returns that record's country code.
pub proof fn lemma_containment_lookup(
    regions: Seq<RegionModel>,
    blocks: Seq<BlockModel>,
    j: int,
    addr: u32,
    len: u32,
    a: u32,
)
    requires
        regions.len() < 0xFFFF_FFFF,
        spec_compile(regions, blocks) is Ok,
        0 <= j < blocks.len(),
        spec_parse_prefix(blocks[j].prefix) == Some((addr, len)),
        matches_prefix(a, addr, 0, len),
        spec_region_index(regions, spec_resolved_id(blocks[j])) is Some,
    ensures
        ({
            let ri = spec_region_index(regions, spec_resolved_id(blocks[j]))->Some_0;
            spec_lookup(
                (ArtifactModel {
                    nodes: spec_compile(regions, blocks)->Ok_0,
                    countries: spec_countries(regions),
                    root: 0,
                }),
                a,
            ) == Some(regions[ri].country)
        }),
{
    lemma_containment(regions, blocks, j, addr, len, a);
    lemma_region_index_bound(regions, spec_resolved_id(blocks[j]));
    let ri = spec_region_index(regions, spec_resolved_id(blocks[j]))->Some_0;
    assert(spec_block_region(regions, blocks[j]) == ri as u32);
    assert((ri as u32) as int == ri);
    assert(spec_countries(regions)[ri] == Some(regions[ri].country));
}

/// Once some address inside a coming block's prefix is already associated
/// with a region, the rest of the build fold must fail by the time it reaches
/// that block.
proof fn lemma_build_blocked(
    nodes: Seq<TrieNode>,
    regions: Seq<RegionModel>,
    blocks: Seq<BlockModel>,
    i: int,
    k: int,
    addrk: u32,
    lenk: u32,
    a: u32,
    v: u32,
)
    requires
        0 <= i <= k < blocks.len(),
        trie_get(nodes, 0, a, 0) == Some(v),
        spec_parse_prefix(blocks[k].prefix) == Some((addrk, lenk)),
        matches_prefix(a, addrk, 0, lenk),
    ensures
        !(spec_build(nodes, regions, blocks, i) is Ok),
    decreases k - i,
{
    if spec_build(nodes, regions, blocks, i) is Ok {
        let pl = spec_parse_prefix(blocks[i].prefix)->Some_0;
        let region = spec_block_region(regions, blocks[i]);
        assert(spec_insert(nodes, 0, 0u32, pl.0, pl.1, region) is Ok);
        if i == k {
            lemma_insert_get(nodes, 0, 0u32, addrk, lenk, region, a);
            assert(false);
        } else {
            let n2 = spec_insert(nodes, 0, 0u32, pl.0, pl.1, region)->Ok_0;
            lemma_insert_frame(nodes, 0, 0u32, pl.0, pl.1, region);
            lemma_get_preserved(nodes, n2, 0, a, 0u32, v);
            lemma_build_blocked(n2, regions, blocks, i + 1, k, addrk, lenk, a, v);
            assert(false);
        }
    }
}

proof fn lemma_overlap_helper(
    nodes: Seq<TrieNode>,
    regions: Seq<RegionModel>,
    blocks: Seq<BlockModel>,
    i: int,
    j: int,
    k: int,
    addrj: u32,
    lenj: u32,
    addrk: u32,
    lenk: u32,
    a: u32,
)
    requires
        0 <= i <= j < k < blocks.len(),
        spec_parse_prefix(blocks[j].prefix) == Some((addrj, lenj)),
        spec_parse_prefix(blocks[k].prefix) == Some((addrk, lenk)),
        matches_prefix(a, addrj, 0, lenj),
        matches_prefix(a, addrk, 0, lenk),
    ensures
        !(spec_build(nodes, regions, blocks, i) is Ok),
    decreases j - i,
{
    if spec_build(nodes, regions, blocks, i) is Ok {
        let pl = spec_parse_prefix(blocks[i].prefix)->Some_0;
        let region = spec_block_region(regions, blocks[i]);
        assert(spec_insert(nodes, 0, 0u32, pl.0, pl.1, region) is Ok);
        let n2 = spec_insert(nodes, 0, 0u32, pl.0, pl.1, region)->Ok_0;
        if i == j {
            lemma_insert_get(nodes, 0, 0u32, addrj, lenj, region, a);
            lemma_build_blocked(n2, regions, blocks, i + 1, k, addrk, lenk, a, region);
            assert(false);
        } else {
            lemma_overlap_helper(n2, regions, blocks, i + 1, j, k, addrj, lenj, addrk, lenk, a);
            assert(false);
        }
    }
}

/// **Disjointness enforcement**: a dataset holding two blocks whose prefixes
/// overlap — one prefix contains the other — never compiles; the build fails
/// with an error, it never silently picks one of the two.
pub proof fn lemma_overlap_rejected(
    regions: Seq<RegionModel>,
    blocks: Seq<BlockModel>,
    j: int,
    k: int,
    addrj: u32,
    lenj: u32,
    addrk: u32,
    lenk: u32,
)
    requires
        0 <= j < k < blocks.len(),
        spec_parse_prefix(blocks[j].prefix) == Some((addrj, lenj)),
        spec_parse_prefix(blocks[k].prefix) == Some((addrk, lenk)),
        (lenj <= lenk && matches_prefix(addrk, addrj, 0, lenj)) || (lenk <= lenj
            && matches_prefix(addrj, addrk, 0, lenk)),
    ensures
        spec_compile(regions, blocks) is Err,
{
    if lenj <= lenk && matches_prefix(addrk, addrj, 0, lenj) {
        let a = addrk;
        assert(matches_prefix(a, addrk, 0, lenk));
        lemma_overlap_helper(
            seq![TrieNode::Empty],
            regions,
            blocks,
            0,
            j,
            k,
            addrj,
            lenj,
            addrk,
            lenk,
            a,
        );
    } else {
        let a = addrj;
        assert(matches_prefix(a, addrj, 0, lenj));
        lemma_overlap_helper(
            seq![TrieNode::Empty],
            regions,
            blocks,
            0,
            j,
            k,
            addrj,
            lenj,
            addrk,
            lenk,
            a,
        );
    }
}

/// **Determinism**: compilation is a function of the two source tables
/// alone, so two artifacts built from the same tables are identical in every
/// part — same arena contents, same country table, same root.
pub proof fn lemma_compile_deterministic(
    regions: Seq<RegionModel>,
    blocks: Seq<BlockModel>,
    m1: ArtifactModel,
    m2: ArtifactModel,
)
    requires
        spec_compile(regions, blocks) is Ok,
        m1.nodes == spec_compile(regions, blocks)->Ok_0,
        m1.countries == spec_countries(regions),
        m1.root == 0,
        m2.nodes == spec_compile(regions, blocks)->Ok_0,
        m2.countries == spec_countries(regions),
        m2.root == 0,
    ensures
        m1.nodes == m2.nodes,
        m1.countries == m2.countries,
        m1.root == m2.root,
{
}

} // verus!

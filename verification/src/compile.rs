//! The offline trie compiler: consume an ordered region table and an ordered
//! list of network block records, build the node arena and the country table,
//! and package them as an immutable artifact.
//!
//! Region indexing walks the region records in order and gives each the index
//! of its position; that order is what makes artifacts reproducible.  A
//! block's region id column may be blank or unparsable, in which case the
//! secondary column and then a literal zero stand in; an id with no region
//! record maps the block to an out-of-range sentinel index, which every
//! lookup resolves to "no result".

use crate::artifact::{Artifact, ArtifactModel};
use crate::parse::{parse_ip, parse_u32_str, spec_parse_prefix, spec_parse_u32};
use crate::trie::{
    depth_inv, insert_val, lemma_depth_node_ok, lemma_insert_depths, lemma_insert_frame,
    spec_insert, Collision, TrieNode,
};
use vstd::prelude::*;

verus! {

/// One row of the region table: an external region identifier and the
/// country code stored for it.
pub struct RegionRecord {
    pub id: u32,
    pub country: String,
}

/// The mathematical shape of a [`RegionRecord`].
pub struct RegionModel {
    pub id: u32,
    pub country: Seq<char>,
}

impl View for RegionRecord {
    type V = RegionModel;

    open spec fn view(&self) -> RegionModel {
        RegionModel { id: self.id, country: self.country@ }
    }
}

impl DeepView for RegionRecord {
    type V = RegionModel;

    open spec fn deep_view(&self) -> RegionModel {
        self@
    }
}

/// One row of the block table: a CIDR prefix string and the primary and
/// secondary region id columns, either of which may be blank or unparsable.
pub struct BlockRecord {
    pub prefix: String,
    pub primary: String,
    pub secondary: String,
}

/// The mathematical shape of a [`BlockRecord`].
pub struct BlockModel {
    pub prefix: Seq<char>,
    pub primary: Seq<char>,
    pub secondary: Seq<char>,
}

impl View for BlockRecord {
    type V = BlockModel;

    open spec fn view(&self) -> BlockModel {
        BlockModel { prefix: self.prefix@, primary: self.primary@, secondary: self.secondary@ }
    }
}

impl DeepView for BlockRecord {
    type V = BlockModel;

    open spec fn deep_view(&self) -> BlockModel {
        self@
    }
}

/// Why a compilation was aborted.  Both failures are fatal and name the
/// offending block record.
#[derive(Clone, Copy, PartialEq, Eq, Structural, Debug)]
pub enum CompileError {
    /// The block's prefix string is not a well-formed CIDR prefix.
    BadPrefix { block: usize },
    /// The block's prefix claims a trie position that an earlier prefix
    /// already claimed: the dataset is not prefix-disjoint.  Carries the
    /// offending address and length, the region index the block would have
    /// stored, and what the position already held.
    Overlap { block: usize, address: u32, length: u32, region: u32, collision: Collision },
}

/// The country table: entry `i` holds the country code of the `i`-th region
/// record.
pub open spec fn spec_countries(regions: Seq<RegionModel>) -> Seq<Option<Seq<char>>> {
    Seq::new(regions.len(), |i: int| Some(regions[i].country))
}

/// The region index assigned to an external id: the position of the last
/// region record carrying that id, if any.
pub open spec fn spec_region_index(regions: Seq<RegionModel>, id: u32) -> Option<int>
    decreases regions.len(),
{
    if regions.len() == 0 {
        None
    } else if regions.last().id == id {
        Some(regions.len() - 1)
    } else {
        spec_region_index(regions.drop_last(), id)
    }
}

pub proof fn lemma_region_index_bound(regions: Seq<RegionModel>, id: u32)
    ensures
        match spec_region_index(regions, id) {
            Some(i) => 0 <= i < regions.len(),
            None => true,
        },
    decreases regions.len(),
{
    if regions.len() > 0 && regions.last().id != id {
        lemma_region_index_bound(regions.drop_last(), id);
    }
}

/// The external region id a block resolves to: the primary column if it
/// parses as an integer, else the secondary column, else a literal zero.
pub open spec fn spec_resolved_id(b: BlockModel) -> u32 {
    match spec_parse_u32(b.primary) {
        Some(v) => v,
        None => match spec_parse_u32(b.secondary) {
            Some(v) => v,
            None => 0u32,
        },
    }
}

/// The region index a block is compiled with: the table index of its
/// resolved id, or the out-of-range sentinel for an id that no region record
/// carries.
pub open spec fn spec_block_region(regions: Seq<RegionModel>, b: BlockModel) -> u32 {
    match spec_region_index(regions, spec_resolved_id(b)) {
        Some(i) => i as u32,
        None => 0xFFFF_FFFFu32,
    }
}

/// The fold of insertions that compilation performs, starting from block `i`
/// with the arena `nodes`: the finished arena, or the error that aborts the
/// build at the first bad or overlapping block.
pub open spec fn spec_build(
    nodes: Seq<TrieNode>,
    regions: Seq<RegionModel>,
    blocks: Seq<BlockModel>,
    i: int,
) -> Result<Seq<TrieNode>, CompileError>
    decreases blocks.len() - i,
{
    if i < 0 || i >= blocks.len() {
        Ok(nodes)
    } else {
        match spec_parse_prefix(blocks[i].prefix) {
            None => Err(CompileError::BadPrefix { block: i as usize }),
            Some(pl) => match spec_insert(
                nodes,
                0,
                0u32,
                pl.0,
                pl.1,
                spec_block_region(regions, blocks[i]),
            ) {
                Ok(n2) => spec_build(n2, regions, blocks, i + 1),
                Err(c) => Err(
                    CompileError::Overlap {
                        block: i as usize,
                        address: pl.0,
                        length: pl.1,
                        region: spec_block_region(regions, blocks[i]),
                        collision: c,
                    },
                ),
            },
        }
    }
}

/// The arena a dataset compiles to, or the error that aborts the build: the
/// whole compilation as a function of the two source tables.
pub open spec fn spec_compile(regions: Seq<RegionModel>, blocks: Seq<BlockModel>) -> Result<
    Seq<TrieNode>,
    CompileError,
> {
    spec_build(seq![TrieNode::Empty], regions, blocks, 0)
}

fn region_index(regions: &Vec<RegionRecord>, id: u32) -> (r: Option<usize>)
    ensures
        match spec_region_index(regions.deep_view(), id) {
            Some(i) => r == Some(i as usize),
            None => r is None,
        },
{
    let ghost dv = regions.deep_view();
    proof {
        assert(dv.len() == regions@.len());
    }
    let mut found: Option<usize> = None;
    let mut i: usize = 0;
    while i < regions.len()
        invariant
            i <= regions.len(),
            dv == regions.deep_view(),
            dv.len() == regions@.len(),
            match spec_region_index(dv.take(i as int), id) {
                Some(j) => found == Some(j as usize),
                None => found is None,
            },
        decreases regions.len() - i,
    {
        proof {
            let pre = dv.take(i as int);
            let post = dv.take(i + 1);
            assert(post.drop_last() =~= pre);
            assert(post.last() == dv[i as int]);
            assert(dv[i as int] == regions@[i as int].deep_view());
        }
        if regions[i].id == id {
            found = Some(i);
        }
        i += 1;
    }
    proof {
        assert(dv.take(i as int) =~= dv);
    }
    found
}

fn block_region(regions: &Vec<RegionRecord>, block: &BlockRecord) -> (r: u32)
    requires
        regions.len() < 0xFFFF_FFFF,
    ensures
        r == spec_block_region(regions.deep_view(), block.deep_view()),
{
    let id = match parse_u32_str(block.primary.as_str()) {
        Some(v) => v,
        None => match parse_u32_str(block.secondary.as_str()) {
            Some(v) => v,
            None => 0,
        },
    };
    proof {
        assert(id == spec_resolved_id(block.deep_view()));
        lemma_region_index_bound(regions.deep_view(), id);
    }
    match region_index(regions, id) {
        Some(i) => i as u32,
        None => 0xFFFF_FFFF,
    }
}

/// Compile the two source tables into an artifact: assign each region record
/// the index of its position and store its country code there; then insert
/// every block's prefix, in source order, mapped to the region index its id
/// column resolves to.  The first malformed prefix or overlapping block
/// aborts the build with the matching error; a disjoint, well-formed dataset
/// yields the artifact that `spec_compile` describes, well-formed for lookup.
pub fn compile(regions: &Vec<RegionRecord>, blocks: &Vec<BlockRecord>) -> (r: Result<
    Artifact,
    CompileError,
>)
    requires
        regions.len() < 0xFFFF_FFFF,
    ensures
        match spec_compile(regions.deep_view(), blocks.deep_view()) {
            Ok(nodes) => {
                &&& r is Ok
                &&& r->Ok_0@.nodes == nodes
                &&& r->Ok_0@.countries == spec_countries(regions.deep_view())
                &&& r->Ok_0@.root == 0
                &&& r->Ok_0.wf()
            },
            Err(e) => r == Err::<Artifact, CompileError>(e),
        },
{
    let ghost rdv = regions.deep_view();
    let ghost bdv = blocks.deep_view();
    proof {
        assert(rdv.len() == regions@.len());
        assert(bdv.len() == blocks@.len());
    }

    let mut countries: Vec<Option<String>> = Vec::new();
    let mut i: usize = 0;
    while i < regions.len()
        invariant
            i <= regions.len(),
            countries@.len() == i as int,
            forall|j: int| 0 <= j < i ==> countries@[j] == Some(regions@[j].country),
        decreases regions.len() - i,
    {
        countries.push(Some(regions[i].country.clone()));
        i += 1;
    }
    proof {
        assert(countries.deep_view() =~= spec_countries(rdv)) by {
            assert(countries.deep_view().len() == spec_countries(rdv).len());
            assert forall|j: int| 0 <= j < countries@.len() implies countries.deep_view()[j]
                == spec_countries(rdv)[j] by {
                assert(countries@[j] == Some(regions@[j].country));
                assert(countries.deep_view()[j] == countries@[j].deep_view());
                assert(rdv[j] == regions@[j].deep_view());
            }
        }
    }

    let mut nodes: Vec<TrieNode> = Vec::new();
    nodes.push(TrieNode::Empty);
    let ghost mut dm: Map<int, int> = Map::empty().insert(0, 0);
    proof {
        assert(nodes@ =~= seq![TrieNode::Empty]);
        assert(depth_inv(nodes@, dm));
    }
    let mut b: usize = 0;
    while b < blocks.len()
        invariant
            b <= blocks.len(),
            rdv == regions.deep_view(),
            bdv == blocks.deep_view(),
            rdv.len() == regions@.len(),
            bdv.len() == blocks@.len(),
            regions.len() < 0xFFFF_FFFF,
            countries.deep_view() == spec_countries(rdv),
            nodes@.len() >= 1,
            depth_inv(nodes@, dm),
            dm.dom().contains(0),
            dm[0] == 0,
            spec_build(nodes@, rdv, bdv, b as int) == spec_compile(rdv, bdv),
        decreases blocks.len() - b,
    {
        let block = &blocks[b];
        proof {
            assert(bdv[b as int] == blocks@[b as int].deep_view());
        }
        match parse_ip(block.prefix.as_str()) {
            Err(_) => {
                proof {
                    assert(spec_build(nodes@, rdv, bdv, b as int) == Err::<
                        Seq<TrieNode>,
                        CompileError,
                    >(CompileError::BadPrefix { block: b }));
                }
                return Err(CompileError::BadPrefix { block: b });
            },
            Ok(pair) => {
                let addr = pair.0;
                let len = pair.1;
                let region = block_region(regions, block);
                let ghost pre = nodes@;
                match insert_val(&mut nodes, 0, 0, addr, len, region) {
                    Err(c) => {
                        proof {
                            assert(spec_build(pre, rdv, bdv, b as int) == Err::<
                                Seq<TrieNode>,
                                CompileError,
                            >(
                                CompileError::Overlap {
                                    block: b,
                                    address: addr,
                                    length: len,
                                    region,
                                    collision: c,
                                },
                            ));
                        }
                        return Err(
                            CompileError::Overlap {
                                block: b,
                                address: addr,
                                length: len,
                                region,
                                collision: c,
                            },
                        );
                    },
                    Ok(_) => {
                        proof {
                            assert(spec_insert(pre, 0, 0u32, addr, len, region) == Ok::<
                                Seq<TrieNode>,
                                Collision,
                            >(nodes@));
                            lemma_insert_frame(pre, 0, 0u32, addr, len, region);
                            dm = lemma_insert_depths(pre, dm, 0, 0u32, addr, len, region);
                            assert(spec_build(nodes@, rdv, bdv, b + 1) == spec_build(
                                pre,
                                rdv,
                                bdv,
                                b as int,
                            ));
                        }
                    },
                }
            },
        }
        b += 1;
    }
    proof {
        assert(spec_build(nodes@, rdv, bdv, b as int) == Ok::<Seq<TrieNode>, CompileError>(
            nodes@,
        ));
        lemma_depth_node_ok(nodes@, dm, 0, 0);
    }
    Ok(Artifact::new(nodes, countries))
}

} // verus!

//! The binary trie over the 32-bit address space, stored as a flat node
//! arena, and the insertion algorithm that the compiler runs once per
//! network block.
//!
//! Nodes are addressed by arena index; index 0 is the root.  A `Branch`'s two
//! children are always allocated together at the end of the arena, an index is
//! never reused, and a node that has become a `Leaf` is never mutated again.
//! Insertion descends most-significant-bit first: at depth `d` it inspects bit
//! `31 - d` of the address.

use vstd::prelude::*;

verus! {

/// One node of the arena-stored binary trie.
#[derive(Clone, Copy, PartialEq, Eq, Structural, Debug)]
pub enum TrieNode {
    /// No value or children yet.
    Empty,
    /// A two-child split: arena indices of the 0-bit and the 1-bit child.
    Branch(usize, usize),
    /// A terminal value: the region index the enclosing prefix maps to.
    Leaf(u32),
}

/// What an insertion collided with when it found the trie position for its
/// prefix already claimed: an existing leaf (carrying that leaf's region
/// index) or an existing branch.
#[derive(Clone, Copy, PartialEq, Eq, Structural, Debug)]
pub enum Collision {
    WithLeaf(u32),
    WithBranch,
}

/// Bit `k` of `x`, counting from the least significant bit.
pub open spec fn nth_bit(x: u32, k: u32) -> bool
    recommends
        k < 32,
{
    (x >> k) & 1 == 1
}

/// The bit that insertion and lookup branch on at depth `depth`:
/// most-significant-bit-first order, so bit `31 - depth`.
pub open spec fn prefix_bit(addr: u32, depth: u32) -> bool
    recommends
        depth < 32,
{
    nth_bit(addr, (31 - depth) as u32)
}

/// Addresses `a` and `p` agree on the branching bits of depths
/// `depth ..= len - 1`, that is on bit positions `32 - len ..= 31 - depth`.
/// With `depth == 0` this says `a` lies inside the CIDR block `p/len`.
pub open spec fn matches_prefix(a: u32, p: u32, depth: u32, len: u32) -> bool
    recommends
        depth <= len <= 32,
{
    forall|k: u32| 32 - len <= k < 32 - depth ==> nth_bit(a, k) == nth_bit(p, k)
}

/// The region index the trie rooted at arena index `i` associates with
/// `addr`, descending by the branching bit of each depth starting at `depth`.
/// An `Empty` node, a dangling index and a branch chain deeper than the
/// address width all give `None`.
pub open spec fn trie_get(nodes: Seq<TrieNode>, i: int, addr: u32, depth: u32) -> Option<u32>
    decreases 32 - depth,
{
    if i < 0 || i >= nodes.len() || depth > 32 {
        None
    } else {
        match nodes[i] {
            TrieNode::Empty => None,
            TrieNode::Leaf(ri) => Some(ri),
            TrieNode::Branch(l, r) => if depth == 32 {
                None
            } else if prefix_bit(addr, depth) {
                trie_get(nodes, r as int, addr, (depth + 1) as u32)
            } else {
                trie_get(nodes, l as int, addr, (depth + 1) as u32)
            },
        }
    }
}

/// Arena index `i` is in range and every chain of branches under it ends
/// within `fuel` steps.  `node_ok(nodes, root, 32)` is the well-formedness
/// that a compiled artifact guarantees: no lookup can descend more than 32
/// times.
pub open spec fn node_ok(nodes: Seq<TrieNode>, i: int, fuel: int) -> bool
    decreases fuel,
{
    &&& 0 <= i < nodes.len()
    &&& match nodes[i] {
        TrieNode::Branch(l, r) => fuel >= 1 && node_ok(nodes, l as int, fuel - 1) && node_ok(
            nodes,
            r as int,
            fuel - 1,
        ),
        _ => true,
    }
}

/// The meaning of one insertion of `addr/len -> region` into the arena,
/// descending from node `n` at depth `depth`: either the grown arena, or the
/// `Collision` that makes the dataset overlapping.
///
/// Arguments outside the insertion algorithm's reach (a dangling index, a
/// depth past the prefix length, an arena that cannot grow by a node pair)
/// are mapped to a branch collision; the executable insertion is never called
/// on them.
pub open spec fn spec_insert(
    nodes: Seq<TrieNode>,
    n: int,
    depth: u32,
    addr: u32,
    len: u32,
    region: u32,
) -> Result<Seq<TrieNode>, Collision>
    decreases len - depth,
{
    if n < 0 || n >= nodes.len() || len > 32 || depth > len {
        Err(Collision::WithBranch)
    } else if depth == len {
        match nodes[n] {
            TrieNode::Empty => Ok(nodes.update(n, TrieNode::Leaf(region))),
            TrieNode::Leaf(v) => Err(Collision::WithLeaf(v)),
            TrieNode::Branch(_, _) => Err(Collision::WithBranch),
        }
    } else {
        match nodes[n] {
            TrieNode::Leaf(v) => Err(Collision::WithLeaf(v)),
            TrieNode::Branch(l, r) => if prefix_bit(addr, depth) {
                spec_insert(nodes, r as int, (depth + 1) as u32, addr, len, region)
            } else {
                spec_insert(nodes, l as int, (depth + 1) as u32, addr, len, region)
            },
            TrieNode::Empty => if nodes.len() + 2 > usize::MAX {
                Err(Collision::WithBranch)
            } else {
                let c0 = nodes.len() as usize;
                let c1 = (nodes.len() + 1) as usize;
                let grown = nodes.push(TrieNode::Empty).push(TrieNode::Empty).update(
                    n,
                    TrieNode::Branch(c0, c1),
                );
                if prefix_bit(addr, depth) {
                    spec_insert(grown, c1 as int, (depth + 1) as u32, addr, len, region)
                } else {
                    spec_insert(grown, c0 as int, (depth + 1) as u32, addr, len, region)
                }
            },
        }
    }
}

/// A successful insertion only grows the arena and only rewrites nodes that
/// were `Empty`; every `Branch` and every `Leaf` keeps its place and value.
pub proof fn lemma_insert_frame(
    nodes: Seq<TrieNode>,
    n: int,
    depth: u32,
    addr: u32,
    len: u32,
    region: u32,
)
    requires
        spec_insert(nodes, n, depth, addr, len, region) is Ok,
    ensures
        spec_insert(nodes, n, depth, addr, len, region)->Ok_0.len() >= nodes.len(),
        forall|j: int|
            0 <= j < nodes.len() && nodes[j] != TrieNode::Empty ==> spec_insert(
                nodes,
                n,
                depth,
                addr,
                len,
                region,
            )->Ok_0[j] == nodes[j],
    decreases len - depth,
{
    let new = spec_insert(nodes, n, depth, addr, len, region)->Ok_0;
    if depth == len {
    } else {
        match nodes[n] {
            TrieNode::Leaf(_) => {},
            TrieNode::Branch(l, r) => {
                let c = if prefix_bit(addr, depth) {
                    r as int
                } else {
                    l as int
                };
                lemma_insert_frame(nodes, c, (depth + 1) as u32, addr, len, region);
            },
            TrieNode::Empty => {
                let c0 = nodes.len() as usize;
                let c1 = (nodes.len() + 1) as usize;
                let grown = nodes.push(TrieNode::Empty).push(TrieNode::Empty).update(
                    n,
                    TrieNode::Branch(c0, c1),
                );
                let c = if prefix_bit(addr, depth) {
                    c1 as int
                } else {
                    c0 as int
                };
                lemma_insert_frame(grown, c, (depth + 1) as u32, addr, len, region);
                assert forall|j: int| 0 <= j < nodes.len() && nodes[j] != TrieNode::Empty implies new[j]
                    == nodes[j] by {
                    assert(grown[j] == nodes[j]);
                }
            },
        }
    }
}

/// Any association the trie already makes survives an arena change that keeps
/// every non-`Empty` node in place, as a successful insertion does.
pub proof fn lemma_get_preserved(
    nodes: Seq<TrieNode>,
    new: Seq<TrieNode>,
    i: int,
    a: u32,
    depth: u32,
    v: u32,
)
    requires
        new.len() >= nodes.len(),
        forall|j: int| 0 <= j < nodes.len() && nodes[j] != TrieNode::Empty ==> new[j] == nodes[j],
        trie_get(nodes, i, a, depth) == Some(v),
    ensures
        trie_get(new, i, a, depth) == Some(v),
    decreases 32 - depth,
{
    match nodes[i] {
        TrieNode::Leaf(_) => {},
        TrieNode::Branch(l, r) => {
            let c = if prefix_bit(a, depth) {
                r as int
            } else {
                l as int
            };
            lemma_get_preserved(nodes, new, c, a, (depth + 1) as u32, v);
        },
        TrieNode::Empty => {},
    }
}

/// What a successful insertion means for lookups: every address inside the
/// inserted prefix was associated with nothing before and is associated with
/// exactly the inserted region afterwards.
pub proof fn lemma_insert_get(
    nodes: Seq<TrieNode>,
    n: int,
    depth: u32,
    addr: u32,
    len: u32,
    region: u32,
    a: u32,
)
    requires
        spec_insert(nodes, n, depth, addr, len, region) is Ok,
        matches_prefix(a, addr, depth, len),
    ensures
        trie_get(spec_insert(nodes, n, depth, addr, len, region)->Ok_0, n, a, depth) == Some(
            region,
        ),
        trie_get(nodes, n, a, depth) == None::<u32>,
    decreases len - depth,
{
    let new = spec_insert(nodes, n, depth, addr, len, region)->Ok_0;
    if depth == len {
    } else {
        let k0 = (31 - depth) as u32;
        assert(32 - len <= k0 < 32 - depth);
        assert(nth_bit(a, k0) == nth_bit(addr, k0));
        match nodes[n] {
            TrieNode::Leaf(_) => {},
            TrieNode::Branch(l, r) => {
                let c = if prefix_bit(addr, depth) {
                    r as int
                } else {
                    l as int
                };
                lemma_insert_get(nodes, c, (depth + 1) as u32, addr, len, region, a);
                lemma_insert_frame(nodes, c, (depth + 1) as u32, addr, len, region);
            },
            TrieNode::Empty => {
                let c0 = nodes.len() as usize;
                let c1 = (nodes.len() + 1) as usize;
                let grown = nodes.push(TrieNode::Empty).push(TrieNode::Empty).update(
                    n,
                    TrieNode::Branch(c0, c1),
                );
                let c = if prefix_bit(addr, depth) {
                    c1 as int
                } else {
                    c0 as int
                };
                lemma_insert_get(grown, c, (depth + 1) as u32, addr, len, region, a);
                lemma_insert_frame(grown, c, (depth + 1) as u32, addr, len, region);
                assert(grown[n] == TrieNode::Branch(c0, c1));
                assert(new[n] == TrieNode::Branch(c0, c1));
            },
        }
    }
}

/// A ghost record of the depth at which each arena node sits: the root at 0,
/// each branch strictly above depth 32, and each child one deeper than its
/// parent.  The compiler carries such a map while it builds the arena; it is
/// what makes the depth bound of `node_ok` provable.
pub open spec fn depth_inv(nodes: Seq<TrieNode>, dm: Map<int, int>) -> bool {
    forall|j: int|
        #![trigger nodes[j]]
        #![trigger dm.dom().contains(j)]
        0 <= j < nodes.len() ==> {
            &&& dm.dom().contains(j)
            &&& 0 <= dm[j]
            &&& match nodes[j] {
                TrieNode::Branch(l, r) => {
                    &&& (l as int) < nodes.len()
                    &&& (r as int) < nodes.len()
                    &&& dm[l as int] == dm[j] + 1
                    &&& dm[r as int] == dm[j] + 1
                    &&& dm[j] < 32
                },
                _ => true,
            }
        }
}

/// A node whose ghost depth is `d` heads a subtree whose branch chains end
/// within `32 - d` steps.
pub proof fn lemma_depth_node_ok(nodes: Seq<TrieNode>, dm: Map<int, int>, i: int, d: int)
    requires
        depth_inv(nodes, dm),
        0 <= i < nodes.len(),
        dm[i] == d,
        d <= 32,
    ensures
        node_ok(nodes, i, 32 - d),
    decreases 32 - d,
{
    match nodes[i] {
        TrieNode::Branch(l, r) => {
            lemma_depth_node_ok(nodes, dm, l as int, d + 1);
            lemma_depth_node_ok(nodes, dm, r as int, d + 1);
        },
        _ => {},
    }
}

/// A successful insertion at a node of ghost depth `depth` keeps the depth
/// record consistent: the two nodes of each fresh branch pair sit one deeper
/// than the `Empty` node they split, and no recorded depth changes.
pub proof fn lemma_insert_depths(
    nodes: Seq<TrieNode>,
    dm: Map<int, int>,
    n: int,
    depth: u32,
    addr: u32,
    len: u32,
    region: u32,
) -> (dm2: Map<int, int>)
    requires
        depth_inv(nodes, dm),
        spec_insert(nodes, n, depth, addr, len, region) is Ok,
        0 <= n < nodes.len(),
        dm[n] == depth,
    ensures
        depth_inv(spec_insert(nodes, n, depth, addr, len, region)->Ok_0, dm2),
        forall|j: int| 0 <= j < nodes.len() ==> #[trigger] dm2.dom().contains(j),
        forall|j: int| 0 <= j < nodes.len() ==> #[trigger] dm2[j] == dm[j],
    decreases len - depth,
{
    let new = spec_insert(nodes, n, depth, addr, len, region)->Ok_0;
    if depth == len {
        assert(depth_inv(new, dm)) by {
            assert forall|j: int| 0 <= j < new.len() implies {
                &&& dm.dom().contains(j)
                &&& 0 <= dm[j]
                &&& match new[j] {
                    TrieNode::Branch(l, r) => {
                        &&& (l as int) < new.len()
                        &&& (r as int) < new.len()
                        &&& dm[l as int] == dm[j] + 1
                        &&& dm[r as int] == dm[j] + 1
                        &&& dm[j] < 32
                    },
                    _ => true,
                }
            } by {
                assert(nodes[j] is Empty || new[j] == nodes[j]);
            }
        }
        dm
    } else {
        match nodes[n] {
            TrieNode::Branch(l, r) => {
                let c = if prefix_bit(addr, depth) {
                    r as int
                } else {
                    l as int
                };
                lemma_insert_depths(nodes, dm, c, (depth + 1) as u32, addr, len, region)
            },
            TrieNode::Empty => {
                let c0 = nodes.len() as usize;
                let c1 = (nodes.len() + 1) as usize;
                let grown = nodes.push(TrieNode::Empty).push(TrieNode::Empty).update(
                    n,
                    TrieNode::Branch(c0, c1),
                );
                let dm1 = dm.insert(c0 as int, depth + 1).insert(c1 as int, depth + 1);
                assert(depth_inv(grown, dm1)) by {
                    assert forall|j: int| 0 <= j < grown.len() implies {
                        &&& dm1.dom().contains(j)
                        &&& 0 <= dm1[j]
                        &&& match grown[j] {
                            TrieNode::Branch(l, r) => {
                                &&& (l as int) < grown.len()
                                &&& (r as int) < grown.len()
                                &&& dm1[l as int] == dm1[j] + 1
                                &&& dm1[r as int] == dm1[j] + 1
                                &&& dm1[j] < 32
                            },
                            _ => true,
                        }
                    } by {
                        if j < nodes.len() && j != n {
                            assert(grown[j] == nodes[j]);
                        }
                    }
                }
                let c = if prefix_bit(addr, depth) {
                    c1 as int
                } else {
                    c0 as int
                };
                assert(nodes.len() + 2 <= usize::MAX) by {
                    if nodes.len() + 2 > usize::MAX {
                        assert(spec_insert(nodes, n, depth, addr, len, region) is Err);
                    }
                }
                let dm2 = lemma_insert_depths(grown, dm1, c, (depth + 1) as u32, addr, len, region);
                assert forall|j: int| 0 <= j < nodes.len() implies #[trigger] dm2[j] == dm[j] by {
                    assert(dm2[j] == dm1[j]);
                    assert(j != c0 as int && j != c1 as int);
                }
                assert forall|j: int| 0 <= j < nodes.len() implies #[trigger] dm2.dom().contains(
                    j,
                ) by {
                    assert(dm2.dom().contains(j));
                }
                dm2
            },
            TrieNode::Leaf(_) => dm,
        }
    }
}

proof fn lemma_bit_test(addr: u32, depth: u32)
    requires
        depth < 32,
    ensures
        ((addr & (1u32 << ((31 - depth) as u32))) != 0) == nth_bit(addr, (31 - depth) as u32),
{
    let k = (31 - depth) as u32;
    assert(((addr & (1u32 << k)) != 0) == ((addr >> k) & 1 == 1)) by (bit_vector)
        requires
            k < 32,
    ;
}

/// Insert the prefix `addr/len`, mapped to region index `region`, into the
/// arena, descending from node `n` at depth `depth`.  Splits every `Empty`
/// node on the way into a fresh branch pair, places a `Leaf` at depth `len`,
/// and reports a `Collision` if the trie position is already claimed.
pub fn insert_val(
    list: &mut Vec<TrieNode>,
    n: usize,
    depth: u32,
    addr: u32,
    len: u32,
    region: u32,
) -> (r: Result<(), Collision>)
    requires
        n < old(list).len(),
        len <= 32,
        depth <= len,
    ensures
        match spec_insert(old(list)@, n as int, depth, addr, len, region) {
            Ok(s) => r is Ok && final(list)@ == s,
            Err(c) => r == Err::<(), Collision>(c),
        },
    decreases len - depth,
{
    if depth == len {
        match list[n] {
            TrieNode::Empty => {
                list[n] = TrieNode::Leaf(region);
                Ok(())
            },
            TrieNode::Leaf(v) => Err(Collision::WithLeaf(v)),
            TrieNode::Branch(_, _) => Err(Collision::WithBranch),
        }
    } else {
        match list[n] {
            TrieNode::Leaf(v) => Err(Collision::WithLeaf(v)),
            TrieNode::Branch(l, r) => {
                proof {
                    lemma_bit_test(addr, depth);
                }
                let child: usize = if (addr & (1u32 << (31 - depth))) != 0 {
                    r
                } else {
                    l
                };
                if child < list.len() {
                    insert_val(list, child, depth + 1, addr, len, region)
                } else {
                    proof {
                        assert(spec_insert(list@, child as int, (depth + 1) as u32, addr, len, region)
                            == Err::<Seq<TrieNode>, Collision>(Collision::WithBranch));
                    }
                    Err(Collision::WithBranch)
                }
            },
            TrieNode::Empty => {
                let c0 = list.len();
                list.push(TrieNode::Empty);
                let c1 = list.len();
                list.push(TrieNode::Empty);
                let grown_len = list.len();
                list[n] = TrieNode::Branch(c0, c1);
                proof {
                    assert(grown_len == c0 + 2);
                    assert(list@ =~= old(list)@.push(TrieNode::Empty).push(TrieNode::Empty).update(
                        n as int,
                        TrieNode::Branch(c0, c1),
                    ));
                    lemma_bit_test(addr, depth);
                }
                let child: usize = if (addr & (1u32 << (31 - depth))) != 0 {
                    c1
                } else {
                    c0
                };
                insert_val(list, child, depth + 1, addr, len, region)
            },
        }
    }
}

} // verus!

//! The lookup engine: walk the compiled arena one address bit at a time and
//! return the country code at the terminal leaf, or nothing.
//!
//! The arena is built most-significant-bit first, but the walker consumes its
//! working value least-significant-bit first after reversing the bit order of
//! the 32-bit address once at the start; the two descents visit the same
//! nodes.  The walk is bounded by a fixed depth; for a well-formed artifact
//! the bound is proved unreachable.

use crate::artifact::{country_for, spec_lookup, Artifact};
use crate::trie::{node_ok, nth_bit, trie_get, TrieNode};
use vstd::prelude::*;

verus! {

/// The defensive failure of the lookup walk: the fixed depth bound was
/// exceeded, which signals a malformed or cyclic artifact, not bad input.
/// Looking up through a well-formed artifact can never produce it.
#[derive(Clone, Copy, PartialEq, Eq, Structural, Debug)]
pub enum LookupError {
    DepthBound,
}

/// Relies on `bit_reverse::ParallelReverse::swap_bits` for `u32`: the
/// returned word holds the 32 bits of the argument in reversed order.
#[verifier::external_body]
fn reverse_bits(x: u32) -> (r: u32)
    ensures
        forall|k: u32| k < 32 ==> nth_bit(r, k) == nth_bit(x, (31 - k) as u32),
{
    bit_reverse::ParallelReverse::swap_bits(x)
}

/// One walk through the arena from node `n` at depth `depth`, consuming the
/// working value `w` least-significant-bit first.  `w` carries the remaining
/// bits of the bit-reversed original address `orig`, so the walk descends
/// exactly as the most-significant-bit-first insertion of `orig` did.  The
/// depth bound of 64 leaves the bit-reversal framing a margin over the 32
/// address bits; for a well-formed artifact it is proved unreachable.
pub fn lookup_ip_impl(
    a: &Artifact,
    n: usize,
    w: u32,
    depth: u32,
    Ghost(orig): Ghost<u32>,
) -> (r: Result<Option<String>, LookupError>)
    requires
        depth <= 32,
        node_ok(a@.nodes, n as int, 32 - depth),
        forall|k: u32| k < 32 - depth ==> nth_bit(w, k) == nth_bit(orig, (31 - depth - k) as u32),
    ensures
        r is Ok,
        r->Ok_0.deep_view() == country_for(a@, trie_get(a@.nodes, n as int, orig, depth)),
    decreases 32 - depth,
{
    if depth > 64 {
        return Err(LookupError::DepthBound);
    }
    match a.node_at(n) {
        TrieNode::Empty => Ok(None),
        TrieNode::Leaf(ri) => {
            let idx = ri as usize;
            if idx < a.country_count() {
                Ok(a.country_at(idx))
            } else {
                Ok(None)
            }
        },
        TrieNode::Branch(l, r) => {
            proof {
                assert(nth_bit(w, 0) == nth_bit(orig, (31 - depth) as u32));
                assert(((w & 1) == 1) == nth_bit(w, 0)) by (bit_vector);
                assert forall|k: u32| k < 32 - (depth + 1) implies nth_bit(w >> 1, k) == nth_bit(
                    orig,
                    (31 - (depth + 1) - k) as u32,
                ) by {
                    assert(nth_bit(w >> 1, k) == nth_bit(w, (k + 1) as u32)) by (bit_vector)
                        requires
                            k < 31,
                    ;
                    assert(nth_bit(w, (k + 1) as u32) == nth_bit(
                        orig,
                        (31 - depth - (k + 1)) as u32,
                    ));
                }
            }
            let child: usize = if (w & 1) == 1 {
                r
            } else {
                l
            };
            lookup_ip_impl(a, child, w >> 1, depth + 1, Ghost(orig))
        },
    }
}

/// Look up the country code for an IPv4 address (given in network byte
/// order, most significant octet in the high-order byte), if one exists in
/// the compiled artifact.
pub fn lookup_ip(a: &Artifact, addr: u32) -> (r: Option<String>)
    requires
        a.wf(),
    ensures
        r.deep_view() == spec_lookup(a@, addr),
{
    let w = reverse_bits(addr);
    let root = a.root_index();
    proof {
        assert forall|k: u32| k < 32 - 0 implies nth_bit(w, k) == nth_bit(
            addr,
            (31 - 0 - k) as u32,
        ) by {
            assert(nth_bit(w, k) == nth_bit(addr, (31 - k) as u32));
        }
    }
    match lookup_ip_impl(a, root, w, 0, Ghost(addr)) {
        Ok(v) => v,
        // unreachable: the walk through a well-formed artifact never reaches
        // the depth bound
        Err(_) => None,
    }
}

} // verus!

//! Static geolocation of IPv4 addresses.
//!
//! The crate has two halves, used in build-then-query order:
//!
//! * an offline trie compiler that turns a flat list of (CIDR prefix, region)
//!   pairs and a region table into a compact, arena-indexed binary trie over
//!   the 32-bit address space, packaged with a country table as an immutable
//!   artifact; and
//! * a lookup engine that walks the arena one address bit at a time and
//!   returns the country code stored at the terminal leaf, or nothing.
//!
//! The dataset is assumed prefix-disjoint: an overlapping or duplicate prefix
//! is a fatal compilation error, never silently resolved.

pub mod artifact;
pub mod compile;
pub mod laws;
pub mod lookup;
pub mod parse;
pub mod trie;

pub use artifact::Artifact;
pub use compile::{compile, BlockRecord, CompileError, RegionRecord};
pub use parse::{parse_addr, parse_ip, ParseError};
pub use lookup::{lookup_ip, lookup_ip_impl, LookupError};
pub use trie::{insert_val, Collision, TrieNode};

//! A disjoint-set (union-find) structure over an arena of index-addressed
//! nodes, with union by rank, path splitting, a registry of subset
//! representatives, and a per-subset traversal chain that lets the members
//! of any subset be enumerated without scanning the whole arena.

mod forest;
mod laws;

pub use forest::DisjointSet;
pub use laws::lemma_find_root_idempotent;
pub use laws::lemma_union_by_any_member;
pub use laws::lemma_union_symmetric;

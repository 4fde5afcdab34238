//! A binary Merkle tree over a list of address strings.
//!
//! Each address is hashed into a lowercase hexadecimal digest; adjacent
//! digests are paired bottom-up into parent nodes until a single root
//! remains, and an inclusion proof (the ordered list of sibling digests
//! on the path from a leaf to the root) can be extracted for any hash
//! present in the tree.

pub mod hash;
pub mod proofs;
pub mod tree;

pub use hash::{hash_pair, leaf_hash};
pub use proofs::{build_proof, get_merkle_proof};
pub use tree::{build_merkle_tree, leaves_from_addresses, try_build_merkle_tree, MerkleNode};

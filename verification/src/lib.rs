//! An append-friendly Merkle tree over Pasta base-field elements, with
//! full-batch construction, single-leaf append, inclusion-path extraction,
//! and a Poseidon sponge as the hash primitive.

pub mod field;
pub mod hash;
pub mod laws;
pub mod tree;

use vstd::prelude::*;

verus! {

/// Type of sparse Merkle proof to generate.
#[derive(Clone, Copy, Debug, PartialEq, Eq, Structural)]
pub enum SparseMerkleProof {
    /// Prove that a key does NOT exist (for safe insertion).
    Insertion,
    /// Prove that a key exists and can be mutated.
    Mutation,
    /// Prove that a key exists and can be deleted.
    Deletion,
    /// Prove that a key exists.
    Existence,
}

impl SparseMerkleProof {
    /// The numeric code of the proof type.
    pub fn code(&self) -> (c: u8)
        ensures
            c == match self {
                SparseMerkleProof::Insertion => 1u8,
                SparseMerkleProof::Mutation => 2u8,
                SparseMerkleProof::Deletion => 3u8,
                SparseMerkleProof::Existence => 4u8,
            },
    {
        match self {
            SparseMerkleProof::Insertion => 1,
            SparseMerkleProof::Mutation => 2,
            SparseMerkleProof::Deletion => 3,
            SparseMerkleProof::Existence => 4,
        }
    }
}

} // verus!

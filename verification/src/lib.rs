pub mod cid_utils;
pub mod codec;
pub mod diff;
pub mod encryption;
pub mod error;
pub mod merkle;
pub mod sparse_proof;
pub mod query;
pub mod resolver;
pub mod storage;
pub mod text;
pub mod transform;

pub use diff::{CashewDiff, ModifiedEntry};
pub use encryption::{EncryptionInfo, EncryptionStrategy, KeyProvider};
pub use error::CashewError;
pub use merkle::array::MerkleArray;
pub use merkle::dictionary::MerkleDictionary;
pub use merkle::header::Header;
pub use merkle::radix_header::RadixHeader;
pub use merkle::radix_node::RadixNode;
pub use merkle::set::MerkleSet;
pub use query::expression::CashewExpression;
pub use query::parser::CashewParser;
pub use resolver::ResolutionStrategy;
pub use sparse_proof::SparseMerkleProof;
pub use storage::Storer;
pub use transform::Transform;

use vstd::prelude::*;
use crate::error::CashewError;

verus! {

/// Stores serialized node data by CID.
pub trait Storer: Send + Sync {
    fn store(&self, raw_cid: &str, data: &[u8]) -> Result<(), CashewError>;
}

} // verus!

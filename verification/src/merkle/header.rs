use vstd::prelude::*;
use crate::encryption::EncryptionInfo;
use crate::cid_utils::{cid_text, compute_cid_text};
use crate::error::CashewError;
use crate::merkle::array::MerkleArray;
use crate::merkle::dictionary::{dict_bytes, MerkleDictionary};
use crate::merkle::set::MerkleSet;
use crate::text::str_eq;
use crate::merkle::radix_node::{clone_opt_enc, opt_enc_view};

verus! {

/// A generic CID-linked reference to any node type.
///
/// Similar to `RadixHeader` but works with any node type, including
/// `MerkleDictionary`, `MerkleArray`, etc.
#[derive(Debug)]
pub struct Header<N> {
    pub raw_cid: String,
    pub node: Option<Box<N>>,
    pub encryption_info: Option<EncryptionInfo>,
}

impl<N> Header<N> {
    /// Creates a lazy reference (CID only).
    pub fn lazy(raw_cid: String) -> (r: Self)
        ensures
            r.raw_cid@ == raw_cid@,
            r.node is None,
            r.encryption_info is None,
    {
        Header { raw_cid, node: None, encryption_info: None }
    }

    /// Creates a header with all fields specified.
    pub fn new(raw_cid: String, node: Option<N>, encryption_info: Option<EncryptionInfo>) -> (r: Self)
        ensures
            r.raw_cid@ == raw_cid@,
            r.node == match node {
                Some(n) => Some(Box::new(n)),
                None => None::<Box<N>>,
            },
            opt_enc_view(r.encryption_info) == opt_enc_view(encryption_info),
    {
        let node = match node {
            Some(n) => Some(Box::new(n)),
            None => None,
        };
        Header { raw_cid, node, encryption_info }
    }

    /// Returns the loaded node, or `NodeNotAvailable` if the header is lazy.
    pub fn require_node(&self) -> (r: Result<&N, CashewError>)
        ensures
            match self.node {
                Some(b) => r == Ok::<&N, CashewError>(&*b),
                None => r == Err::<&N, CashewError>(CashewError::NodeNotAvailable),
            },
    {
        match &self.node {
            Some(b) => Ok(&**b),
            None => Err(CashewError::NodeNotAvailable),
        }
    }

    /// Returns a new header with the node stripped (lazy reference only).
    pub fn removing_node(&self) -> (r: Self)
        ensures
            r.raw_cid@ == self.raw_cid@,
            r.node is None,
            opt_enc_view(r.encryption_info) == opt_enc_view(self.encryption_info),
    {
        Header { raw_cid: self.raw_cid.clone(), node: None, encryption_info: clone_opt_enc(&self.encryption_info) }
    }
}

impl<N> PartialEq for Header<N> {
    /// Headers are equal when their CIDs are.
    fn eq(&self, other: &Self) -> (r: bool) {
        str_eq(self.raw_cid.as_str(), other.raw_cid.as_str())
    }
}

impl<N> Eq for Header<N> {}

impl<N> vstd::std_specs::cmp::PartialEqSpecImpl for Header<N> {
    open spec fn obeys_eq_spec() -> bool {
        true
    }

    open spec fn eq_spec(&self, other: &Self) -> bool {
        self.raw_cid@ == other.raw_cid@
    }
}

impl<N> Header<N> {
    /// The header's text form: its CID.
    pub fn display_string(&self) -> (r: String)
        ensures
            r@ == self.raw_cid@,
    {
        self.raw_cid.clone()
    }
}

impl Header<MerkleDictionary<String>> {
    /// Creates a header from a dictionary, computing its CID from the
    /// dictionary's serialized form.
    pub fn from_node(node: MerkleDictionary<String>) -> (r: Result<Self, CashewError>)
        ensures
            r matches Ok(h) && h.raw_cid@ == cid_text(dict_bytes(node@)) && h.node == Some(Box::new(node))
                && h.encryption_info is None,
    {
        let data = match node.to_data() {
            Ok(d) => d,
            Err(e) => return Err(e),
        };
        let cid = match compute_cid_text(data.as_slice()) {
            Ok(c) => c,
            Err(e) => return Err(e),
        };
        Ok(Header { raw_cid: cid, node: Some(Box::new(node)), encryption_info: None })
    }
}

impl Header<MerkleSet> {
    /// Creates a header from a set, computing its CID from the set's serialized form.
    pub fn from_node(node: MerkleSet) -> (r: Result<Self, CashewError>)
        ensures
            r matches Ok(h) && h.raw_cid@ == cid_text(dict_bytes(node@)) && h.node == Some(Box::new(node))
                && h.encryption_info is None,
    {
        let data = match node.to_data() {
            Ok(d) => d,
            Err(e) => return Err(e),
        };
        let cid = match compute_cid_text(data.as_slice()) {
            Ok(c) => c,
            Err(e) => return Err(e),
        };
        Ok(Header { raw_cid: cid, node: Some(Box::new(node)), encryption_info: None })
    }
}

impl Header<MerkleArray<String>> {
    /// Creates a header from an array, computing its CID from the array's
    /// serialized form.
    pub fn from_node(node: MerkleArray<String>) -> (r: Result<Self, CashewError>)
        ensures
            r matches Ok(h) && h.raw_cid@ == cid_text(dict_bytes(node@)) && h.node == Some(Box::new(node))
                && h.encryption_info is None,
    {
        let data = match node.to_data() {
            Ok(d) => d,
            Err(e) => return Err(e),
        };
        let cid = match compute_cid_text(data.as_slice()) {
            Ok(c) => c,
            Err(e) => return Err(e),
        };
        Ok(Header { raw_cid: cid, node: Some(Box::new(node)), encryption_info: None })
    }
}

} // verus!

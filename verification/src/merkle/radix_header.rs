use vstd::prelude::*;
use crate::cid_utils::compute_cid_text;
use crate::encryption::EncryptionInfo;
use crate::error::CashewError;
use crate::text::str_eq;
use crate::merkle::radix_node::{clone_link, clone_opt_enc, node_cid, opt_enc_view, RadixNode, TrieLink};

verus! {

/// A CID-linked reference to a `RadixNode`, supporting lazy resolution and encryption.
#[derive(Debug)]
pub struct RadixHeader<V> {
    pub raw_cid: String,
    pub node: Option<Box<RadixNode<V>>>,
    pub encryption_info: Option<EncryptionInfo>,
}

impl RadixHeader<String> {
    /// Creates a lazy reference (CID only, no loaded node).
    pub fn lazy(raw_cid: String) -> (r: Self)
        ensures
            r@ == (TrieLink { cid: raw_cid@, node: None, encryption: None }),
    {
        RadixHeader { raw_cid, node: None, encryption_info: None }
    }

    /// Creates a header from an already-loaded node; its CID is computed from the
    /// node's serialized form.
    pub fn from_node(node: RadixNode<String>) -> (r: Result<Self, CashewError>)
        ensures
            r matches Ok(h) && h@ == (TrieLink {
                cid: node_cid(node@),
                node: Some(Box::new(node@)),
                encryption: None,
            }),
    {
        let data = match node.to_data() {
            Ok(d) => d,
            Err(e) => return Err(e),
        };
        let cid = match compute_cid_text(data.as_slice()) {
            Ok(c) => c,
            Err(e) => return Err(e),
        };
        Ok(RadixHeader { raw_cid: cid, node: Some(Box::new(node)), encryption_info: None })
    }

    /// Creates a header with all fields specified.
    pub fn new(raw_cid: String, node: Option<RadixNode<String>>, encryption_info: Option<EncryptionInfo>) -> (r: Self)
        ensures
            r@ == (TrieLink {
                cid: raw_cid@,
                node: match node {
                    Some(n) => Some(Box::new(n@)),
                    None => None,
                },
                encryption: opt_enc_view(encryption_info),
            }),
    {
        let node = match node {
            Some(n) => Some(Box::new(n)),
            None => None,
        };
        RadixHeader { raw_cid, node, encryption_info }
    }

    /// Returns the loaded node, or `NodeNotAvailable` if the header is lazy.
    pub fn require_node(&self) -> (r: Result<&RadixNode<String>, CashewError>)
        ensures
            match self.node {
                Some(b) => r == Ok::<&RadixNode<String>, CashewError>(&*b),
                None => r == Err::<&RadixNode<String>, CashewError>(CashewError::NodeNotAvailable),
            },
    {
        match &self.node {
            Some(b) => Ok(&**b),
            None => Err(CashewError::NodeNotAvailable),
        }
    }

    /// Returns a new header with the node stripped (lazy reference only).
    pub fn removing_node(&self) -> (r: Self)
        ensures
            r@ == (TrieLink { cid: self@.cid, node: None, encryption: self@.encryption }),
    {
        RadixHeader {
            raw_cid: self.raw_cid.clone(),
            node: None,
            encryption_info: clone_opt_enc(&self.encryption_info),
        }
    }
}

impl Clone for RadixHeader<String> {
    fn clone(&self) -> (r: Self)
        ensures
            r@ == self@,
    {
        clone_link(self)
    }
}

impl PartialEq for RadixHeader<String> {
    /// Headers are equal when their CIDs are.
    fn eq(&self, other: &Self) -> (r: bool) {
        str_eq(self.raw_cid.as_str(), other.raw_cid.as_str())
    }
}

impl Eq for RadixHeader<String> {}

impl vstd::std_specs::cmp::PartialEqSpecImpl for RadixHeader<String> {
    open spec fn obeys_eq_spec() -> bool {
        true
    }

    open spec fn eq_spec(&self, other: &Self) -> bool {
        self.raw_cid@ == other.raw_cid@
    }
}

impl RadixHeader<String> {
    /// The header's text form: its CID.
    pub fn display_string(&self) -> (r: String)
        ensures
            r@ == self.raw_cid@,
    {
        self.raw_cid.clone()
    }
}

} // verus!

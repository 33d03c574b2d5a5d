//! Content identifiers: CIDv1 with the dag-json codec over a SHA-256 multihash.
use vstd::prelude::*;
use crate::error::CashewError;
use crate::encryption::sha256_digest;
use multihash_codetable::MultihashDigest;

verus! {

/// dag-json multicodec code.
pub const DAG_JSON: u64 = 0x0129;

/// Name for the bytes of the SHA-256 multihash of `data` (code, size, digest).
pub uninterp spec fn sha2_256_multihash(data: Seq<u8>) -> Seq<u8>;

/// Name for the text form (base32-lower multibase) of the CIDv1 with the given
/// codec and multihash bytes.
pub uninterp spec fn cid_v1_text(codec: u64, multihash: Seq<u8>) -> Seq<char>;

/// Name for what the text `text` parses to as a CID: its version, its codec and
/// the bytes of its multihash; `None` where the text is no CID.
pub uninterp spec fn cid_parsed(text: Seq<char>) -> Option<(u64, u64, Seq<u8>)>;

/// A CID as plain values: version, codec and multihash bytes.
#[derive(Clone, Debug, PartialEq, Eq)]
pub struct CidValue {
    pub version: u64,
    pub codec: u64,
    pub multihash: Vec<u8>,
}

/// The CID text that identifies the bytes `data`.
pub open spec fn cid_text(data: Seq<u8>) -> Seq<char> {
    cid_v1_text(DAG_JSON, sha2_256_multihash(data))
}

/// The SHA-256 multihash of `data`, as bytes.
///
/// Trusted: `multihash_codetable::Code::Sha2_256.digest` followed by `to_bytes`. The
/// result depends on `data` alone; its source writes the varint code 0x12, the varint
/// size 32 and the 32 digest bytes, which `sha2::Sha256` computes.
#[verifier::external_body]
fn multihash_sha2_256(data: &[u8]) -> (r: Vec<u8>)
    ensures
        r@ == sha2_256_multihash(data@),
        r@.len() == 34,
        r@[0] == 0x12u8,
        r@[1] == 0x20u8,
        r@.subrange(2, 34) == sha256_digest(data@),
{
    multihash_codetable::Code::Sha2_256.digest(data).to_bytes()
}

/// The text form of the CIDv1 with `codec` over the multihash bytes `mh`.
///
/// Trusted: `multihash::Multihash::<64>::from_bytes`, `cid::Cid::new_v1` and the CID's
/// `Display`. The text depends on its arguments alone. `from_bytes` reads a varint code,
/// a varint size at most 64, that many digest bytes, and fails on anything left over,
/// so the 34 bytes of a SHA-256 multihash are accepted.
#[verifier::external_body]
fn cid_v1_string(codec: u64, mh: &[u8]) -> (r: Result<String, CashewError>)
    ensures
        r matches Ok(s) ==> s@ == cid_v1_text(codec, mh@),
        r matches Err(e) ==> e is CidCreationFailed,
        mh@.len() == 34 && mh@[0] == 0x12u8 && mh@[1] == 0x20u8 ==> r is Ok,
{
    match multihash::Multihash::<64>::from_bytes(mh) {
        Ok(h) => Ok(cid::Cid::new_v1(codec, h).to_string()),
        Err(e) => Err(CashewError::CidCreationFailed(e.to_string())),
    }
}

/// Computes the text of the CIDv1 (dag-json codec, SHA-256) of `data`.
pub fn compute_cid_text(data: &[u8]) -> (r: Result<String, CashewError>)
    ensures
        r matches Ok(s) && s@ == cid_text(data@),
{
    let mh = multihash_sha2_256(data);
    cid_v1_string(DAG_JSON, mh.as_slice())
}

/// Parses CID text into its version, codec and multihash bytes.
///
/// Trusted: `cid::Cid::from_str` (multibase or base58 text, then the binary
/// form), `Cid::version`, `Cid::codec` and `Multihash::to_bytes`. The result
/// depends on the text alone. The text that `cid_v1_string` writes for a SHA-256
/// multihash with the dag-json codec reads back as version 1 with that codec and
/// the same multihash bytes:
/// `from_str` decodes the multibase text that `Display` writes and reads the
/// version, codec and multihash that `to_bytes` wrote. What else parses is not
/// stated; the error text is that of the crate.
#[verifier::external_body]
fn parse_cid_text(s: &str) -> (r: Result<CidValue, String>)
    ensures
        r matches Ok(c) ==> cid_parsed(s@) == Some((c.version, c.codec, c.multihash@)),
        r is Err ==> cid_parsed(s@) is None,
        forall|mh: Seq<u8>|
            #[trigger] cid_v1_text(DAG_JSON, mh) == s@ && mh.len() == 34 && mh[0] == 0x12u8 && mh[1] == 0x20u8
                ==> r is Ok && r.unwrap().version == 1 && r.unwrap().codec == DAG_JSON && r.unwrap().multihash@ == mh,
{
    match s.parse::<cid::Cid>() {
        Ok(c) => Ok(CidValue { version: u64::from(c.version()), codec: c.codec(), multihash: c.hash().to_bytes() }),
        Err(e) => Err(e.to_string()),
    }
}

/// Parses a CID from its text.
pub fn cid_from_string(s: &str) -> (r: Result<CidValue, CashewError>)
    ensures
        match cid_parsed(s@) {
            Some(p) => r matches Ok(c) && (c.version, c.codec, c.multihash@) == p,
            None => r matches Err(e) && e is CidCreationFailed,
        },
{
    match parse_cid_text(s) {
        Ok(c) => Ok(c),
        Err(msg) => Err(CashewError::CidCreationFailed(msg)),
    }
}

/// The CID of `data` read back from its text: version 1, the dag-json codec and
/// the SHA-256 multihash of `data`.
pub fn compute_cid(data: &[u8]) -> (r: Result<CidValue, CashewError>)
    ensures
        r matches Ok(c) && c.version == 1 && c.codec == DAG_JSON && c.multihash@ == sha2_256_multihash(data@),
        r matches Ok(c) && c.multihash@.len() == 34 && c.multihash@[0] == 0x12u8 && c.multihash@[1] == 0x20u8
            && c.multihash@.subrange(2, 34) == sha256_digest(data@),
{
    let mh = multihash_sha2_256(data);
    let text = cid_v1_string(DAG_JSON, mh.as_slice());
    match text {
        Ok(t) => {
            let r = parse_cid_text(t.as_str());
            proof {
                assert(cid_v1_text(DAG_JSON, mh@) == t@);
            }
            match r {
                Ok(c) => Ok(c),
                Err(msg) => Err(CashewError::CidCreationFailed(msg)),
            }
        },
        Err(e) => Err(e),
    }
}

} // verus!

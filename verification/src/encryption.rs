//! AES-256-GCM encryption of node data, and the metadata stored beside an
//! encrypted node's CID.
use vstd::prelude::*;
use crate::error::CashewError;
use aes_gcm::aead::Aead;
use aes_gcm::KeyInit;
use base64::Engine;
use rand::RngCore;
use sha2::Digest;

verus! {

/// The most plaintext bytes that AES-GCM encrypts in one message.
pub const PLAINTEXT_MAX: u64 = 0x10_0000_0000;

/// Name for the SHA-256 digest of `data`.
pub uninterp spec fn sha256_digest(data: Seq<u8>) -> Seq<u8>;

/// Name for the standard (padded) base64 text of `data`.
pub uninterp spec fn base64_standard(data: Seq<u8>) -> Seq<char>;

/// Name for the bytes that standard base64 decoding gives for `text`, if it accepts it.
pub uninterp spec fn base64_decoded(text: Seq<char>) -> Option<Seq<u8>>;

/// Name for the AES-256-GCM ciphertext (with its 16-byte tag appended) of
/// `plaintext` under `key` and `nonce`, without associated data.
pub uninterp spec fn aes_gcm_seal(key: Seq<u8>, nonce: Seq<u8>, plaintext: Seq<u8>) -> Seq<u8>;

/// Name for the plaintext that AES-256-GCM decryption recovers from `ciphertext`
/// under `key` and `nonce`, if the tag checks.
pub uninterp spec fn aes_gcm_open(key: Seq<u8>, nonce: Seq<u8>, ciphertext: Seq<u8>) -> Option<Seq<u8>>;

/// SHA-256 of `data`.
///
/// Trusted: `sha2::Sha256` (`new`, `update`, `finalize`); the digest is 32 bytes and a
/// function of the input alone.
#[verifier::external_body]
fn sha256(data: &[u8]) -> (r: Vec<u8>)
    ensures
        r@ == sha256_digest(data@),
        r@.len() == 32,
{
    let mut hasher = sha2::Sha256::new();
    hasher.update(data);
    hasher.finalize().to_vec()
}

/// Standard base64 encoding with padding.
///
/// Trusted: `base64::engine::general_purpose::STANDARD.encode`. The text is a
/// function of the input alone, four characters for each started group of three
/// bytes; the length computation overflows (and panics) when that count does not
/// fit in `usize`, which `requires` leaves out.
#[verifier::external_body]
fn base64_encode(data: &[u8]) -> (r: String)
    requires
        4 * ((data@.len() + 2) / 3) <= usize::MAX,
    ensures
        r@ == base64_standard(data@),
        r@.len() == 4 * ((data@.len() + 2) / 3),
{
    base64::engine::general_purpose::STANDARD.encode(data)
}

/// Standard base64 decoding.
///
/// Trusted: `base64::engine::general_purpose::STANDARD.decode`. The result is a
/// function of the text alone, and decoding the text that `encode` wrote for some
/// bytes gives those bytes back.
#[verifier::external_body]
fn base64_decode(text: &str) -> (r: Option<Vec<u8>>)
    ensures
        match r {
            Some(b) => base64_decoded(text@) == Some(b@),
            None => base64_decoded(text@) is None,
        },
        forall|b: Seq<u8>| #[trigger] base64_standard(b) == text@ ==> r is Some && r.unwrap()@ == b,
{
    base64::engine::general_purpose::STANDARD.decode(text).ok()
}

/// Twelve bytes from the thread-local random number generator.
///
/// Trusted: `rand::thread_rng().fill_bytes` on a 12-byte array; nothing is known of the
/// bytes but their number.
#[verifier::external_body]
fn random_nonce() -> (r: Vec<u8>)
    ensures
        r@.len() == 12,
{
    let mut nonce_bytes = [0u8; 12];
    rand::thread_rng().fill_bytes(&mut nonce_bytes);
    nonce_bytes.to_vec()
}

/// AES-256-GCM encryption without associated data.
///
/// Trusted: `aes_gcm::Aes256Gcm::new` and `Aead::encrypt` with a 12-byte nonce
/// (`Nonce::from_slice` panics on any other length, which `requires` leaves out). The
/// source refuses a plaintext longer than 2^36 bytes with `aead::Error` and otherwise
/// returns the ciphertext followed by the 16-byte tag, a function of its arguments.
#[verifier::external_body]
fn aes_gcm_encrypt(key: &[u8; 32], nonce: &[u8], data: &[u8]) -> (r: Result<Vec<u8>, String>)
    requires
        nonce@.len() == 12,
    ensures
        r is Ok <==> data@.len() <= PLAINTEXT_MAX,
        r is Ok ==> r.unwrap()@ == aes_gcm_seal(key@, nonce@, data@),
        r is Err ==> r->Err_0@ == "aead::Error"@,
{
    let cipher = aes_gcm::Aes256Gcm::new(key.into());
    let nonce = aes_gcm::Nonce::from_slice(nonce);
    cipher.encrypt(nonce, data).map_err(|e| e.to_string())
}

/// AES-256-GCM decryption without associated data.
///
/// Trusted: `aes_gcm::Aes256Gcm::new` and `Aead::decrypt` with a 12-byte nonce
/// (`Nonce::from_slice` panics on any other length). The result is a function of its
/// arguments; it fails with `aead::Error` where the tag does not check, and the
/// ciphertext that `encrypt` wrote for a plaintext under the same key and nonce
/// decrypts to that plaintext.
#[verifier::external_body]
fn aes_gcm_decrypt(key: &[u8; 32], nonce: &[u8], ciphertext: &[u8]) -> (r: Result<Vec<u8>, String>)
    requires
        nonce@.len() == 12,
    ensures
        match r {
            Ok(p) => aes_gcm_open(key@, nonce@, ciphertext@) == Some(p@),
            Err(m) => aes_gcm_open(key@, nonce@, ciphertext@) is None && m@ == "aead::Error"@,
        },
        forall|p: Seq<u8>|
            p.len() <= PLAINTEXT_MAX && #[trigger] aes_gcm_seal(key@, nonce@, p) == ciphertext@ ==> r is Ok
                && r.unwrap()@ == p,
{
    let cipher = aes_gcm::Aes256Gcm::new(key.into());
    let nonce = aes_gcm::Nonce::from_slice(nonce);
    cipher.decrypt(nonce, ciphertext).map_err(|e| e.to_string())
}

/// Encryption metadata stored alongside a CID.
#[derive(Debug, PartialEq, Eq)]
pub struct EncryptionInfo {
    /// SHA-256 hash of the encryption key, base64-encoded.
    pub key_hash: String,
    /// AES-GCM nonce/IV, base64-encoded.
    pub iv: String,
}

impl View for EncryptionInfo {
    type V = (Seq<char>, Seq<char>);

    open spec fn view(&self) -> (Seq<char>, Seq<char>) {
        (self.key_hash@, self.iv@)
    }
}

impl Clone for EncryptionInfo {
    fn clone(&self) -> (r: Self)
        ensures
            r@ == self@,
    {
        EncryptionInfo { key_hash: self.key_hash.clone(), iv: self.iv.clone() }
    }
}

impl EncryptionInfo {
    /// Metadata for data encrypted with `key` and the nonce `iv`: the base64 of the
    /// key's SHA-256 hash, and the base64 of the nonce.
    pub fn new(key: &[u8; 32], iv: &[u8]) -> (r: Self)
        requires
            4 * ((iv@.len() + 2) / 3) <= usize::MAX,
        ensures
            r.key_hash@ == base64_standard(sha256_digest(key@)),
            r.iv@ == base64_standard(iv@),
    {
        let digest = sha256(key);
        let key_hash = base64_encode(digest.as_slice());
        EncryptionInfo { key_hash, iv: base64_encode(iv) }
    }

    /// Decodes the nonce; the nonce that `new` encoded comes back unchanged.
    pub fn iv_bytes(&self) -> (r: Result<Vec<u8>, CashewError>)
        ensures
            match base64_decoded(self.iv@) {
                Some(b) => r matches Ok(v) && v@ == b,
                None => r == Err::<Vec<u8>, CashewError>(CashewError::InvalidIV),
            },
            forall|b: Seq<u8>| #[trigger] base64_standard(b) == self.iv@ ==> (r matches Ok(v) && v@ == b),
    {
        match base64_decode(self.iv.as_str()) {
            Some(v) => Ok(v),
            None => Err(CashewError::InvalidIV),
        }
    }
}

/// Encrypts data with AES-256-GCM under a fresh random nonce, returning
/// (ciphertext, nonce).
pub fn encrypt(data: &[u8], key: &[u8; 32]) -> (r: Result<(Vec<u8>, Vec<u8>), CashewError>)
    ensures
        data@.len() <= PLAINTEXT_MAX ==> (r matches Ok((c, n)) && n@.len() == 12 && c@ == aes_gcm_seal(
            key@,
            n@,
            data@,
        )),
        data@.len() > PLAINTEXT_MAX ==> (r matches Err(CashewError::EncryptionFailed(m)) && m@ == "aead::Error"@),
{
    let nonce = random_nonce();
    match encrypt_with_nonce(data, key, nonce.as_slice()) {
        Ok(c) => Ok((c, nonce)),
        Err(e) => Err(e),
    }
}

/// Encrypts data with a specific nonce (for deterministic re-encryption).
pub fn encrypt_with_nonce(data: &[u8], key: &[u8; 32], nonce_bytes: &[u8]) -> (r: Result<Vec<u8>, CashewError>)
    requires
        nonce_bytes@.len() == 12,
    ensures
        data@.len() <= PLAINTEXT_MAX ==> (r matches Ok(c) && c@ == aes_gcm_seal(key@, nonce_bytes@, data@)),
        data@.len() > PLAINTEXT_MAX ==> (r matches Err(CashewError::EncryptionFailed(m)) && m@ == "aead::Error"@),
{
    match aes_gcm_encrypt(key, nonce_bytes, data) {
        Ok(c) => Ok(c),
        Err(m) => Err(CashewError::EncryptionFailed(m)),
    }
}

/// Decrypts AES-256-GCM ciphertext; what `encrypt_with_nonce` wrote under the
/// same key and nonce decrypts to its plaintext.
pub fn decrypt(ciphertext: &[u8], key: &[u8; 32], nonce_bytes: &[u8]) -> (r: Result<Vec<u8>, CashewError>)
    requires
        nonce_bytes@.len() == 12,
    ensures
        match aes_gcm_open(key@, nonce_bytes@, ciphertext@) {
            Some(p) => r matches Ok(v) && v@ == p,
            None => r matches Err(CashewError::DecryptionFailed(m)) && m@ == "aead::Error"@,
        },
        forall|p: Seq<u8>|
            p.len() <= PLAINTEXT_MAX && #[trigger] aes_gcm_seal(key@, nonce_bytes@, p) == ciphertext@ ==> (r matches Ok(
                v,
            ) && v@ == p),
{
    match aes_gcm_decrypt(key, nonce_bytes, ciphertext) {
        Ok(p) => Ok(p),
        Err(m) => Err(CashewError::DecryptionFailed(m)),
    }
}

/// Strategy for encrypting nodes in the Merkle tree.
#[derive(Clone, Copy, Debug)]
pub enum EncryptionStrategy {
    /// Encrypt only the targeted node.
    Targeted([u8; 32]),
    /// Encrypt all direct children (one level).
    List([u8; 32]),
    /// Encrypt the entire subtree recursively.
    Recursive([u8; 32]),
}

impl EncryptionStrategy {
    /// The key that the strategy encrypts with.
    pub fn key(&self) -> (k: &[u8; 32])
        ensures
            *k == match *self {
                EncryptionStrategy::Targeted(k) => k,
                EncryptionStrategy::List(k) => k,
                EncryptionStrategy::Recursive(k) => k,
            },
    {
        match self {
            EncryptionStrategy::Targeted(k) => k,
            EncryptionStrategy::List(k) => k,
            EncryptionStrategy::Recursive(k) => k,
        }
    }
}

/// Provides decryption keys by their hash.
pub trait KeyProvider: Send + Sync {
    fn key_for_hash(&self, key_hash: &str) -> Option<[u8; 32]>;
}

} // verus!

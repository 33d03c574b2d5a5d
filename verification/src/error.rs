use vstd::prelude::*;

verus! {

/// Errors produced by the library.
#[derive(Debug, PartialEq, Eq)]
pub enum CashewError {
    NodeNotAvailable,
    SerializationFailed(String),
    CidCreationFailed(String),
    EncryptionFailed(String),
    DecryptionFailed(String),
    KeyNotFound(String),
    InvalidIV,
    DecodeError(String),
    ResolutionError(String),
    TransformFailed(String),
    InvalidKey(String),
    MissingData(String),
    ProofError(String),
    InvalidProofType(String),
    ParseError(String),
    InvalidValue(String),
    EmptyExpression,
    UnsupportedOperation(String),
}

/// Model of an error: the variant with the characters of its message.
pub enum ErrorView {
    NodeNotAvailable,
    SerializationFailed(Seq<char>),
    CidCreationFailed(Seq<char>),
    EncryptionFailed(Seq<char>),
    DecryptionFailed(Seq<char>),
    KeyNotFound(Seq<char>),
    InvalidIV,
    DecodeError(Seq<char>),
    ResolutionError(Seq<char>),
    TransformFailed(Seq<char>),
    InvalidKey(Seq<char>),
    MissingData(Seq<char>),
    ProofError(Seq<char>),
    InvalidProofType(Seq<char>),
    ParseError(Seq<char>),
    InvalidValue(Seq<char>),
    EmptyExpression,
    UnsupportedOperation(Seq<char>),
}

impl View for CashewError {
    type V = ErrorView;

    open spec fn view(&self) -> ErrorView {
        match self {
            CashewError::NodeNotAvailable => ErrorView::NodeNotAvailable,
            CashewError::SerializationFailed(m) => ErrorView::SerializationFailed(m@),
            CashewError::CidCreationFailed(m) => ErrorView::CidCreationFailed(m@),
            CashewError::EncryptionFailed(m) => ErrorView::EncryptionFailed(m@),
            CashewError::DecryptionFailed(m) => ErrorView::DecryptionFailed(m@),
            CashewError::KeyNotFound(m) => ErrorView::KeyNotFound(m@),
            CashewError::InvalidIV => ErrorView::InvalidIV,
            CashewError::DecodeError(m) => ErrorView::DecodeError(m@),
            CashewError::ResolutionError(m) => ErrorView::ResolutionError(m@),
            CashewError::TransformFailed(m) => ErrorView::TransformFailed(m@),
            CashewError::InvalidKey(m) => ErrorView::InvalidKey(m@),
            CashewError::MissingData(m) => ErrorView::MissingData(m@),
            CashewError::ProofError(m) => ErrorView::ProofError(m@),
            CashewError::InvalidProofType(m) => ErrorView::InvalidProofType(m@),
            CashewError::ParseError(m) => ErrorView::ParseError(m@),
            CashewError::InvalidValue(m) => ErrorView::InvalidValue(m@),
            CashewError::EmptyExpression => ErrorView::EmptyExpression,
            CashewError::UnsupportedOperation(m) => ErrorView::UnsupportedOperation(m@),
        }
    }
}

/// The human-readable text of an error.
pub open spec fn error_text(e: ErrorView) -> Seq<char> {
    match e {
        ErrorView::NodeNotAvailable => "node not available \u{2014} resolve the header first"@,
        ErrorView::SerializationFailed(m) => "serialization failed: "@ + m,
        ErrorView::CidCreationFailed(m) => "CID creation failed: "@ + m,
        ErrorView::EncryptionFailed(m) => "encryption failed: "@ + m,
        ErrorView::DecryptionFailed(m) => "decryption failed: "@ + m,
        ErrorView::KeyNotFound(m) => "key not found for hash: "@ + m,
        ErrorView::InvalidIV => "invalid IV data"@,
        ErrorView::DecodeError(m) => "decode from data error: "@ + m,
        ErrorView::ResolutionError(m) => "resolution error: "@ + m,
        ErrorView::TransformFailed(m) => "transform failed: "@ + m,
        ErrorView::InvalidKey(m) => "invalid key: "@ + m,
        ErrorView::MissingData(m) => "missing data: "@ + m,
        ErrorView::ProofError(m) => "proof error: "@ + m,
        ErrorView::InvalidProofType(m) => "invalid proof type: "@ + m,
        ErrorView::ParseError(m) => "parse error: "@ + m,
        ErrorView::InvalidValue(m) => "invalid value: "@ + m,
        ErrorView::EmptyExpression => "empty expression"@,
        ErrorView::UnsupportedOperation(m) => "unsupported operation: "@ + m,
    }
}

fn prefixed_text(prefix: &str, m: &String) -> (r: String)
    ensures
        r@ == prefix@ + m@,
{
    let mut r = String::from_str(prefix);
    r.append(m.as_str());
    r
}

impl CashewError {
    /// The human-readable text of the error.
    pub fn message(&self) -> (r: String)
        ensures
            r@ == error_text(self@),
    {
        match self {
            CashewError::NodeNotAvailable => String::from_str("node not available \u{2014} resolve the header first"),
            CashewError::SerializationFailed(m) => prefixed_text("serialization failed: ", m),
            CashewError::CidCreationFailed(m) => prefixed_text("CID creation failed: ", m),
            CashewError::EncryptionFailed(m) => prefixed_text("encryption failed: ", m),
            CashewError::DecryptionFailed(m) => prefixed_text("decryption failed: ", m),
            CashewError::KeyNotFound(m) => prefixed_text("key not found for hash: ", m),
            CashewError::InvalidIV => String::from_str("invalid IV data"),
            CashewError::DecodeError(m) => prefixed_text("decode from data error: ", m),
            CashewError::ResolutionError(m) => prefixed_text("resolution error: ", m),
            CashewError::TransformFailed(m) => prefixed_text("transform failed: ", m),
            CashewError::InvalidKey(m) => prefixed_text("invalid key: ", m),
            CashewError::MissingData(m) => prefixed_text("missing data: ", m),
            CashewError::ProofError(m) => prefixed_text("proof error: ", m),
            CashewError::InvalidProofType(m) => prefixed_text("invalid proof type: ", m),
            CashewError::ParseError(m) => prefixed_text("parse error: ", m),
            CashewError::InvalidValue(m) => prefixed_text("invalid value: ", m),
            CashewError::EmptyExpression => String::from_str("empty expression"),
            CashewError::UnsupportedOperation(m) => prefixed_text("unsupported operation: ", m),
        }
    }
}

} // verus!

//! Error type shared by the encoder and the decoder.
use vstd::prelude::*;

verus! {

/// Errors reported by the encoder and the decoder.
#[derive(Debug, Clone)]
pub enum Jp2LamError {
    InvalidInput(String),
    EncodeFailed(String),
    DecodeFailed(String),
    UnsupportedFeature(String),
    Io(String),
}

pub type Result<T> = core::result::Result<T, Jp2LamError>;

impl Jp2LamError {
    /// The message carried by the error, whatever its kind.
    pub open spec fn spec_message(&self) -> Seq<char> {
        match self {
            Jp2LamError::InvalidInput(m) => m@,
            Jp2LamError::EncodeFailed(m) => m@,
            Jp2LamError::DecodeFailed(m) => m@,
            Jp2LamError::UnsupportedFeature(m) => m@,
            Jp2LamError::Io(m) => m@,
        }
    }

    /// A copy of the message carried by the error.
    pub fn message(&self) -> (m: String)
        ensures
            m@ == self.spec_message(),
    {
        match self {
            Jp2LamError::InvalidInput(m) => m.clone(),
            Jp2LamError::EncodeFailed(m) => m.clone(),
            Jp2LamError::DecodeFailed(m) => m.clone(),
            Jp2LamError::UnsupportedFeature(m) => m.clone(),
            Jp2LamError::Io(m) => m.clone(),
        }
    }

    /// True for errors raised while decoding, unsupported features included.
    pub fn is_decode_failure(&self) -> (b: bool)
        ensures
            b == (self is DecodeFailed || self is UnsupportedFeature),
    {
        match self {
            Jp2LamError::DecodeFailed(_) => true,
            Jp2LamError::UnsupportedFeature(_) => true,
            _ => false,
        }
    }

    /// True for inputs that use a JPEG 2000 feature outside the supported scope.
    pub fn is_unsupported_feature(&self) -> (b: bool)
        ensures
            b == (self is UnsupportedFeature),
    {
        match self {
            Jp2LamError::UnsupportedFeature(_) => true,
            _ => false,
        }
    }

    /// The message prefixed by the error's kind, as it is shown to users.
    pub fn describe(&self) -> (s: String)
        ensures
            s@ == self.kind_prefix() + self.spec_message(),
    {
        let mut out = match self {
            Jp2LamError::InvalidInput(_) => String::from_str("invalid input: "),
            Jp2LamError::EncodeFailed(_) => String::from_str("encode failed: "),
            Jp2LamError::DecodeFailed(_) => String::from_str("decode failed: "),
            Jp2LamError::UnsupportedFeature(_) => String::from_str("unsupported feature: "),
            Jp2LamError::Io(_) => String::from_str("i/o error: "),
        };
        let m = self.message();
        out.append(m.as_str());
        out
    }

    pub open spec fn kind_prefix(&self) -> Seq<char> {
        match self {
            Jp2LamError::InvalidInput(_) => "invalid input: "@,
            Jp2LamError::EncodeFailed(_) => "encode failed: "@,
            Jp2LamError::DecodeFailed(_) => "decode failed: "@,
            Jp2LamError::UnsupportedFeature(_) => "unsupported feature: "@,
            Jp2LamError::Io(_) => "i/o error: "@,
        }
    }
}

/// A decode failure with the given message.
pub fn decode_failed(msg: &str) -> (e: Jp2LamError)
    ensures
        e is DecodeFailed,
        e.spec_message() == msg@,
{
    Jp2LamError::DecodeFailed(String::from_str(msg))
}

/// An unsupported-feature error with the given message.
pub fn unsupported(msg: &str) -> (e: Jp2LamError)
    ensures
        e is UnsupportedFeature,
        e.spec_message() == msg@,
{
    Jp2LamError::UnsupportedFeature(String::from_str(msg))
}

/// An encode failure with the given message.
pub fn encode_failed(msg: &str) -> (e: Jp2LamError)
    ensures
        e is EncodeFailed,
        e.spec_message() == msg@,
{
    Jp2LamError::EncodeFailed(String::from_str(msg))
}

/// An invalid-input error with the given message.
pub fn invalid_input(msg: &str) -> (e: Jp2LamError)
    ensures
        e is InvalidInput,
        e.spec_message() == msg@,
{
    Jp2LamError::InvalidInput(String::from_str(msg))
}

} // verus!

//! The errors that decoding and encoding report.
use vstd::prelude::*;
use crate::payload::bytes_contents;

verus! {

/// An error returned when a Bencode value cannot be decoded.
#[derive(Debug, PartialEq, Eq)]
pub enum DecodeError {
    /// The input buffer is empty.
    EmptyInput,
    /// The input begins with an unsupported Bencode value marker.
    UnsupportedType { marker: u8 },
    /// An integer does not follow Bencode's integer encoding rules.
    InvalidInteger,
    /// A syntactically valid integer is outside the supported `i64` range.
    IntegerOutOfRange,
    /// The byte-string length prefix is malformed.
    InvalidByteStringLength,
    /// The byte-string length cannot be represented by this platform.
    ByteStringLengthOutOfRange,
    /// The input ends before the required encoded bytes are available.
    UnexpectedEndOfInput { expected: usize, actual: usize },
    /// Bytes remain after the decoded value.
    TrailingData { remaining: usize },
    /// A list marker was expected but not found.
    InvalidList,
    /// A dictionary marker was expected but not found.
    InvalidDictionary,
    /// A dictionary key does not use the byte-string encoding.
    InvalidDictionaryKey,
    /// A dictionary key is not followed by a value.
    MissingDictionaryValue,
    /// The input exceeds the maximum supported nesting depth.
    NestingTooDeep { limit: usize },
    /// The input contains more parsed values and dictionary keys than allowed.
    TokenLimitExceeded { limit: usize },
}

/// An error returned when a value cannot be encoded.
#[derive(Debug, PartialEq, Eq)]
pub enum EncodeError {
    /// Two entries of one dictionary have the same key.
    DuplicateDictionaryKey { key: bytes::Bytes },
    /// A list or dictionary lies deeper than the configured limit.
    NestingTooDeep { limit: usize },
}

/// The model of an [`EncodeError`]: the duplicated key as its bytes.
pub enum SpecEncodeError {
    DuplicateDictionaryKey(Seq<u8>),
    NestingTooDeep(usize),
}

impl View for EncodeError {
    type V = SpecEncodeError;

    open spec fn view(&self) -> SpecEncodeError {
        match self {
            EncodeError::DuplicateDictionaryKey { key } => SpecEncodeError::DuplicateDictionaryKey(
                bytes_contents(*key),
            ),
            EncodeError::NestingTooDeep { limit } => SpecEncodeError::NestingTooDeep(*limit),
        }
    }
}

} // verus!

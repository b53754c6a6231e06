//! A small Bencode encoder and decoder for integers, byte strings, lists and
//! dictionaries, with contracts that pin down every result and every error.
mod decoder;
mod encoder;
mod errors;
pub mod laws;
mod order;
mod payload;
mod text;
mod value;

pub use decoder::{decode, spec_decode, Decoder};
pub use encoder::{encode, encode_with_options, spec_encode, EncodeOptions, Encoder};
pub use errors::{DecodeError, EncodeError, SpecEncodeError};
pub use payload::bytes_contents;
pub use value::{SpecValue, Value};

//! Laws that relate encoding and decoding, proved over the spec functions
//! that the contracts of [`crate::Decoder`] and [`crate::Encoder`] use.
mod decimal;
mod encoding_facts;
mod entry_order;
mod forms;
mod limits;
mod prefix;
mod reencode;
mod reproduce;
mod roundtrip;
mod sorting;
mod too_deep;

pub use decimal::{
    law_byte_string_text_is_decimal, law_decoded_integer_is_decimal, law_decoded_length_is_decimal,
    law_decoded_negative_integer_is_decimal,
    law_integer_text_is_decimal, length_text_of, plain_numeral,
};
pub use entry_order::{arranged, bytes_le, entry_key, law_encode_ignores_entry_order};
pub use forms::{
    canonical_entries, canonical_form, canonical_items, identity_order, is_canonical, is_prefix,
    keys_ascending, law_values_are_representable, ordered_along, representable,
};
pub use limits::{law_limit_does_not_change_bytes, law_nesting_limit, law_raising_the_limit};
pub use prefix::{law_no_proper_prefix_decodes, law_value_ignores_what_follows};
pub use reencode::{law_canonical_form_encodes_alike, law_reencode_decoded};
pub use reproduce::law_encode_after_decode;
pub use roundtrip::{
    law_canonical_form_of_canonical, law_decode_after_encode, law_decode_after_encode_canonical,
    law_encoder_writes_canonical_form,
};
pub use sorting::law_key_order_sorts;

//! Decoded Bencode values and their mathematical model.
use vstd::prelude::*;
use crate::payload::bytes_contents;

verus! {

/// A Bencode value supported by this crate.
///
/// Byte strings own their payload in `bytes::Bytes` storage, so a decoded
/// value does not borrow from the input.
#[derive(Debug, PartialEq, Eq)]
pub enum Value {
    /// A signed integer encoded as a Bencode integer.
    Integer(i64),
    /// An arbitrary byte sequence encoded as a Bencode byte string.
    Bytes(bytes::Bytes),
    /// A list of values.
    List(Vec<Value>),
    /// Key/value entries, in the order in which they were given.
    Dictionary(Vec<(bytes::Bytes, Value)>),
}

/// The mathematical model of a [`Value`].
pub enum SpecValue {
    Integer(int),
    Bytes(Seq<u8>),
    List(Seq<SpecValue>),
    Dictionary(Seq<(Seq<u8>, SpecValue)>),
}

impl Value {
    /// The model of a value: byte strings become their byte sequences.
    pub open spec fn spec_view(self) -> SpecValue
        decreases self,
    {
        match self {
            Value::Integer(i) => SpecValue::Integer(i as int),
            Value::Bytes(b) => SpecValue::Bytes(bytes_contents(b)),
            Value::List(items) => SpecValue::List(
                Seq::new(
                    items@.len(),
                    |i: int|
                        if 0 <= i < items@.len() {
                            items@[i].spec_view()
                        } else {
                            SpecValue::Integer(0)
                        },
                ),
            ),
            Value::Dictionary(entries) => SpecValue::Dictionary(
                Seq::new(
                    entries@.len(),
                    |i: int|
                        if 0 <= i < entries@.len() {
                            (bytes_contents(entries@[i].0), entries@[i].1.spec_view())
                        } else {
                            (Seq::empty(), SpecValue::Integer(0))
                        },
                ),
            ),
        }
    }
}

impl View for Value {
    type V = SpecValue;

    open spec fn view(&self) -> SpecValue {
        self.spec_view()
    }
}

/// The views of a sequence of values.
pub open spec fn views_of(values: Seq<Value>) -> Seq<SpecValue> {
    Seq::new(values.len(), |i: int| values[i]@)
}

/// The views of a sequence of dictionary entries.
pub open spec fn entry_views_of(entries: Seq<(bytes::Bytes, Value)>) -> Seq<(Seq<u8>, SpecValue)> {
    Seq::new(entries.len(), |i: int| (bytes_contents(entries[i].0), entries[i].1@))
}

} // verus!

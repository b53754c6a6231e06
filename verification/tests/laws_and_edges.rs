use bencode::{
    decode, encode, encode_with_options, DecodeError, Decoder, EncodeError, EncodeOptions, Encoder,
    Value,
};
use bytes::Bytes;

fn b(s: &[u8]) -> Bytes {
    Bytes::copy_from_slice(s)
}

fn sample_values() -> Vec<Value> {
    vec![
        Value::Integer(0),
        Value::Integer(i64::MIN),
        Value::Integer(i64::MAX),
        Value::Bytes(b(b"")),
        Value::Bytes(b(b"\x00:e\xffd")),
        Value::List(vec![]),
        Value::List(vec![
            Value::Integer(-7),
            Value::List(vec![Value::Bytes(b(b"x"))]),
            Value::Dictionary(vec![]),
        ]),
        Value::Dictionary(vec![
            (b(b"a"), Value::Integer(1)),
            (b(b"ab"), Value::List(vec![Value::Integer(2)])),
            (b(b"b"), Value::Dictionary(vec![(b(b""), Value::Bytes(b(b"v")))])),
        ]),
    ]
}

#[test]
fn canonical_values_survive_encode_then_decode() {
    for value in sample_values() {
        let encoded = encode(&value).unwrap();
        assert_eq!(decode(&encoded), Ok(value));
    }
}

#[test]
fn encode_then_decode_sorts_dictionary_keys() {
    let value = Value::Dictionary(vec![
        (b(b"b"), Value::Dictionary(vec![(b(b"z"), Value::Integer(1)), (b(b"y"), Value::Integer(2))])),
        (b(b"a"), Value::Integer(3)),
    ]);
    let expected = Value::Dictionary(vec![
        (b(b"a"), Value::Integer(3)),
        (b(b"b"), Value::Dictionary(vec![(b(b"y"), Value::Integer(2)), (b(b"z"), Value::Integer(1))])),
    ]);
    let encoded = encode(&value).unwrap();
    assert_eq!(encoded, b"d1:ai3e1:bd1:yi2e1:zi1eee".to_vec());
    assert_eq!(decode(&encoded), Ok(expected));
}

#[test]
fn proper_prefixes_of_encodings_never_decode() {
    for value in sample_values() {
        let encoded = encode(&value).unwrap();
        for end in 0..encoded.len() {
            assert!(decode(&encoded[..end]).is_err(), "accepted {:?}", &encoded[..end]);
        }
    }
}

#[test]
fn decode_reports_each_error_variant() {
    assert_eq!(decode(b""), Err(DecodeError::EmptyInput));
    assert_eq!(decode(b"x"), Err(DecodeError::UnsupportedType { marker: b'x' }));
    assert_eq!(decode(b"i-0e"), Err(DecodeError::InvalidInteger));
    assert_eq!(decode(b"i9223372036854775808e"), Err(DecodeError::IntegerOutOfRange));
    assert_eq!(decode(b"01:a"), Err(DecodeError::InvalidByteStringLength));
    assert_eq!(decode(b"99999999999999999999:a"), Err(DecodeError::ByteStringLengthOutOfRange));
    assert_eq!(
        decode(b"4:abc"),
        Err(DecodeError::UnexpectedEndOfInput { expected: 4, actual: 3 })
    );
    assert_eq!(decode(b"i1ei2e"), Err(DecodeError::TrailingData { remaining: 3 }));
    assert_eq!(decode(b"d1:ae"), Err(DecodeError::MissingDictionaryValue));
    let mut deep = b"d1:a".repeat(100);
    deep.extend_from_slice(b"l");
    deep.extend_from_slice(b"e");
    assert_eq!(decode(&deep), Err(DecodeError::NestingTooDeep { limit: 100 }));
}

#[test]
fn decoder_keeps_dictionary_entries_in_input_order() {
    assert_eq!(
        Decoder::new(b"d1:bi1e1:ai2e1:bi3ee").decode(),
        Ok(Value::Dictionary(vec![
            (b(b"b"), Value::Integer(1)),
            (b(b"a"), Value::Integer(2)),
            (b(b"b"), Value::Integer(3)),
        ]))
    );
}

#[test]
fn decoded_byte_strings_copy_the_payload() {
    let input = b"3:abc".to_vec();
    let value = decode(&input).unwrap();
    drop(input);
    assert_eq!(value, Value::Bytes(b(b"abc")));
}

#[test]
fn integer_text_has_exact_digits() {
    assert_eq!(encode(&Value::Integer(1234567890)).unwrap(), b"i1234567890e".to_vec());
    assert_eq!(encode(&Value::Integer(-10)).unwrap(), b"i-10e".to_vec());
    assert_eq!(encode(&Value::Bytes(b(&[7u8; 12]))).unwrap()[..3].to_vec(), b"12:".to_vec());
}

#[test]
fn encoder_reports_the_smallest_duplicate_key() {
    let value = Value::Dictionary(vec![
        (b(b"z"), Value::Integer(1)),
        (b(b"m"), Value::Integer(2)),
        (b(b"z"), Value::Integer(3)),
        (b(b"m"), Value::Integer(4)),
    ]);
    assert_eq!(
        encode(&value),
        Err(EncodeError::DuplicateDictionaryKey { key: b(b"m") })
    );
}

#[test]
fn encoder_nesting_limit_counts_enclosing_containers() {
    let options = EncodeOptions { max_nesting_depth: 0 };
    assert_eq!(encode_with_options(&Value::Integer(5), options), Ok(b"i5e".to_vec()));
    assert_eq!(
        encode_with_options(&Value::List(vec![]), options),
        Err(EncodeError::NestingTooDeep { limit: 0 })
    );
    assert_eq!(
        Encoder::with_options(options).encode(&Value::Dictionary(vec![])),
        Err(EncodeError::NestingTooDeep { limit: 0 })
    );
    assert_eq!(EncodeOptions::default().max_nesting_depth, 100);
    assert_eq!(Encoder::new().encode(&Value::List(vec![])), Ok(b"le".to_vec()));
}

#[test]
fn first_error_in_writing_order_is_reported() {
    let deep = Value::List(vec![Value::List(vec![])]);
    let value = Value::Dictionary(vec![
        (b(b"b"), Value::Dictionary(vec![(b(b"k"), Value::Integer(1)), (b(b"k"), Value::Integer(2))])),
        (b(b"a"), deep),
    ]);
    let options = EncodeOptions { max_nesting_depth: 2 };
    assert_eq!(
        encode_with_options(&value, options),
        Err(EncodeError::NestingTooDeep { limit: 2 })
    );
}

#[test]
fn canonical_input_is_reproduced_by_encode() {
    let inputs: &[&[u8]] = &[
        b"i0e",
        b"i-9223372036854775808e",
        b"0:",
        b"4:\x00:e\xff",
        b"le",
        b"de",
        b"d1:ai-3e1:bl0:i0ee2:bbd0:lleeee",
        b"lli1eeli-2eee",
    ];
    for &input in inputs {
        let value = decode(input).unwrap();
        assert_eq!(encode(&value).unwrap(), input.to_vec());
    }
}

#[test]
fn unsorted_dictionary_input_is_rewritten_in_key_order() {
    let value = decode(b"d1:bi1e1:ai2ee").unwrap();
    assert_eq!(encode(&value).unwrap(), b"d1:ai2e1:bi1ee".to_vec());
}

#[test]
fn entry_order_does_not_change_the_encoding() {
    let entries = vec![
        (b"k".to_vec(), 1i64),
        (b"a".to_vec(), 2),
        (b"kk".to_vec(), 3),
        (b"".to_vec(), 4),
    ];
    let orders: [[usize; 4]; 3] = [[0, 1, 2, 3], [3, 2, 1, 0], [2, 0, 3, 1]];
    let mut encodings = Vec::new();
    for order in orders {
        let dict = Value::Dictionary(
            order.iter().map(|&i| (b(&entries[i].0), Value::Integer(entries[i].1))).collect(),
        );
        encodings.push(encode(&dict).unwrap());
    }
    assert_eq!(encodings[0], b"d0:i4e1:ai2e1:ki1e2:kki3ee".to_vec());
    assert_eq!(encodings[0], encodings[1]);
    assert_eq!(encodings[0], encodings[2]);

    let dup_a = Value::Dictionary(vec![
        (b(b"x"), Value::Integer(1)),
        (b(b"x"), Value::List(vec![])),
    ]);
    let dup_b = Value::Dictionary(vec![
        (b(b"x"), Value::List(vec![])),
        (b(b"x"), Value::Integer(1)),
    ]);
    assert_eq!(encode(&dup_a), encode(&dup_b));
}

#[test]
fn raising_the_limit_keeps_the_bytes() {
    let value = Value::List(vec![Value::List(vec![Value::Dictionary(vec![(b(b"k"), Value::Integer(1))])])]);
    let at_three = encode_with_options(&value, EncodeOptions { max_nesting_depth: 3 }).unwrap();
    for limit in [3usize, 4, 100, 1000, usize::MAX] {
        assert_eq!(
            encode_with_options(&value, EncodeOptions { max_nesting_depth: limit }),
            Ok(at_three.clone())
        );
    }
    assert_eq!(
        encode_with_options(&value, EncodeOptions { max_nesting_depth: 2 }),
        Err(EncodeError::NestingTooDeep { limit: 2 })
    );
}

#[test]
fn re_encoding_decoded_output_reproduces_the_bytes_under_other_limits() {
    let value = Value::Dictionary(vec![
        (b(b"z"), Value::List(vec![Value::Integer(-1)])),
        (b(b"a"), Value::Dictionary(vec![(b(b"y"), Value::Bytes(b(b"q"))), (b(b"x"), Value::Integer(0))])),
    ]);
    for limit in [2usize, 3, 7, 500] {
        let encoder = Encoder::with_options(EncodeOptions { max_nesting_depth: limit });
        let first = encoder.encode(&value).unwrap();
        let decoded = Decoder::new(&first).decode().unwrap();
        assert_eq!(encoder.encode(&decoded), Ok(first));
    }
    let mut deep = Value::Integer(0);
    for _ in 0..101 {
        deep = Value::List(vec![deep]);
    }
    let bytes = encode_with_options(&deep, EncodeOptions { max_nesting_depth: 200 }).unwrap();
    assert_eq!(decode(&bytes), Err(DecodeError::NestingTooDeep { limit: 100 }));
}

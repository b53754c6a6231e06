# bencode

A small Bencode encoder and decoder for integers, byte strings, lists and
dictionaries, written in Verus.

- `src/` is the verified library. The grammar that the decoder accepts and the
  text that the encoder writes are spec functions (`spec_decode`,
  `spec_encode`); `Decoder::decode`, `decode`, `Encoder::encode`, `encode` and
  `encode_with_options` are proved to give exactly what they give, results and
  errors alike.
- `src/laws/` proves how the two relate: decoding an encoding gives the value
  back with its dictionaries in key order, encoding canonical decoded input
  reproduces it byte for byte, re-encoding what is decoded from an encoding
  gives the same bytes under any nesting limit, raising the limit keeps a
  success and its bytes, and no proper prefix of a decodable input decodes.
- `app/` gives the decoding and encoding errors human-readable messages.
- `tests/` runs the library on concrete inputs.

# base64_etna

Base64 over configurable 64-symbol alphabets, with the BinHex 4.0
alphabet, verified with Verus, together with the properties that
property-based testing tools check of it.

Layout:

- `src/codec.rs`: the model. What an encoding is (`encode_spec`), and what
  decoding any byte string gives (`decode_spec`), including which error is
  reported first.
- `src/alphabet.rs`: alphabets, their parsing from a string, and the BinHex
  4.0 alphabet.
- `src/engine.rs`: the configurable engine; `encode`, `decode`,
  `encoded_len` and `decoded_len_estimate`, each proved against the model.
- `src/laws.rs`: round trip, canonical decoding, encoded length, and the
  bounds of the decoding estimate, for every input. `src/lemmas.rs` holds
  the facts their proofs use.
- `src/etna.rs`: the two properties, as functions from an input to a
  verdict, with the proof that the BinHex alphabet matches its
  specification.
- `src/runner.rs`: what the runner computes: metrics, canonical inputs,
  property names, the number of cases, mutations, and the JSON report line.
- `src/text.rs`: characters of bytes, decimal notation, and the few
  standard-library conversions the library trusts.
- `app/`: the runner itself (command line, timing, the testing tools).

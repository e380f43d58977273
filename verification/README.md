# ltp_onnx

Decoding logic of an LTP (Language Technology Platform) parser for Chinese,
verified with Verus: word segmentation from tokenizer offsets and segmentation
scores, part-of-speech and dependency-relation labels from score rows, and
dependency trees recovered from the split points of Eisner's chart.

- `src/` — the verified library:
  - `tree.rs`: walking Eisner's split points; proof that the result is a
    projective tree rooted at position 0, and when the root has a single
    dependent.
  - `keys.rs`: order keys standing for model scores (computed from a float's
    bits); the first-maximum choice.
  - `segment.rs`: characters from token offsets, segmentation tags, word spans,
    first token of each pre-segmented word.
  - `decode.rs`: part-of-speech tags, dependency relations, batch padding.
  - `text.rs`: characters of a string, byte slices of a text.
  - `vocab.rs`: built-in vocabularies, `.vocab` file contents, vocabulary path.
  - `tokenize.rs`: calls into the `tokenizers` crate; what the decoder reads of
    an encoding, tied to the input it was made from; tokenizers whose
    truncation cannot be carried out are refused.
  - `sentence.rs`: one sentence of a batch: where its scores start, its words
    from offsets and segmentation scores, its tree's nodes and the place of
    their arc scores; proofs that decoding within a batch agrees with decoding
    alone.
  - `prepare.rs`: a sentence around the chart: everything settled before it
    (words, tags, nodes, arc positions) and the dependencies after it; laws
    that decoding within a batch agrees with decoding alone.
  - `results.rs`: result types.
- `app/` — the parser itself: loading the ONNX model and tokenizer, running
  inference with `ort`, reading the bits of its floating-point scores, and
  filling Eisner's chart (`app/eisner.rs`, floating-point sums); a
  benchmark over a file of sentences (`app/benchmark.rs`).
- `tests/` — tests of the library on concrete values.

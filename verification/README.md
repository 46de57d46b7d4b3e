# tiktoken

A byte pair encoding tokeniser, verified with Verus.

A text is cut into pieces by a regular expression. A piece that is a token is encoded as
that token; any other piece is cut into bytes, and adjacent parts are merged by rank until
none can be merged any more. Special tokens are found in the text before it is cut.

## Layout

- `src/bpe.rs`, `src/vocab.rs`: what the tokens of a byte string and of a text are.
- `src/byte_pair.rs`, `src/merge_large.rs`, `src/merge_heap.rs`: byte pair encoding, with
  a list of parts for short pieces and a priority queue of merges for long ones.
- `src/core_bpe.rs`, `src/encode.rs`, `src/encode_bytes.rs`, `src/decode.rs`,
  `src/unstable.rs`: the tokeniser.
- `src/data_gym.rs`, `src/json.rs`, `src/ranks.rs`: the vocabulary files of GPT-2.
- `src/laws.rs`, `src/special_laws.rs`, `src/completion_laws.rs`, `src/rank_laws.rs`,
  `src/json_laws.rs`: what holds of several functions together, such as that decoding
  undoes encoding.
- `src/limits.rs`: the patterns that the engine of the regular expressions can take.
- `src/order.rs`, `src/split.rs`, `src/text.rs`, `src/sequence_set.rs`: what the others
  build on.
- `src/tables.rs`, `src/pattern.rs`, `src/outside.rs`: hash maps, regular expressions and
  a few functions on texts, which come from other crates and from the standard library.
  What is claimed of them is stated there, and not proved.
- `app/`: the Python module.

Functions whose name starts with `try_` take any input and say when there is no answer;
those without it ask for an input that has one.

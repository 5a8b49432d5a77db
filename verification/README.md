# Cadmus

A byte-level BPE tokenizer trained from scratch, with its encode/decode, written
in Verus: the trainer, the encoder and the decoder carry contracts that Verus
proves.

## Layout

- `src/byte_level.rs`: the reversible byte <-> printable-char alphabet
  (`byte_encoder`, `byte_decoder`, `encode_bytes`, `decode_bytes`, `alphabet`),
  with the proof that decoding a byte-level encoding gives the bytes back.
- `src/bpe.rs`: the model, pre-tokenization, merge rules, `encode` and `decode`,
  and `lemma_decode_encode`: for a well-formed model (every trained model is one),
  decoding the encoding of any text gives that text back.
- `src/train.rs`: learning the merge rules. `BpeModel::train` is specified
  exactly: its vocabulary and rules are `train_result` of its arguments.
- `src/json.rs`: saving and loading models as JSON through `serde_json`;
  reading what `to_json` (or, when no token repeats, `to_hf_json`) writes gives
  the model back (`lemma_save_load`, `lemma_hf_save_load` in `src/bpe.rs`).
- `src/seqs.rs`, `src/text.rs`: sequence vocabulary and small string helpers.
- `app/main.rs`: the command-line program (`train`, `encode`, `decode`).
- `tests/`: the test suite.

## What is trusted

The calls into std and `serde_json` that Verus cannot read go through small
`#[verifier::external_body]` wrappers, each with a doc comment that says what
its contract claims: `String::push`, `String::from_utf8_lossy`,
`char::from_u32`, `serde_json`'s readers (from text to plain values) and its
pretty writer, whose contract states what reading its text back gives.

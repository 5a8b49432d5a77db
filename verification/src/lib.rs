//! Cadmus: a byte-level BPE tokenizer trained from scratch, with a matching
//! encode/decode.
//!
//! - [`byte_level`]: the reversible byte <-> printable-char alphabet.
//! - [`bpe`]: the model, pre-tokenization, merging, encode and decode, and
//!   the proof that decoding an encoding gives the text back.
//! - [`train`]: learning the merge rules from a corpus.
//! - [`json`]: saving and loading models as JSON.
//! - [`seqs`], [`text`]: shared sequence vocabulary and string helpers.

pub mod bpe;
pub mod byte_level;
pub mod json;
pub mod seqs;
pub mod text;
pub mod train;

pub use bpe::BpeModel;

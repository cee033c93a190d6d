//! Byte-level byte-pair encoding for GPT-style vocabularies.
//!
//! Raw bytes become printable symbols (`codec`, `text`), the input is cut
//! into words (`words`), the symbols of each word are merged pairwise by
//! vocabulary rank (`merge`, `vocab`), and the resulting units are mapped to
//! token ids (`tokenizer`, `encoder`). Decoding inverts each step. The
//! `earley` and `tensor` modules hold a grammar table and a small integer
//! tensor that live beside the encoder.
pub mod codec;
pub mod text;
pub mod words;
pub mod vocab;
pub mod merge;
pub mod tokenizer;
pub mod encoder;
pub mod earley;
pub mod tensor;

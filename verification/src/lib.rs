//! Tokenization, text processing and data-preparation logic of a small
//! Transformer language model, with contracts proved by Verus.
use vstd::prelude::*;

pub mod text;
pub mod assoc;
pub mod vocab;
pub mod bpe_core;
pub mod counting;
pub mod tokenizer;
pub mod bpe;
pub mod processor;
pub mod basic_tokenizer;
pub mod decimal;
pub mod word_bpe;
pub mod masks;
pub mod split;
pub mod cache;
pub mod checkpoint;
pub mod stream;
pub mod batching;
pub mod csv_table;
pub mod model_check;

verus! {
} // verus!

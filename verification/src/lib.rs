//! Token-level indices over a deterministic finite automaton: for every
//! reachable automaton state, the vocabulary tokens that may follow and the
//! state each of them leads to.

pub mod bitset;
pub mod caching;
pub mod environment;
pub mod error;
pub mod lazy_index;
pub mod maps;
pub mod sorting;
pub mod sp_decode;
pub mod text;
pub mod tokenizer_index;
pub mod types;
pub mod vocab;

//! Dictionary structures: compact encodings, the connection matrix, word
//! ids and the lexicon.

pub mod build;
pub mod compact;
pub mod connect;
pub mod word_id;
pub mod lexicon;
pub mod lexicon_set;
pub mod reading_index;

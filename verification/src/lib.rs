//! Dictionary storage primitives, kana utilities and IME candidate logic of
//! the Sudachi Japanese morphological analyzer, with their behaviour stated
//! as contracts and proved.

pub mod block_codec;
pub mod dic;
pub mod error;
pub mod kana;
pub mod le;
pub mod order;
pub mod text;
pub mod ime;
pub mod kkc;

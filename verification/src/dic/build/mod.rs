//! Building dictionary structures.

pub mod index;

//! Base64 encoding and decoding over configurable 64-symbol alphabets, with
//! the BinHex 4.0 alphabet, and the properties that hold of them.

pub mod alphabet;
pub mod codec;
pub mod engine;
pub mod etna;
pub mod laws;
pub mod lemmas;
pub mod runner;
pub mod text;
pub use engine::{decoded_len_estimate, encoded_len};

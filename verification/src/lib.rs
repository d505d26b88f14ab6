//! A verified engine for breaking repeating-key (Vigenère-style) shift
//! ciphers: decrypt candidate keys lazily, tokenize the output, score it
//! against a sorted dictionary, and search a candidate-key space in parallel.

pub mod dict;
pub mod driver;
pub mod keygen;
pub mod letters;
pub mod scorer;
pub mod shift;
pub mod words;

//! A classic polyalphabetic (Vigenère-style) substitution cipher over a
//! 192-symbol alphabet: the printable Basic Latin and Latin-1 Supplement
//! characters together with line feed and carriage return.
//!
//! The alphabet fixes the domain of valid symbols; a square substitution
//! table derived from it drives the encode and decode transforms, which are
//! keyed by an arbitrary non-empty passphrase repeated cyclically to the
//! length of the text.

pub mod alphabet;
pub mod cipher;
pub mod laws;
pub mod text;

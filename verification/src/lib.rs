//! Hexadecimal encoding and decoding primitives: byte sequences and 64-bit
//! unsigned integers to and from hexadecimal ASCII text.

pub mod hex;

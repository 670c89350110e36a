//! Fixed-width, NUL-terminated firmware strings in two encodings: an 8-bit
//! Latin-1 kind and a 16-bit UCS-2 kind, with checked views over integer
//! buffers and a grapheme-safe encoder from native text.
pub mod chars;
pub mod strs;
pub mod encoder;
pub mod laws;

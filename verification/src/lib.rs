//! Adaptive dictionary (LZW) compression of byte streams, verified with Verus.
//!
//! The encoder reads a byte sequence once, grows a dictionary of the byte
//! sequences it has seen, and emits the dictionary codes of the longest
//! matches as a stream of bits whose width follows the size of the
//! dictionary.

pub mod lzw;

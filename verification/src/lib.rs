//! BOCU-1: Binary Ordered Compression for Unicode.
//!
//! BOCU-1 encodes a sequence of Unicode code points as a byte stream that
//! is safe to send as text. Three things set it apart: the bytes of
//! two encodings compare as the code points of the two texts do; the space
//! and the ASCII controls stand for themselves; and small alphabets take
//! about one byte for each code point.
//!
//! The codec has three stages. The delta coder (`delta_encoding`) turns each
//! code point into its distance from a normalized predecessor. The
//! variable-length code (`variable_length_code`) writes that distance as a
//! lead byte and up to three base-243 digits. The trailing-byte selection
//! (`trailing_byte_selection`) maps the digits onto the bytes that are safe
//! in text. `iter` drives the codec over whole sequences, and `packed` keeps
//! short encodings in a single integer.

pub mod delta_encoding;
pub mod iter;
pub mod lex_order;
pub mod packed;
pub mod reset;
pub mod result_word;
pub mod trailing_byte_selection;
pub mod util;
pub mod variable_length_code;

pub use crate::delta_encoding::normalized_prev;
pub use crate::delta_encoding::DeltaCoder;
pub use crate::iter::write_encoded_chars;
pub use crate::iter::DecodeBOCU1;
pub use crate::iter::DecodeError;
pub use crate::iter::DecodeIter;
pub use crate::iter::DecodeResultIter;
pub use crate::iter::DrainEncodedChunkIter;
pub use crate::iter::EncodeBOCU1;
pub use crate::iter::EncodeIter;
pub use crate::iter::EncodedChunk;
pub use crate::iter::EncodedChunkIter;
pub use crate::result_word::packed_to_chunk;

//! Decoding and encoding of floating-point bit patterns under configurable
//! layouts: one sign bit, a biased exponent field and a mantissa field, at
//! most 64 bits in all.

pub mod codec;
pub mod convert;
pub mod format;
pub mod hex;
pub mod laws;
pub mod layout;
pub mod rounding;

pub use codec::{bit_markers, decode, encode, Decoded};
pub use convert::{decode_hex, encode_f64_bits, Converter};
pub use format::{FloatFormat, InputField};
pub use hex::{parse_hex_window, to_hex};
pub use layout::{CodecError, Layout};

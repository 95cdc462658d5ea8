//! A reversible codec between byte strings and text over an alphabet of eight
//! symbols, three bits to the symbol.
//!
//! `encode` and `decode` work on text, `encode_bytes` and `decode_bytes` on
//! any bytes. What they return is stated over the functions `encoded` and
//! `decoded` of the module `codec`; the module `laws` proves what holds of
//! the two together.

pub mod alphabet;
pub mod bit_queue;
pub mod bits;
pub mod codec;
pub mod error;
pub mod laws;
pub mod text;

pub use alphabet::{decode_char, encode_byte};
pub use bit_queue::BitQueue;
pub use codec::{decode, decode_bytes, encode, encode_bytes};
pub use error::CodecError;

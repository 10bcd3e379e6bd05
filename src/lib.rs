//! Sortable 128-bit identifiers: a 48-bit millisecond timestamp over 80
//! random bits, written as 26 base-32 symbols that sort as the numbers do,
//! and a generator that gives strictly increasing identifiers.
pub mod codec;
pub mod generator;
pub mod radix;
mod sources;
pub mod ulys;
mod uuid_bits;

pub use codec::{decode, encode, encode_to, encode_to_array, DecodeError, EncodeError, ULYS_LEN};
pub use generator::{Generator, MonotonicError};
pub use ulys::{Ulys, UlysError};

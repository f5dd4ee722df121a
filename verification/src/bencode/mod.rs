//! Bencode: the encoding of torrent files and tracker responses.
//!
//! Integers are `i<decimal>e`, byte strings `<length>:<bytes>`, lists
//! `l<items>e` and dictionaries `d<key><value>...e` with byte string keys in
//! lexicographic order.

pub mod number;
pub mod token;
pub mod grammar;
pub mod roundtrip;
pub mod error;
pub mod decode;
pub mod encode;
pub mod map;
pub mod fields;

pub use decode::{decode_bytes, decode_str};
pub use encode::{encode_to_raw, encode_to_str};
pub use error::Error;
pub use token::Token;

//! A codec for bencode, the encoding of integers, byte strings, lists and
//! dictionaries that peer-to-peer protocols exchange their metadata in.
//!
//! [`parse`] decodes the value that a buffer starts with, and
//! [`Bencoded::encode`] writes a value as its one canonical encoding. What
//! both do is stated over [`Value`], the mathematical value that a
//! [`Bencoded`] stands for.

pub mod bytes;
pub mod canonical;
pub mod decimal;
pub mod decode;
pub mod dictionary;
pub mod encode;
pub mod format;
pub mod roundtrip;
pub mod value;

pub use decode::{
    parse, parse_bencoded, parse_bytestring, parse_dict, parse_integer, parse_list, DecodeError,
};
pub use dictionary::Dictionary;
pub use value::{Bencoded, Value};

//! The bytes that mark the parts of an encoding.

use vstd::prelude::*;

verus! {

/// `i`, which opens an integer.
pub const INTEGER_MARK: u8 = 0x69;

/// `l`, which opens a list.
pub const LIST_MARK: u8 = 0x6c;

/// `d`, which opens a dictionary.
pub const DICT_MARK: u8 = 0x64;

/// `e`, which closes an integer, a list or a dictionary.
pub const END_MARK: u8 = 0x65;

/// `:`, which stands between the length of a byte string and its bytes.
pub const LENGTH_END: u8 = 0x3a;

/// `-`, which stands in front of the digits of a negative integer.
pub const MINUS: u8 = 0x2d;

/// `0`, the digit that a number other than zero does not start with.
pub const ZERO: u8 = 0x30;

} // verus!

//! Canonical form: what sets the one encoding that the encoder writes apart
//! from the others that the decoder reads.

use vstd::prelude::*;
use crate::bytes::lex_lt;
use crate::decimal::digits_end;
use crate::decode::{bytes_at, integer_at, value_at};
use crate::format::{DICT_MARK, END_MARK, INTEGER_MARK, LIST_MARK, MINUS, ZERO};

verus! {

/// The digits from `start` up to `stop` are written without a zero in front
/// of another digit.
pub open spec fn canonical_digits(s: Seq<u8>, start: int, stop: int) -> bool {
    stop == start + 1 || s[start] != ZERO
}

/// An integer stands at `idx`, behind the `i`, written without leading
/// zeros and not as `-0`.
pub open spec fn canonical_integer_at(s: Seq<u8>, idx: int) -> bool {
    let negative = s[idx] == MINUS;
    let start = if negative {
        idx + 1
    } else {
        idx
    };
    &&& integer_at(s, idx) is Ok
    &&& canonical_digits(s, start, digits_end(s, start))
    &&& negative ==> s[start] != ZERO
}

/// A byte string stands at `idx`, its length written without leading
/// zeros.
pub open spec fn canonical_bytes_at(s: Seq<u8>, idx: int) -> bool {
    &&& bytes_at(s, idx) is Ok
    &&& canonical_digits(s, idx, digits_end(s, idx))
}

/// A value stands at `idx`, written in canonical form: every integer and
/// every length in it without leading zeros, no `-0`, and the keys of every
/// dictionary in ascending order, none of them twice.
pub open spec fn canonical_at(s: Seq<u8>, idx: int) -> bool
    decreases s.len() - idx, 0int,
{
    if !(0 <= idx < s.len()) {
        false
    } else if s[idx] == INTEGER_MARK {
        canonical_integer_at(s, idx + 1)
    } else if s[idx] == LIST_MARK {
        canonical_items_at(s, idx + 1)
    } else if s[idx] == DICT_MARK {
        canonical_entries_at(s, idx + 1, None)
    } else {
        canonical_bytes_at(s, idx)
    }
}

/// The items of a list stand from `idx` up to the `e` that closes it, each
/// in canonical form.
pub open spec fn canonical_items_at(s: Seq<u8>, idx: int) -> bool
    decreases s.len() - idx, 1int,
{
    if !(0 <= idx < s.len()) {
        false
    } else if s[idx] == END_MARK {
        true
    } else {
        &&& canonical_at(s, idx)
        &&& match value_at(s, idx) {
            Ok((_, next)) => idx < next <= s.len() && canonical_items_at(s, next),
            Err(_) => false,
        }
    }
}

/// The entries of a dictionary stand from `idx` up to the `e` that closes
/// it, each key and each value in canonical form, and each key behind the
/// one before it in the order of byte strings; `floor` is the key before
/// the first of them.
pub open spec fn canonical_entries_at(s: Seq<u8>, idx: int, floor: Option<Seq<u8>>) -> bool
    decreases s.len() - idx, 1int,
{
    if !(0 <= idx < s.len()) {
        false
    } else if s[idx] == END_MARK {
        true
    } else {
        match bytes_at(s, idx) {
            Ok((key, mid)) => {
                &&& canonical_bytes_at(s, idx)
                &&& floor matches Some(before) ==> lex_lt(before, key)
                &&& idx < mid <= s.len()
                &&& canonical_at(s, mid)
                &&& match value_at(s, mid) {
                    Ok((_, next)) => mid < next <= s.len() && canonical_entries_at(
                        s,
                        next,
                        Some(key),
                    ),
                    Err(_) => false,
                }
            },
            Err(_) => false,
        }
    }
}

/// The buffer is one value in canonical form, and nothing more.
pub open spec fn is_canonical(s: Seq<u8>) -> bool {
    &&& canonical_at(s, 0)
    &&& value_at(s, 0) matches Ok((_, end))
    &&& end == s.len()
}

} // verus!

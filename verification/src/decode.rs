//! The decoder: what each kind of value is at a place of a buffer, and the
//! functions that read it.

use vstd::prelude::*;
use vstd::slice::{slice_subrange, slice_to_vec};
use crate::decimal::{
    decimal_value, digit, digits_end, is_digit, lemma_digits_end, scan_decimal,
};
use crate::format::{DICT_MARK, END_MARK, INTEGER_MARK, LENGTH_END, LIST_MARK, MINUS};
use crate::canonical::is_canonical;
use crate::dictionary::Dictionary;
use crate::encode::encoded;
use crate::roundtrip::lemma_encode_decoded;
use crate::value::{view_items, Bencoded, Value};

verus! {

/// Why a buffer holds no value at a place.
#[derive(Debug, Clone, Copy, PartialEq, Eq, Structural)]
pub enum DecodeError {
    /// The buffer ends before the value does.
    Truncated,
    /// A byte stands where the format allows none like it, or digits are
    /// missing where the format asks for some.
    Malformed,
    /// An integer is written out in full, but does not fit the machine
    /// integer.
    Overflow,
}

/// The bytes of the byte string that starts at `idx`, and where it ends:
/// digits, `:`, and as many bytes as the digits say.
pub open spec fn bytes_at(s: Seq<u8>, idx: int) -> Result<(Seq<u8>, int), DecodeError> {
    if !(0 <= idx < s.len()) {
        Err(DecodeError::Truncated)
    } else {
        let stop = digits_end(s, idx);
        if stop >= s.len() {
            Err(DecodeError::Truncated)
        } else if stop == idx || s[stop] != LENGTH_END {
            Err(DecodeError::Malformed)
        } else {
            let n = decimal_value(s.subrange(idx, stop));
            if stop + 1 + n > s.len() {
                Err(DecodeError::Truncated)
            } else {
                Ok((s.subrange(stop + 1, stop + 1 + n), stop + 1 + n))
            }
        }
    }
}

/// Whether a length stands at `idx` that promises more bytes than the
/// buffer holds behind its `:`.
pub open spec fn length_exceeds_buffer(s: Seq<u8>, idx: int) -> bool {
    let stop = digits_end(s, idx);
    &&& 0 <= idx < stop < s.len()
    &&& s[stop] == LENGTH_END
    &&& stop + 1 + decimal_value(s.subrange(idx, stop)) > s.len()
}

/// The byte string that starts at `idx`, and where it ends.
pub open spec fn bytestring_at(s: Seq<u8>, idx: int) -> Result<(Value, int), DecodeError> {
    match bytes_at(s, idx) {
        Ok((bytes, end)) => Ok((Value::Bytestring(bytes), end)),
        Err(e) => Err(e),
    }
}

/// The integer whose digits start at `idx`, behind the `i`, and where it
/// ends: an optional `-`, digits, and `e`. Leading zeros and `-0` are read
/// like any other digits.
pub open spec fn integer_at(s: Seq<u8>, idx: int) -> Result<(Value, int), DecodeError> {
    if !(0 <= idx < s.len()) {
        Err(DecodeError::Truncated)
    } else {
        let negative = s[idx] == MINUS;
        let start = if negative {
            idx + 1
        } else {
            idx
        };
        let stop = digits_end(s, start);
        if stop >= s.len() {
            Err(DecodeError::Truncated)
        } else if stop == start || s[stop] != END_MARK {
            Err(DecodeError::Malformed)
        } else {
            let magnitude = decimal_value(s.subrange(start, stop));
            let n = if negative {
                -magnitude
            } else {
                magnitude as int
            };
            if isize::MIN <= n <= isize::MAX {
                Ok((Value::Integer(n), stop + 1))
            } else {
                Err(DecodeError::Overflow)
            }
        }
    }
}

/// The value that starts at `idx`, and where it ends. The byte at `idx`
/// tells what kind of value it is; the first failure on the way, from left
/// to right, is the failure of the whole.
pub open spec fn value_at(s: Seq<u8>, idx: int) -> Result<(Value, int), DecodeError>
    decreases s.len() - idx, 0int,
{
    if !(0 <= idx < s.len()) {
        Err(DecodeError::Truncated)
    } else if s[idx] == INTEGER_MARK {
        integer_at(s, idx + 1)
    } else if s[idx] == LIST_MARK {
        list_at(s, idx + 1)
    } else if s[idx] == DICT_MARK {
        dict_at(s, idx + 1)
    } else if is_digit(s[idx]) {
        bytestring_at(s, idx)
    } else {
        Err(DecodeError::Malformed)
    }
}

/// The list whose items start at `idx`, behind the `l`, and where it ends.
pub open spec fn list_at(s: Seq<u8>, idx: int) -> Result<(Value, int), DecodeError>
    decreases s.len() - idx, 2int,
{
    match items_at(s, idx, Seq::empty()) {
        Ok((items, end)) => Ok((Value::List(items), end)),
        Err(e) => Err(e),
    }
}

/// The dictionary whose entries start at `idx`, behind the `d`, and where it
/// ends.
pub open spec fn dict_at(s: Seq<u8>, idx: int) -> Result<(Value, int), DecodeError>
    decreases s.len() - idx, 2int,
{
    match entries_at(s, idx, Map::empty()) {
        Ok((entries, end)) => Ok((Value::Dict(entries), end)),
        Err(e) => Err(e),
    }
}

/// `acc` with the items appended that stand from `idx` up to the `e` that
/// closes the list, and the place behind that `e`.
///
/// An item ends behind the place where it starts
/// ([`lemma_value_at_advances`]); the test on `next` is there for the
/// definition to be well founded, and never fails.
pub open spec fn items_at(s: Seq<u8>, idx: int, acc: Seq<Value>) -> Result<
    (Seq<Value>, int),
    DecodeError,
>
    decreases s.len() - idx, 1int,
{
    if !(0 <= idx < s.len()) {
        Err(DecodeError::Truncated)
    } else if s[idx] == END_MARK {
        Ok((acc, idx + 1))
    } else {
        match value_at(s, idx) {
            Ok((item, next)) => if idx < next <= s.len() {
                items_at(s, next, acc.push(item))
            } else {
                Err(DecodeError::Malformed)
            },
            Err(e) => Err(e),
        }
    }
}

/// `acc` with the entries put in that stand from `idx` up to the `e` that
/// closes the dictionary, and the place behind that `e`. Each entry is a
/// byte string, the key, and a value; an entry takes the place of an
/// earlier one with its key. The keys may stand in any order.
///
/// As in [`items_at`], the test on `next` never fails.
pub open spec fn entries_at(s: Seq<u8>, idx: int, acc: Map<Seq<u8>, Value>) -> Result<
    (Map<Seq<u8>, Value>, int),
    DecodeError,
>
    decreases s.len() - idx, 1int,
{
    if !(0 <= idx < s.len()) {
        Err(DecodeError::Truncated)
    } else if s[idx] == END_MARK {
        Ok((acc, idx + 1))
    } else {
        match bytes_at(s, idx) {
            Ok((key, mid)) => {
                proof {
                    lemma_bytes_at_advances(s, idx);
                }
                match value_at(s, mid) {
                    Ok((value, next)) => if mid < next <= s.len() {
                        entries_at(s, next, acc.insert(key, value))
                    } else {
                        Err(DecodeError::Malformed)
                    },
                    Err(e) => Err(e),
                }
            },
            Err(e) => Err(e),
        }
    }
}

/// A length that promises more bytes than the buffer holds is answered
/// with [`DecodeError::Truncated`], by the byte string and by the value
/// that starts there.
pub proof fn lemma_length_exceeds_buffer(s: Seq<u8>, idx: int)
    requires
        length_exceeds_buffer(s, idx),
    ensures
        bytes_at(s, idx) == Err::<(Seq<u8>, int), DecodeError>(DecodeError::Truncated),
        value_at(s, idx) == Err::<(Value, int), DecodeError>(DecodeError::Truncated),
{
    assert(is_digit(s[idx]));
}

/// A byte string takes up at least two bytes of the buffer.
pub proof fn lemma_bytes_at_advances(s: Seq<u8>, idx: int)
    ensures
        bytes_at(s, idx) matches Ok((_, end)) ==> idx + 2 <= end <= s.len(),
{
    if 0 <= idx < s.len() {
        lemma_digits_end(s, idx);
    }
}

/// A value takes up at least two bytes of the buffer.
pub proof fn lemma_value_at_advances(s: Seq<u8>, idx: int)
    ensures
        value_at(s, idx) matches Ok((_, end)) ==> idx + 2 <= end <= s.len(),
    decreases s.len() - idx, 0int,
{
    if 0 <= idx < s.len() {
        if s[idx] == INTEGER_MARK {
            if idx + 1 < s.len() {
                lemma_digits_end(s, idx + 1);
                lemma_digits_end(s, idx + 2);
            }
        } else if s[idx] == LIST_MARK {
            lemma_items_at_advances(s, idx + 1, Seq::empty());
        } else if s[idx] == DICT_MARK {
            lemma_entries_at_advances(s, idx + 1, Map::empty());
        } else {
            lemma_bytes_at_advances(s, idx);
        }
    }
}

proof fn lemma_items_at_advances(s: Seq<u8>, idx: int, acc: Seq<Value>)
    ensures
        items_at(s, idx, acc) matches Ok((_, end)) ==> idx + 1 <= end <= s.len(),
    decreases s.len() - idx, 1int,
{
    if 0 <= idx < s.len() && s[idx] != END_MARK {
        lemma_value_at_advances(s, idx);
        if let Ok((item, next)) = value_at(s, idx) {
            lemma_items_at_advances(s, next, acc.push(item));
        }
    }
}

proof fn lemma_entries_at_advances(s: Seq<u8>, idx: int, acc: Map<Seq<u8>, Value>)
    ensures
        entries_at(s, idx, acc) matches Ok((_, end)) ==> idx + 1 <= end <= s.len(),
    decreases s.len() - idx, 1int,
{
    if 0 <= idx < s.len() && s[idx] != END_MARK {
        lemma_bytes_at_advances(s, idx);
        if let Ok((key, mid)) = bytes_at(s, idx) {
            lemma_value_at_advances(s, mid);
            if let Ok((value, next)) = value_at(s, mid) {
                lemma_entries_at_advances(s, next, acc.insert(key, value));
            }
        }
    }
}

/// The value that a buffer starts with. What follows that value in the
/// buffer is not looked at.
pub open spec fn decoded(s: Seq<u8>) -> Result<Value, DecodeError> {
    match value_at(s, 0) {
        Ok((value, _)) => Ok(value),
        Err(e) => Err(e),
    }
}

/// Reads the byte string that starts at `idx` and returns its bytes.
fn parse_bytes(s: &[u8], idx: usize) -> (r: Result<(Vec<u8>, usize), DecodeError>)
    ensures
        match bytes_at(s@, idx as int) {
            Ok((bytes, end)) => r matches Ok((b, e)) && b@ == bytes && e == end,
            Err(error) => r matches Err(e) && e == error,
        },
{
    if idx >= s.len() {
        return Err(DecodeError::Truncated);
    }
    let (stop, length) = scan_decimal(s, idx);
    if stop >= s.len() {
        return Err(DecodeError::Truncated);
    }
    if stop == idx || s[stop] != LENGTH_END {
        return Err(DecodeError::Malformed);
    }
    let start = stop + 1;
    match length {
        Some(n) if n <= s.len() - start => {
            let bytes = slice_to_vec(slice_subrange(s, start, start + n));
            Ok((bytes, start + n))
        },
        _ => Err(DecodeError::Truncated),
    }
}

/// Reads the byte string that starts at `idx`. Returns it with the place
/// where it ends.
pub fn parse_bytestring(s: &[u8], idx: usize) -> (r: Result<(Bencoded, usize), DecodeError>)
    ensures
        match bytestring_at(s@, idx as int) {
            Ok((value, end)) => r matches Ok((b, e)) && b@ == value && e == end,
            Err(error) => r matches Err(e) && e == error,
        },
        length_exceeds_buffer(s@, idx as int) ==> (r matches Err(e) && e == DecodeError::Truncated),
{
    match parse_bytes(s, idx) {
        Ok((bytes, end)) => Ok((Bencoded::Bytestring(bytes), end)),
        Err(e) => Err(e),
    }
}

/// Reads the integer whose digits start at `idx`, behind the `i`. Returns
/// it with the place where it ends.
pub fn parse_integer(s: &[u8], idx: usize) -> (r: Result<(Bencoded, usize), DecodeError>)
    ensures
        match integer_at(s@, idx as int) {
            Ok((value, end)) => r matches Ok((b, e)) && b@ == value && e == end,
            Err(error) => r matches Err(e) && e == error,
        },
{
    if idx >= s.len() {
        return Err(DecodeError::Truncated);
    }
    let negative = s[idx] == MINUS;
    let start = if negative {
        idx + 1
    } else {
        idx
    };
    let (stop, magnitude) = scan_decimal(s, start);
    if stop >= s.len() {
        return Err(DecodeError::Truncated);
    }
    if stop == start || s[stop] != END_MARK {
        return Err(DecodeError::Malformed);
    }
    let limit: usize = isize::MAX as usize;
    match magnitude {
        Some(m) if !negative && m <= limit => Ok((Bencoded::Integer(m as isize), stop + 1)),
        Some(m) if negative && m <= limit => Ok((Bencoded::Integer(-(m as isize)), stop + 1)),
        Some(m) if negative && m == limit + 1 => Ok((Bencoded::Integer(isize::MIN), stop + 1)),
        _ => Err(DecodeError::Overflow),
    }
}

/// Reads the list whose items start at `idx`, behind the `l`. Returns it
/// with the place where it ends.
pub fn parse_list(s: &[u8], idx: usize) -> (r: Result<(Bencoded, usize), DecodeError>)
    ensures
        match list_at(s@, idx as int) {
            Ok((value, end)) => r matches Ok((b, e)) && b@ == value && e == end,
            Err(error) => r matches Err(e) && e == error,
        },
    decreases s.len() - idx, 1int,
{
    let mut items: Vec<Bencoded> = Vec::new();
    let mut pos: usize = idx;
    assert(view_items(items@) =~= Seq::<Value>::empty());
    loop
        invariant
            idx <= pos,
            items_at(s@, idx as int, Seq::empty()) == items_at(s@, pos as int, view_items(items@)),
        decreases s.len() - pos,
    {
        if pos >= s.len() {
            return Err(DecodeError::Truncated);
        }
        if s[pos] == END_MARK {
            return Ok((Bencoded::List(items), pos + 1));
        }
        match parse_bencoded(s, pos) {
            Ok((item, next)) => {
                proof {
                    lemma_value_at_advances(s@, pos as int);
                    assert(view_items(items@.push(item)) =~= view_items(items@).push(item@));
                }
                items.push(item);
                pos = next;
            },
            Err(e) => {
                return Err(e);
            },
        }
    }
}

/// Reads the dictionary whose entries start at `idx`, behind the `d`.
/// Returns it with the place where it ends.
pub fn parse_dict(s: &[u8], idx: usize) -> (r: Result<(Bencoded, usize), DecodeError>)
    ensures
        match dict_at(s@, idx as int) {
            Ok((value, end)) => r matches Ok((b, e)) && b@ == value && e == end,
            Err(error) => r matches Err(e) && e == error,
        },
    decreases s.len() - idx, 1int,
{
    let mut entries = Dictionary::new();
    let mut pos: usize = idx;
    loop
        invariant
            idx <= pos,
            entries_at(s@, idx as int, Map::empty()) == entries_at(s@, pos as int, entries@),
        decreases s.len() - pos,
    {
        if pos >= s.len() {
            return Err(DecodeError::Truncated);
        }
        if s[pos] == END_MARK {
            return Ok((Bencoded::Dict(entries), pos + 1));
        }
        let (key, mid) = match parse_bytes(s, pos) {
            Ok(found) => found,
            Err(e) => {
                return Err(e);
            },
        };
        proof {
            lemma_bytes_at_advances(s@, pos as int);
        }
        match parse_bencoded(s, mid) {
            Ok((value, next)) => {
                proof {
                    lemma_value_at_advances(s@, mid as int);
                }
                entries.insert(key, value);
                pos = next;
            },
            Err(e) => {
                return Err(e);
            },
        }
    }
}

/// Reads the value that starts at `idx`. Returns it with the place where
/// it ends.
pub fn parse_bencoded(s: &[u8], idx: usize) -> (r: Result<(Bencoded, usize), DecodeError>)
    ensures
        match value_at(s@, idx as int) {
            Ok((value, end)) => r matches Ok((b, e)) && b@ == value && e == end,
            Err(error) => r matches Err(e) && e == error,
        },
        length_exceeds_buffer(s@, idx as int) ==> (r matches Err(e) && e == DecodeError::Truncated),
    decreases s.len() - idx, 0int,
{
    proof {
        if length_exceeds_buffer(s@, idx as int) {
            lemma_length_exceeds_buffer(s@, idx as int);
        }
    }
    if idx >= s.len() {
        return Err(DecodeError::Truncated);
    }
    let mark = s[idx];
    if mark == INTEGER_MARK {
        parse_integer(s, idx + 1)
    } else if mark == LIST_MARK {
        parse_list(s, idx + 1)
    } else if mark == DICT_MARK {
        parse_dict(s, idx + 1)
    } else if digit(mark) {
        parse_bytestring(s, idx)
    } else {
        Err(DecodeError::Malformed)
    }
}

/// Decodes the value that `s` starts with. Bytes that follow the value are
/// left alone. A buffer in canonical form decodes to the value that is
/// encoded as that buffer.
pub fn parse(s: &[u8]) -> (r: Result<Bencoded, DecodeError>)
    ensures
        match decoded(s@) {
            Ok(value) => r matches Ok(b) && b@ == value,
            Err(error) => r matches Err(e) && e == error,
        },
        length_exceeds_buffer(s@, 0) ==> (r matches Err(e) && e == DecodeError::Truncated),
        is_canonical(s@) ==> (r matches Ok(b) && encoded(b@) == s@),
{
    proof {
        if is_canonical(s@) {
            lemma_encode_decoded(s@);
        }
    }
    match parse_bencoded(s, 0) {
        Ok((value, _)) => Ok(value),
        Err(e) => Err(e),
    }
}

} // verus!

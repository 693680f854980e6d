//! The encoder: the bytes that a value is written as, and the functions
//! that write them.

use vstd::prelude::*;
use crate::bytes::sorted_keys;
use crate::decimal::{decimal_digits, push_decimal};
use crate::format::{DICT_MARK, END_MARK, INTEGER_MARK, LENGTH_END, LIST_MARK, MINUS};
use crate::canonical::is_canonical;
use crate::decode::{decoded, DecodeError};
use crate::roundtrip::lemma_decode_encoded;
use crate::value::{lemma_view_representable, Bencoded, Value};

verus! {

/// An integer as it is written: `i`, a `-` where it is negative, its digits
/// without leading zeros, and `e`.
pub open spec fn encoded_integer(n: int) -> Seq<u8> {
    if n < 0 {
        seq![INTEGER_MARK, MINUS] + decimal_digits((-n) as nat) + seq![END_MARK]
    } else {
        seq![INTEGER_MARK] + decimal_digits(n as nat) + seq![END_MARK]
    }
}

/// A byte string as it is written: the digits of its length, `:`, and its
/// bytes as they are.
pub open spec fn encoded_bytes(bytes: Seq<u8>) -> Seq<u8> {
    decimal_digits(bytes.len()) + seq![LENGTH_END] + bytes
}

/// A value as it is written. The entries of a dictionary stand in ascending
/// order of their keys.
pub open spec fn encoded(value: Value) -> Seq<u8>
    decreases value, 0nat,
{
    match value {
        Value::Integer(n) => encoded_integer(n),
        Value::Bytestring(bytes) => encoded_bytes(bytes),
        Value::List(items) => seq![LIST_MARK] + encoded_items(items) + seq![END_MARK],
        Value::Dict(entries) => seq![DICT_MARK] + encoded_entries(
            entries,
            sorted_keys(entries.dom()),
        ) + seq![END_MARK],
    }
}

/// The items of a list as they are written: one behind the other.
pub open spec fn encoded_items(items: Seq<Value>) -> Seq<u8>
    decreases items, 0nat,
{
    if items.len() == 0 {
        Seq::empty()
    } else {
        encoded_items(items.drop_last()) + encoded(items.last())
    }
}

/// The entries of `entries` under `keys` as they are written, in the order
/// of `keys`: each key as a byte string, and its value behind it.
pub open spec fn encoded_entries(entries: Map<Seq<u8>, Value>, keys: Seq<Seq<u8>>) -> Seq<u8>
    decreases entries, keys.len(),
{
    if keys.len() == 0 {
        Seq::empty()
    } else {
        encoded_entries(entries, keys.drop_last()) + encoded_entry(entries, keys.last())
    }
}

/// The entry of `entries` under `key` as it is written.
pub open spec fn encoded_entry(entries: Map<Seq<u8>, Value>, key: Seq<u8>) -> Seq<u8>
    decreases entries, 0nat,
{
    if entries.dom().finite() && entries.dom().contains(key) {
        encoded_bytes(key) + encoded(entries[key])
    } else {
        encoded_bytes(key)
    }
}

/// The text whose characters have the code points that `bytes` holds.
pub open spec fn as_chars(bytes: Seq<u8>) -> Seq<char> {
    Seq::new(bytes.len(), |i: int| bytes[i] as char)
}

/// `String::push` appends the character to the string and leaves the rest
/// of it as it was.
pub assume_specification[ String::push ](text: &mut String, ch: char)
    ensures
        final(text)@ == old(text)@.push(ch),
;

/// Appends a byte string as it is written.
fn push_bytes(out: &mut Vec<u8>, bytes: &[u8])
    ensures
        final(out)@ == old(out)@ + encoded_bytes(bytes@),
{
    push_decimal(out, bytes.len());
    out.push(LENGTH_END);
    out.extend_from_slice(bytes);
    assert(out@ =~= old(out)@ + encoded_bytes(bytes@));
}

impl Bencoded {
    /// Appends the value as it is written.
    fn encode_into(&self, out: &mut Vec<u8>)
        ensures
            final(out)@ == old(out)@ + encoded(self@),
        decreases self,
    {
        match self {
            Bencoded::Integer(n) => {
                out.push(INTEGER_MARK);
                if *n < 0 {
                    out.push(MINUS);
                    let magnitude: usize = if *n == isize::MIN {
                        isize::MAX as usize + 1
                    } else {
                        (-*n) as usize
                    };
                    push_decimal(out, magnitude);
                } else {
                    push_decimal(out, *n as usize);
                }
                out.push(END_MARK);
                assert(out@ =~= old(out)@ + encoded(self@));
            },
            Bencoded::Bytestring(bytes) => {
                push_bytes(out, bytes.as_slice());
            },
            Bencoded::List(items) => {
                out.push(LIST_MARK);
                let ghost all = self@->List_0;
                let mut i: usize = 0;
                while i < items.len()
                    invariant
                        i <= items.len(),
                        self == Bencoded::List(*items),
                        all == self@->List_0,
                        all.len() == items.len(),
                        out@ == old(out)@ + seq![LIST_MARK] + encoded_items(all.take(i as int)),
                    decreases items.len() - i,
                {
                    items[i].encode_into(out);
                    proof {
                        let next = all.take(i + 1);
                        assert(next.drop_last() =~= all.take(i as int));
                        assert(next.last() == items[i as int]@);
                    }
                    i += 1;
                }
                out.push(END_MARK);
                assert(all.take(items.len() as int) =~= all);
                assert(out@ =~= old(out)@ + encoded(self@));
            },
            Bencoded::Dict(entries) => {
                out.push(DICT_MARK);
                let sorted = entries.sorted_entries();
                let ghost keys = sorted_keys(entries@.dom());
                let mut i: usize = 0;
                while i < sorted.len()
                    invariant
                        i <= sorted.len(),
                        self == Bencoded::Dict(*entries),
                        keys == sorted_keys(entries@.dom()),
                        entries@.dom().finite(),
                        sorted@.len() == keys.len(),
                        forall|t: int| 0 <= t < sorted@.len() ==> (#[trigger] sorted@[t]).0@ == keys[t],
                        forall|t: int|
                            0 <= t < sorted@.len() ==> entries@.dom().contains(sorted@[t].0@) && (
                            #[trigger] sorted@[t]).1@ == entries@[sorted@[t].0@],
                        forall|t: int|
                            0 <= t < sorted@.len() ==> decreases_to!(entries => (#[trigger] sorted@[t]).1),
                        out@ == old(out)@ + seq![DICT_MARK] + encoded_entries(
                            entries@,
                            keys.take(i as int),
                        ),
                    decreases sorted.len() - i,
                {
                    let (key, value) = sorted[i];
                    let ghost before = out@;
                    assert(decreases_to!(self => self->Dict_0));
                    push_bytes(out, key);
                    value.encode_into(out);
                    proof {
                        let next = keys.take(i + 1);
                        assert(next.drop_last() =~= keys.take(i as int));
                        assert(next.last() == key@);
                        assert(out@ =~= before + encoded_entry(entries@, key@));
                    }
                    i += 1;
                }
                out.push(END_MARK);
                assert(keys.take(sorted.len() as int) =~= keys);
                assert(out@ =~= old(out)@ + encoded(self@));
            },
        }
    }

    /// The value as it is written: its one canonical encoding, which
    /// decodes to the value again.
    pub fn encode(&self) -> (bytes: Vec<u8>)
        ensures
            bytes@ == encoded(self@),
            is_canonical(bytes@),
            decoded(bytes@) == Ok::<Value, DecodeError>(self@),
    {
        let mut out: Vec<u8> = Vec::new();
        self.encode_into(&mut out);
        proof {
            assert(out@ =~= encoded(self@));
            lemma_view_representable(*self);
            lemma_decode_encoded(self@);
        }
        out
    }

    /// The encoding as text: each byte of it as the character with that
    /// code point.
    pub fn to_string(&self) -> (text: String)
        ensures
            text@ == as_chars(encoded(self@)),
    {
        let bytes = self.encode();
        let mut text = String::new();
        let mut i: usize = 0;
        while i < bytes.len()
            invariant
                i <= bytes.len(),
                text@ == as_chars(bytes@.take(i as int)),
            decreases bytes.len() - i,
        {
            text.push(bytes[i] as char);
            i += 1;
            assert(text@ =~= as_chars(bytes@.take(i as int)));
        }
        assert(bytes@.take(bytes.len() as int) =~= bytes@);
        text
    }
}

} // verus!

//! What encoding and decoding have to do with each other: decoding an
//! encoding gives the value back, the encoder writes canonical form, and
//! encoding what canonical bytes decode to gives the bytes back.

use vstd::prelude::*;
use crate::bytes::{
    lemma_lex_lt_asymmetric, lemma_lex_lt_irreflexive, lemma_lex_lt_transitive,
    lemma_sorted_keys, lemma_sorted_keys_unique, lex_lt, sorted_keys, strictly_ascending,
};
use crate::canonical::{
    canonical_at, canonical_bytes_at, canonical_entries_at, canonical_integer_at,
    canonical_items_at, is_canonical,
};
use crate::decimal::{
    decimal_digits, decimal_value, digits_end, is_digit, lemma_decimal_digits,
    lemma_decimal_digits_of_value, lemma_decimal_value_positive, lemma_digits_end,
    lemma_digits_end_is,
};
use crate::decode::{
    bytes_at, decoded, entries_at, integer_at, items_at, value_at, DecodeError,
};
use crate::encode::{
    encoded, encoded_bytes, encoded_entries, encoded_entry, encoded_integer, encoded_items,
};
use crate::format::{DICT_MARK, END_MARK, INTEGER_MARK, LENGTH_END, LIST_MARK, MINUS};
use crate::value::Value;

verus! {

/// The bytes of `part` stand in `s` from `idx` on.
pub open spec fn holds_at(s: Seq<u8>, idx: int, part: Seq<u8>) -> bool {
    0 <= idx && idx + part.len() <= s.len() && s.subrange(idx, idx + part.len()) == part
}

proof fn lemma_holds_at_index(s: Seq<u8>, idx: int, part: Seq<u8>, j: int)
    requires
        holds_at(s, idx, part),
        0 <= j < part.len(),
    ensures
        s[idx + j] == part[j],
{
    assert(s.subrange(idx, idx + part.len())[j] == s[idx + j]);
}

proof fn lemma_holds_at_split(s: Seq<u8>, idx: int, a: Seq<u8>, b: Seq<u8>)
    requires
        holds_at(s, idx, a + b),
    ensures
        holds_at(s, idx, a),
        holds_at(s, idx + a.len(), b),
{
    assert forall|j: int| 0 <= j < a.len() implies s.subrange(idx, idx + a.len())[j] == a[j] by {
        lemma_holds_at_index(s, idx, a + b, j);
    }
    assert(s.subrange(idx, idx + a.len()) =~= a);
    assert forall|j: int| 0 <= j < b.len() implies s.subrange(
        idx + a.len(),
        idx + a.len() + b.len(),
    )[j] == b[j] by {
        lemma_holds_at_index(s, idx, a + b, a.len() + j);
    }
    assert(s.subrange(idx + a.len(), idx + a.len() + b.len()) =~= b);
}

proof fn lemma_subrange_join(s: Seq<u8>, a: int, b: int, c: int)
    requires
        0 <= a <= b <= c <= s.len(),
    ensures
        s.subrange(a, b) + s.subrange(b, c) == s.subrange(a, c),
{
    assert(s.subrange(a, b) + s.subrange(b, c) =~= s.subrange(a, c));
}

/// The encoding of a byte string, where it stands in a buffer, is read as
/// that byte string, and is in canonical form.
pub proof fn lemma_bytes_at_encoded(s: Seq<u8>, idx: int, bytes: Seq<u8>)
    requires
        holds_at(s, idx, encoded_bytes(bytes)),
    ensures
        bytes_at(s, idx) == Ok::<(Seq<u8>, int), DecodeError>(
            (bytes, idx + encoded_bytes(bytes).len()),
        ),
        canonical_bytes_at(s, idx),
        is_digit(s[idx]),
{
    let digits = decimal_digits(bytes.len());
    let stop = idx + digits.len();
    lemma_decimal_digits(bytes.len());
    lemma_holds_at_split(s, idx, digits + seq![LENGTH_END], bytes);
    lemma_holds_at_split(s, idx, digits, seq![LENGTH_END]);
    assert forall|i: int| idx <= i < stop implies is_digit(#[trigger] s[i]) by {
        lemma_holds_at_index(s, idx, digits, i - idx);
    }
    lemma_holds_at_index(s, idx, digits, 0);
    lemma_holds_at_index(s, stop, seq![LENGTH_END], 0);
    lemma_digits_end_is(s, idx, stop);
}

/// The encoding of an integer, where it stands in a buffer, is read as that
/// integer, and is in canonical form.
pub proof fn lemma_integer_at_encoded(s: Seq<u8>, idx: int, n: int)
    requires
        isize::MIN <= n <= isize::MAX,
        holds_at(s, idx, encoded_integer(n)),
    ensures
        s[idx] == INTEGER_MARK,
        integer_at(s, idx + 1) == Ok::<(Value, int), DecodeError>(
            (Value::Integer(n), idx + encoded_integer(n).len()),
        ),
        canonical_integer_at(s, idx + 1),
{
    let part = encoded_integer(n);
    let magnitude = if n < 0 {
        (-n) as nat
    } else {
        n as nat
    };
    let digits = decimal_digits(magnitude);
    lemma_decimal_digits(magnitude);
    let start = if n < 0 {
        idx + 2
    } else {
        idx + 1
    };
    let stop = start + digits.len();
    lemma_holds_at_index(s, idx, part, 0);
    lemma_holds_at_index(s, idx, part, 1);
    assert forall|i: int| start <= i < stop implies is_digit(#[trigger] s[i]) by {
        lemma_holds_at_index(s, idx, part, i - idx);
    }
    lemma_holds_at_index(s, idx, part, start - idx);
    lemma_holds_at_index(s, idx, part, stop - idx);
    lemma_digits_end_is(s, start, stop);
    assert(s.subrange(start, stop) =~= digits) by {
        assert forall|j: int| 0 <= j < digits.len() implies s.subrange(start, stop)[j]
            == digits[j] by {
            lemma_holds_at_index(s, idx, part, start - idx + j);
        }
    }
}

/// The first byte of an encoding opens a value: it is not the `e` that
/// closes a list or a dictionary.
pub proof fn lemma_encoded_first(value: Value)
    ensures
        encoded(value).len() >= 2,
        encoded(value)[0] != END_MARK,
{
    match value {
        Value::Integer(n) => {
            if n < 0 {
                lemma_decimal_digits((-n) as nat);
            } else {
                lemma_decimal_digits(n as nat);
            }
        },
        Value::Bytestring(bytes) => {
            lemma_decimal_digits(bytes.len());
        },
        Value::List(items) => {},
        Value::Dict(entries) => {},
    }
}

/// What the items before the `k`th are written as, and then the `k`th, is
/// what the items up to the `k`th are written as, and stands where all of
/// them do.
proof fn lemma_item_holds(s: Seq<u8>, start: int, items: Seq<Value>, k: int)
    requires
        holds_at(s, start, encoded_items(items)),
        0 <= k < items.len(),
    ensures
        encoded_items(items.take(k + 1)) == encoded_items(items.take(k)) + encoded(items[k]),
        encoded_items(items.take(k + 1)).len() <= encoded_items(items).len(),
        holds_at(s, start + encoded_items(items.take(k)).len(), encoded(items[k])),
{
    lemma_encoded_items_prefix(items, k + 1);
    let done = encoded_items(items.take(k));
    let here = encoded(items[k]);
    let whole = encoded_items(items);
    assert(items.take(k + 1).drop_last() =~= items.take(k));
    assert(whole =~= (done + here) + whole.skip((done + here).len() as int));
    lemma_holds_at_split(s, start, done + here, whole.skip((done + here).len() as int));
    lemma_holds_at_split(s, start, done, here);
}

/// The items of `items` before the `k`th are written at the start of what
/// all of them are written as.
proof fn lemma_encoded_items_prefix(items: Seq<Value>, k: int)
    requires
        0 <= k <= items.len(),
    ensures
        encoded_items(items.take(k)).len() <= encoded_items(items).len(),
        encoded_items(items).take(encoded_items(items.take(k)).len() as int) == encoded_items(
            items.take(k),
        ),
    decreases items.len(),
{
    if k == items.len() {
        assert(items.take(k) =~= items);
        assert(encoded_items(items).take(encoded_items(items).len() as int) =~= encoded_items(
            items,
        ));
    } else {
        let rest = items.drop_last();
        lemma_encoded_items_prefix(rest, k);
        assert(rest.take(k) =~= items.take(k));
        let n = encoded_items(items.take(k)).len() as int;
        assert(encoded_items(items).take(n) =~= encoded_items(rest).take(n));
    }
}

proof fn lemma_entry_holds(
    s: Seq<u8>,
    start: int,
    entries: Map<Seq<u8>, Value>,
    keys: Seq<Seq<u8>>,
    k: int,
)
    requires
        entries.dom().finite(),
        entries.dom().contains(keys[k]),
        holds_at(s, start, encoded_entries(entries, keys)),
        0 <= k < keys.len(),
    ensures
        encoded_entries(entries, keys.take(k + 1)) == encoded_entries(entries, keys.take(k))
            + encoded_bytes(keys[k]) + encoded(entries[keys[k]]),
        encoded_entries(entries, keys.take(k + 1)).len() <= encoded_entries(entries, keys).len(),
        holds_at(s, start + encoded_entries(entries, keys.take(k)).len(), encoded_bytes(keys[k])),
        holds_at(
            s,
            start + encoded_entries(entries, keys.take(k)).len() + encoded_bytes(keys[k]).len(),
            encoded(entries[keys[k]]),
        ),
{
    lemma_encoded_entries_prefix(entries, keys, k + 1);
    let done = encoded_entries(entries, keys.take(k));
    let here = encoded_entry(entries, keys[k]);
    let whole = encoded_entries(entries, keys);
    assert(keys.take(k + 1).drop_last() =~= keys.take(k));
    assert(encoded_entries(entries, keys.take(k + 1)) == done + here);
    assert(done + here =~= done + encoded_bytes(keys[k]) + encoded(entries[keys[k]]));
    assert(whole =~= (done + here) + whole.skip((done + here).len() as int));
    lemma_holds_at_split(s, start, done + here, whole.skip((done + here).len() as int));
    lemma_holds_at_split(s, start, done, here);
    lemma_holds_at_split(s, start + done.len(), encoded_bytes(keys[k]), encoded(entries[keys[k]]));
}

proof fn lemma_encoded_entries_prefix(entries: Map<Seq<u8>, Value>, keys: Seq<Seq<u8>>, k: int)
    requires
        0 <= k <= keys.len(),
    ensures
        encoded_entries(entries, keys.take(k)).len() <= encoded_entries(entries, keys).len(),
        encoded_entries(entries, keys).take(encoded_entries(entries, keys.take(k)).len() as int)
            == encoded_entries(entries, keys.take(k)),
    decreases keys.len(),
{
    if k == keys.len() {
        assert(keys.take(k) =~= keys);
        assert(encoded_entries(entries, keys).take(encoded_entries(entries, keys).len() as int)
            =~= encoded_entries(entries, keys));
    } else {
        let rest = keys.drop_last();
        lemma_encoded_entries_prefix(entries, rest, k);
        assert(rest.take(k) =~= keys.take(k));
        let n = encoded_entries(entries, keys.take(k)).len() as int;
        assert(encoded_entries(entries, keys).take(n) =~= encoded_entries(entries, rest).take(n));
    }
}

/// `acc` with the entries of `entries` under `keys` put in, one after the
/// other.
spec fn with_entries(
    acc: Map<Seq<u8>, Value>,
    entries: Map<Seq<u8>, Value>,
    keys: Seq<Seq<u8>>,
) -> Map<Seq<u8>, Value>
    decreases keys.len(),
{
    if keys.len() == 0 {
        acc
    } else {
        with_entries(acc, entries, keys.drop_last()).insert(keys.last(), entries[keys.last()])
    }
}

proof fn lemma_with_entries(entries: Map<Seq<u8>, Value>, keys: Seq<Seq<u8>>)
    ensures
        with_entries(Map::empty(), entries, keys).dom() == keys.to_set(),
        forall|k: Seq<u8>|
            keys.contains(k) ==> with_entries(Map::empty(), entries, keys)[k] == entries[k],
    decreases keys.len(),
{
    let whole = with_entries(Map::empty(), entries, keys);
    if keys.len() == 0 {
        assert(whole.dom() =~= keys.to_set());
    } else {
        let rest = keys.drop_last();
        lemma_with_entries(entries, rest);
        assert(keys =~= rest.push(keys.last()));
        rest.lemma_push_to_set_commute(keys.last());
        assert(whole.dom() =~= keys.to_set());
        assert forall|k: Seq<u8>| keys.contains(k) implies whole[k] == entries[k] by {
            if k != keys.last() {
                let i = choose|i: int| 0 <= i < keys.len() && keys[i] == k;
                assert(rest[i] == k);
                assert(rest.contains(k));
            }
        }
    }
}

/// Reading the buffer from `idx` on finds `value` where the encoding of
/// `value` stands there, whatever stands before and behind it; and what
/// stands there is in canonical form.
pub proof fn lemma_value_at_encoded(s: Seq<u8>, idx: int, value: Value)
    requires
        value.representable(),
        holds_at(s, idx, encoded(value)),
    ensures
        value_at(s, idx) == Ok::<(Value, int), DecodeError>((value, idx + encoded(value).len())),
        canonical_at(s, idx),
    decreases value, 0nat, 0nat,
{
    let part = encoded(value);
    lemma_encoded_first(value);
    lemma_holds_at_index(s, idx, part, 0);
    match value {
        Value::Integer(n) => {
            lemma_integer_at_encoded(s, idx, n);
        },
        Value::Bytestring(bytes) => {
            lemma_bytes_at_encoded(s, idx, bytes);
        },
        Value::List(items) => {
            let body = encoded_items(items);
            lemma_holds_at_split(s, idx, seq![LIST_MARK] + body, seq![END_MARK]);
            lemma_holds_at_split(s, idx, seq![LIST_MARK], body);
            lemma_holds_at_index(s, idx + 1 + body.len(), seq![END_MARK], 0);
            lemma_items_at_encoded(s, idx + 1, items, items.len() as int);
            lemma_items_canonical(s, idx + 1, items, 0);
            assert(items.take(items.len() as int) =~= items);
            assert(items.take(0) =~= Seq::<Value>::empty());
        },
        Value::Dict(entries) => {
            let keys = sorted_keys(entries.dom());
            let body = encoded_entries(entries, keys);
            lemma_sorted_keys(entries.dom());
            assert forall|i: int| 0 <= i < keys.len() implies entries.dom().contains(
                #[trigger] keys[i],
            ) by {
                assert(keys.contains(keys[i]));
            }
            lemma_holds_at_split(s, idx, seq![DICT_MARK] + body, seq![END_MARK]);
            lemma_holds_at_split(s, idx, seq![DICT_MARK], body);
            lemma_holds_at_index(s, idx + 1 + body.len(), seq![END_MARK], 0);
            lemma_entries_at_encoded(s, idx + 1, entries, keys, keys.len() as int);
            lemma_entries_canonical(s, idx + 1, entries, keys, 0);
            assert(keys.take(keys.len() as int) =~= keys);
            assert(keys.take(0) =~= Seq::<Seq<u8>>::empty());
            lemma_with_entries(entries, keys);
            assert(with_entries(Map::empty(), entries, keys) =~= entries);
        },
    }
}

proof fn lemma_items_at_encoded(s: Seq<u8>, start: int, items: Seq<Value>, k: int)
    requires
        forall|i: int| 0 <= i < items.len() ==> (#[trigger] items[i]).representable(),
        holds_at(s, start, encoded_items(items)),
        0 <= k <= items.len(),
    ensures
        encoded_items(items.take(k)).len() <= encoded_items(items).len(),
        items_at(s, start, Seq::empty()) == items_at(
            s,
            start + encoded_items(items.take(k)).len(),
            items.take(k),
        ),
    decreases items, 1nat, k,
{
    lemma_encoded_items_prefix(items, k);
    if k == 0 {
        assert(items.take(0) =~= Seq::<Value>::empty());
    } else {
        lemma_items_at_encoded(s, start, items, k - 1);
        lemma_item_holds(s, start, items, k - 1);
        let item = items[k - 1];
        let here = start + encoded_items(items.take(k - 1)).len();
        lemma_encoded_first(item);
        lemma_holds_at_index(s, here, encoded(item), 0);
        lemma_value_at_encoded(s, here, item);
        assert(items.take(k - 1).push(item) =~= items.take(k));
    }
}

proof fn lemma_items_canonical(s: Seq<u8>, start: int, items: Seq<Value>, k: int)
    requires
        forall|i: int| 0 <= i < items.len() ==> (#[trigger] items[i]).representable(),
        holds_at(s, start, encoded_items(items)),
        start + encoded_items(items).len() < s.len(),
        s[start + encoded_items(items).len()] == END_MARK,
        0 <= k <= items.len(),
    ensures
        canonical_items_at(s, start + encoded_items(items.take(k)).len()),
    decreases items, 1nat, items.len() - k,
{
    lemma_encoded_items_prefix(items, k);
    if k == items.len() {
        assert(items.take(k) =~= items);
    } else {
        lemma_items_canonical(s, start, items, k + 1);
        lemma_item_holds(s, start, items, k);
        let item = items[k];
        let here = start + encoded_items(items.take(k)).len();
        lemma_encoded_first(item);
        lemma_holds_at_index(s, here, encoded(item), 0);
        lemma_value_at_encoded(s, here, item);
    }
}

proof fn lemma_entries_at_encoded(
    s: Seq<u8>,
    start: int,
    entries: Map<Seq<u8>, Value>,
    keys: Seq<Seq<u8>>,
    k: int,
)
    requires
        entries.dom().finite(),
        forall|key: Seq<u8>| entries.dom().contains(key) ==> (#[trigger] entries[key]).representable(),
        forall|i: int| 0 <= i < keys.len() ==> entries.dom().contains(#[trigger] keys[i]),
        holds_at(s, start, encoded_entries(entries, keys)),
        0 <= k <= keys.len(),
    ensures
        encoded_entries(entries, keys.take(k)).len() <= encoded_entries(entries, keys).len(),
        entries_at(s, start, Map::empty()) == entries_at(
            s,
            start + encoded_entries(entries, keys.take(k)).len(),
            with_entries(Map::empty(), entries, keys.take(k)),
        ),
    decreases entries, 1nat, k,
{
    lemma_encoded_entries_prefix(entries, keys, k);
    if k == 0 {
        assert(keys.take(0) =~= Seq::<Seq<u8>>::empty());
    } else {
        lemma_entries_at_encoded(s, start, entries, keys, k - 1);
        lemma_entry_holds(s, start, entries, keys, k - 1);
        let key = keys[k - 1];
        let value = entries[key];
        let here = start + encoded_entries(entries, keys.take(k - 1)).len();
        lemma_bytes_at_encoded(s, here, key);
        lemma_value_at_encoded(s, here + encoded_bytes(key).len(), value);
        lemma_encoded_first(value);
        assert(keys.take(k).drop_last() =~= keys.take(k - 1));
    }
}

proof fn lemma_entries_canonical(
    s: Seq<u8>,
    start: int,
    entries: Map<Seq<u8>, Value>,
    keys: Seq<Seq<u8>>,
    k: int,
)
    requires
        entries.dom().finite(),
        forall|key: Seq<u8>| entries.dom().contains(key) ==> (#[trigger] entries[key]).representable(),
        forall|i: int| 0 <= i < keys.len() ==> entries.dom().contains(#[trigger] keys[i]),
        strictly_ascending(keys),
        holds_at(s, start, encoded_entries(entries, keys)),
        start + encoded_entries(entries, keys).len() < s.len(),
        s[start + encoded_entries(entries, keys).len()] == END_MARK,
        0 <= k <= keys.len(),
    ensures
        canonical_entries_at(
            s,
            start + encoded_entries(entries, keys.take(k)).len(),
            if k == 0 {
                None
            } else {
                Some(keys[k - 1])
            },
        ),
    decreases entries, 1nat, keys.len() - k,
{
    lemma_encoded_entries_prefix(entries, keys, k);
    if k == keys.len() {
        assert(keys.take(k) =~= keys);
    } else {
        lemma_entries_canonical(s, start, entries, keys, k + 1);
        lemma_entry_holds(s, start, entries, keys, k);
        let key = keys[k];
        let value = entries[key];
        let here = start + encoded_entries(entries, keys.take(k)).len();
        lemma_bytes_at_encoded(s, here, key);
        lemma_value_at_encoded(s, here + encoded_bytes(key).len(), value);
        lemma_encoded_first(value);
        if k > 0 {
            assert(lex_lt(keys[k - 1], keys[k]));
        }
    }
}

/// A byte string in canonical form is written as the encoder writes it.
pub proof fn lemma_canonical_bytes(s: Seq<u8>, idx: int)
    requires
        canonical_bytes_at(s, idx),
    ensures
        bytes_at(s, idx) matches Ok((bytes, end)) && idx < end <= s.len() && s.subrange(idx, end)
            == encoded_bytes(bytes),
{
    let stop = digits_end(s, idx);
    lemma_digits_end(s, idx);
    let digits = s.subrange(idx, stop);
    assert(digits[0] == s[idx]);
    lemma_decimal_digits_of_value(digits);
    let n = decimal_value(digits);
    assert(s.subrange(idx, stop + 1 + n) =~= digits + seq![LENGTH_END] + s.subrange(
        stop + 1,
        stop + 1 + n,
    ));
}

/// An integer in canonical form is written as the encoder writes it.
pub proof fn lemma_canonical_integer(s: Seq<u8>, idx: int)
    requires
        0 < idx,
        s[idx - 1] == INTEGER_MARK,
        canonical_integer_at(s, idx),
    ensures
        integer_at(s, idx) matches Ok((value, end)) && idx < end <= s.len() && s.subrange(
            idx - 1,
            end,
        ) == encoded(value),
{
    let negative = s[idx] == MINUS;
    let start = if negative {
        idx + 1
    } else {
        idx
    };
    let stop = digits_end(s, start);
    lemma_digits_end(s, start);
    let digits = s.subrange(start, stop);
    assert(digits[0] == s[start]);
    lemma_decimal_digits_of_value(digits);
    if negative {
        lemma_decimal_value_positive(digits);
        assert(s.subrange(idx - 1, stop + 1) =~= seq![INTEGER_MARK, MINUS] + digits
            + seq![END_MARK]);
    } else {
        assert(s.subrange(idx - 1, stop + 1) =~= seq![INTEGER_MARK] + digits + seq![END_MARK]);
    }
}

proof fn lemma_encoded_items_first(first: Value, rest: Seq<Value>)
    ensures
        encoded_items(seq![first] + rest) == encoded(first) + encoded_items(rest),
    decreases rest.len(),
{
    let all = seq![first] + rest;
    if rest.len() == 0 {
        assert(all.drop_last() =~= Seq::<Value>::empty());
        assert(encoded_items(all.drop_last()) =~= Seq::<u8>::empty());
        assert(encoded_items(all) =~= encoded(first) + encoded_items(rest));
    } else {
        lemma_encoded_items_first(first, rest.drop_last());
        assert(all.drop_last() =~= seq![first] + rest.drop_last());
        assert(all.last() == rest.last());
        assert(encoded_items(all) =~= encoded(first) + encoded_items(rest));
    }
}

proof fn lemma_encoded_entries_first(
    entries: Map<Seq<u8>, Value>,
    first: Seq<u8>,
    rest: Seq<Seq<u8>>,
)
    ensures
        encoded_entries(entries, seq![first] + rest) == encoded_entry(entries, first)
            + encoded_entries(entries, rest),
    decreases rest.len(),
{
    let all = seq![first] + rest;
    if rest.len() == 0 {
        assert(all.drop_last() =~= Seq::<Seq<u8>>::empty());
        assert(encoded_entries(entries, all.drop_last()) =~= Seq::<u8>::empty());
        assert(encoded_entries(entries, all) =~= encoded_entry(entries, first) + encoded_entries(
            entries,
            rest,
        ));
    } else {
        lemma_encoded_entries_first(entries, first, rest.drop_last());
        assert(all.drop_last() =~= seq![first] + rest.drop_last());
        assert(all.last() == rest.last());
        assert(encoded_entries(entries, all) =~= encoded_entry(entries, first) + encoded_entries(
            entries,
            rest,
        ));
    }
}

/// Canonical bytes are what the encoder writes for the value that they are
/// read as.
pub proof fn lemma_canonical_at(s: Seq<u8>, idx: int)
    requires
        canonical_at(s, idx),
    ensures
        value_at(s, idx) matches Ok((value, end)) && idx < end <= s.len() && s.subrange(idx, end)
            == encoded(value),
    decreases s.len() - idx, 0nat,
{
    if s[idx] == INTEGER_MARK {
        lemma_canonical_integer(s, idx + 1);
    } else if s[idx] == LIST_MARK {
        lemma_canonical_items(s, idx + 1, Seq::empty());
        let (items, end) = items_at(s, idx + 1, Seq::empty())->Ok_0;
        assert(items.skip(0) =~= items);
        assert(s.subrange(idx, end) =~= seq![LIST_MARK] + s.subrange(idx + 1, end));
        assert(s.subrange(idx, end) =~= seq![LIST_MARK] + encoded_items(items) + seq![END_MARK]);
    } else if s[idx] == DICT_MARK {
        let keys = lemma_canonical_entries(s, idx + 1, Map::empty(), None);
        let (entries, end) = entries_at(s, idx + 1, Map::empty())->Ok_0;
        assert(entries.dom() =~= keys.to_set());
        lemma_sorted_keys_unique(keys, entries.dom());
        assert(s.subrange(idx, end) =~= seq![DICT_MARK] + s.subrange(idx + 1, end));
        assert(s.subrange(idx, end) =~= seq![DICT_MARK] + encoded_entries(entries, keys)
            + seq![END_MARK]);
    } else {
        lemma_canonical_bytes(s, idx);
        lemma_digits_end(s, idx);
    }
}

proof fn lemma_canonical_items(s: Seq<u8>, idx: int, acc: Seq<Value>)
    requires
        canonical_items_at(s, idx),
    ensures
        items_at(s, idx, acc) matches Ok((all, end)) && idx < end <= s.len() && all.len()
            >= acc.len() && all.take(acc.len() as int) == acc && s.subrange(idx, end)
            == encoded_items(all.skip(acc.len() as int)) + seq![END_MARK],
    decreases s.len() - idx, 1nat,
{
    if s[idx] == END_MARK {
        assert(acc.take(acc.len() as int) =~= acc);
        assert(acc.skip(acc.len() as int) =~= Seq::<Value>::empty());
        assert(s.subrange(idx, idx + 1) =~= seq![END_MARK]);
    } else {
        lemma_canonical_at(s, idx);
        let (item, next) = value_at(s, idx)->Ok_0;
        lemma_canonical_items(s, next, acc.push(item));
        let (all, end) = items_at(s, next, acc.push(item))->Ok_0;
        let n = acc.len() as int;
        assert(all.take(n) =~= all.take(n + 1).take(n));
        assert(all.take(n) =~= acc);
        assert(all[n] == all.take(n + 1)[n]);
        assert(all.skip(n) =~= seq![item] + all.skip(n + 1));
        lemma_encoded_items_first(item, all.skip(n + 1));
        lemma_subrange_join(s, idx, next, end);
        assert(s.subrange(idx, end) =~= encoded_items(all.skip(n)) + seq![END_MARK]);
    }
}

/// `key` is `floor` or comes before it.
spec fn up_to(key: Seq<u8>, floor: Option<Seq<u8>>) -> bool {
    floor matches Some(before) && (key == before || lex_lt(key, before))
}

/// `key` comes behind `floor`, where there is one.
spec fn above(key: Seq<u8>, floor: Option<Seq<u8>>) -> bool {
    floor matches Some(before) ==> lex_lt(before, key)
}

/// Returns the keys of the entries that stand from `idx` on, in the order
/// in which they stand there.
proof fn lemma_canonical_entries(
    s: Seq<u8>,
    idx: int,
    acc: Map<Seq<u8>, Value>,
    floor: Option<Seq<u8>>,
) -> (keys: Seq<Seq<u8>>)
    requires
        canonical_entries_at(s, idx, floor),
        acc.dom().finite(),
        forall|k: Seq<u8>| acc.dom().contains(k) ==> up_to(k, floor),
    ensures
        strictly_ascending(keys),
        forall|i: int| 0 <= i < keys.len() ==> above(#[trigger] keys[i], floor),
        entries_at(s, idx, acc) matches Ok((all, end)) && idx < end <= s.len() && all.dom().finite()
            && all.dom() == acc.dom().union(keys.to_set()) && (forall|k: Seq<u8>|
            acc.dom().contains(k) ==> all[k] == acc[k]) && s.subrange(idx, end) == encoded_entries(
            all,
            keys,
        ) + seq![END_MARK],
    decreases s.len() - idx, 1nat,
{
    if s[idx] == END_MARK {
        let keys = Seq::<Seq<u8>>::empty();
        assert(acc.dom() =~= acc.dom().union(keys.to_set()));
        assert(s.subrange(idx, idx + 1) =~= seq![END_MARK]);
        keys
    } else {
        let (key, mid) = bytes_at(s, idx)->Ok_0;
        lemma_canonical_bytes(s, idx);
        lemma_canonical_at(s, mid);
        let (value, next) = value_at(s, mid)->Ok_0;
        let acc1 = acc.insert(key, value);
        assert forall|k: Seq<u8>| acc1.dom().contains(k) implies up_to(k, Some(key)) by {
            if k != key {
                assert(up_to(k, floor));
                let before = floor->Some_0;
                if k != before {
                    lemma_lex_lt_transitive(k, before, key);
                }
            }
        }
        let rest = lemma_canonical_entries(s, next, acc1, Some(key));
        let (all, end) = entries_at(s, next, acc1)->Ok_0;
        let keys = seq![key] + rest;
        assert forall|i: int, j: int| 0 <= i < j < keys.len() implies lex_lt(
            #[trigger] keys[i],
            #[trigger] keys[j],
        ) by {
            if i == 0 {
                assert(above(rest[j - 1], Some(key)));
            } else {
                assert(lex_lt(rest[i - 1], rest[j - 1]));
            }
        }
        assert forall|i: int| 0 <= i < keys.len() implies above(#[trigger] keys[i], floor) by {
            if floor is Some && i > 0 {
                assert(above(rest[i - 1], Some(key)));
                lemma_lex_lt_transitive(floor->Some_0, key, rest[i - 1]);
            }
        }
        assert(all.dom() =~= acc.dom().union(keys.to_set())) by {
            assert forall|k: Seq<u8>| keys.contains(k) <==> k == key || rest.contains(k) by {
                if keys.contains(k) {
                    let i = choose|i: int| 0 <= i < keys.len() && keys[i] == k;
                    if i > 0 {
                        assert(rest[i - 1] == k);
                    }
                }
                if rest.contains(k) {
                    let i = choose|i: int| 0 <= i < rest.len() && rest[i] == k;
                    assert(keys[i + 1] == k);
                }
                if k == key {
                    assert(keys[0] == k);
                }
            }
        }
        assert forall|k: Seq<u8>| acc.dom().contains(k) implies all[k] == acc[k] by {
            assert(up_to(k, floor));
            let before = floor->Some_0;
            if k == before {
                lemma_lex_lt_irreflexive(key);
            } else {
                lemma_lex_lt_asymmetric(k, before);
                lemma_lex_lt_transitive(k, before, key);
                lemma_lex_lt_irreflexive(key);
            }
            assert(acc1.dom().contains(k));
        }
        assert(acc1.dom().contains(key));
        assert(all[key] == value);
        lemma_encoded_entries_first(all, key, rest);
        lemma_subrange_join(s, idx, mid, next);
        lemma_subrange_join(s, idx, next, end);
        assert(s.subrange(idx, end) =~= encoded_entries(all, keys) + seq![END_MARK]);
        keys
    }
}

/// Decoding what a value is encoded as gives that value back, and what a
/// value is encoded as is in canonical form.
pub proof fn lemma_decode_encoded(value: Value)
    requires
        value.representable(),
    ensures
        decoded(encoded(value)) == Ok::<Value, DecodeError>(value),
        is_canonical(encoded(value)),
{
    let s = encoded(value);
    assert(s.subrange(0, s.len() as int) =~= s);
    lemma_value_at_encoded(s, 0, value);
}

/// Encoding what canonical bytes decode to gives the bytes back, each of
/// them.
pub proof fn lemma_encode_decoded(s: Seq<u8>)
    requires
        is_canonical(s),
    ensures
        decoded(s) matches Ok(value) && encoded(value) == s,
{
    lemma_canonical_at(s, 0);
    assert(s.subrange(0, s.len() as int) =~= s);
}

} // verus!

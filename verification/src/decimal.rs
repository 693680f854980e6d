//! Numbers in base 10, as the integers and the length prefixes of the format
//! are written: what a run of digits is worth, and the digits of a number.

use vstd::prelude::*;

verus! {

/// Whether `b` is one of the ASCII digits `0` to `9`.
pub open spec fn is_digit(b: u8) -> bool {
    0x30 <= b <= 0x39
}

/// Whether every byte of `s` is a digit.
pub open spec fn all_digits(s: Seq<u8>) -> bool {
    forall|i: int| 0 <= i < s.len() ==> is_digit(#[trigger] s[i])
}

/// The number that the digits stand for in base 10, the first digit being the
/// most significant; 0 where there is no digit.
pub open spec fn decimal_value(digits: Seq<u8>) -> nat
    decreases digits.len(),
{
    if digits.len() == 0 {
        0
    } else {
        (decimal_value(digits.drop_last()) * 10 + (digits.last() - 0x30)) as nat
    }
}

/// The digits of `n` in base 10, without leading zeros; `0` for zero.
pub open spec fn decimal_digits(n: nat) -> Seq<u8>
    decreases n,
{
    if n < 10 {
        seq![(0x30 + n) as u8]
    } else {
        decimal_digits(n / 10).push((0x30 + n % 10) as u8)
    }
}

/// The first position from `idx` on that holds no digit: the end of `s`
/// where digits run up to it.
pub open spec fn digits_end(s: Seq<u8>, idx: int) -> int
    decreases s.len() - idx,
{
    if 0 <= idx < s.len() && is_digit(s[idx]) {
        digits_end(s, idx + 1)
    } else {
        idx
    }
}

/// The digits of a number are digits, at least one of them, with no leading
/// zero but for zero itself, and they stand for that number.
pub proof fn lemma_decimal_digits(n: nat)
    ensures
        decimal_digits(n).len() >= 1,
        all_digits(decimal_digits(n)),
        decimal_value(decimal_digits(n)) == n,
        decimal_digits(n)[0] == 0x30 <==> n == 0,
    decreases n,
{
    if n < 10 {
        let d = decimal_digits(n);
        assert(d.drop_last() =~= Seq::<u8>::empty());
        assert(decimal_value(d.drop_last()) == 0);
    } else {
        lemma_decimal_digits(n / 10);
        let d = decimal_digits(n);
        assert(d.drop_last() =~= decimal_digits(n / 10));
    }
}

/// A run of digits without a leading zero is the digits of its value.
pub proof fn lemma_decimal_digits_of_value(digits: Seq<u8>)
    requires
        digits.len() >= 1,
        all_digits(digits),
        digits.len() > 1 ==> digits[0] != 0x30,
    ensures
        decimal_digits(decimal_value(digits)) == digits,
    decreases digits.len(),
{
    let n = decimal_value(digits);
    let init = digits.drop_last();
    assert(is_digit(digits.last()));
    if digits.len() == 1 {
        assert(init =~= Seq::<u8>::empty());
        assert(decimal_value(init) == 0);
        assert(decimal_digits(n) =~= digits);
    } else {
        assert(init[0] == digits[0]);
        assert(is_digit(init[0]));
        lemma_decimal_digits_of_value(init);
        lemma_decimal_value_positive(init);
        assert(n / 10 == decimal_value(init));
        assert(decimal_digits(n) =~= digits);
    }
}

/// A run of digits that starts with another digit than `0` is worth more
/// than nothing.
pub proof fn lemma_decimal_value_positive(digits: Seq<u8>)
    requires
        digits.len() >= 1,
        all_digits(digits),
        digits[0] != 0x30,
    ensures
        decimal_value(digits) > 0,
    decreases digits.len(),
{
    assert(is_digit(digits.last()));
    assert(is_digit(digits[0]));
    if digits.len() > 1 {
        assert(digits.drop_last()[0] == digits[0]);
        lemma_decimal_value_positive(digits.drop_last());
    } else {
        assert(digits.drop_last() =~= Seq::<u8>::empty());
    }
}

/// Where the digits from `idx` on end: everything before that place is a
/// digit, and the place itself is the end of `s` or holds no digit.
pub proof fn lemma_digits_end(s: Seq<u8>, idx: int)
    requires
        0 <= idx <= s.len(),
    ensures
        idx <= digits_end(s, idx) <= s.len(),
        all_digits(s.subrange(idx, digits_end(s, idx))),
        digits_end(s, idx) < s.len() ==> !is_digit(s[digits_end(s, idx)]),
    decreases s.len() - idx,
{
    if idx < s.len() && is_digit(s[idx]) {
        lemma_digits_end(s, idx + 1);
        let stop = digits_end(s, idx);
        assert forall|i: int| 0 <= i < stop - idx implies is_digit(
            #[trigger] s.subrange(idx, stop)[i],
        ) by {
            if i > 0 {
                assert(s.subrange(idx, stop)[i] == s.subrange(idx + 1, stop)[i - 1]);
            }
        }
    }
}

/// The digits from `idx` on end at `stop` where all before it are digits and
/// `stop` itself is the end of `s` or holds no digit.
pub proof fn lemma_digits_end_is(s: Seq<u8>, idx: int, stop: int)
    requires
        0 <= idx <= stop <= s.len(),
        forall|i: int| idx <= i < stop ==> is_digit(#[trigger] s[i]),
        stop < s.len() ==> !is_digit(s[stop]),
    ensures
        digits_end(s, idx) == stop,
    decreases stop - idx,
{
    if idx < stop {
        lemma_digits_end_is(s, idx + 1, stop);
    }
}

/// Whether `b` is a digit.
pub(crate) fn digit(b: u8) -> (r: bool)
    ensures
        r == is_digit(b),
{
    0x30 <= b && b <= 0x39
}

/// Appends the digits of `n` to `out`.
pub(crate) fn push_decimal(out: &mut Vec<u8>, n: usize)
    ensures
        final(out)@ == old(out)@ + decimal_digits(n as nat),
    decreases n,
{
    if n >= 10 {
        push_decimal(out, n / 10);
    }
    let digit: u8 = (n % 10) as u8;
    out.push(0x30 + digit);
    assert(out@ =~= old(out)@ + decimal_digits(n as nat));
}

/// Reads the digits of `s` from `start` on. Returns where they end, and
/// what they are worth where that fits the machine word.
pub(crate) fn scan_decimal(s: &[u8], start: usize) -> (r: (usize, Option<usize>))
    requires
        start <= s.len(),
    ensures
        r.0 == digits_end(s@, start as int),
        start <= r.0 <= s.len(),
        match r.1 {
            Some(n) => n == decimal_value(s@.subrange(start as int, r.0 as int)),
            None => decimal_value(s@.subrange(start as int, r.0 as int)) > usize::MAX,
        },
{
    let mut pos: usize = start;
    let mut n: usize = 0;
    let mut fits: bool = true;
    assert(s@.subrange(start as int, start as int) =~= Seq::<u8>::empty());
    while pos < s.len() && digit(s[pos])
        invariant
            start <= pos <= s.len(),
            forall|i: int| start <= i < pos ==> is_digit(#[trigger] s@[i]),
            fits ==> n == decimal_value(s@.subrange(start as int, pos as int)),
            !fits ==> decimal_value(s@.subrange(start as int, pos as int)) > usize::MAX,
        decreases s.len() - pos,
    {
        let digit: usize = (s[pos] - 0x30) as usize;
        proof {
            let next = s@.subrange(start as int, pos + 1);
            assert(next.drop_last() =~= s@.subrange(start as int, pos as int));
            assert(next.last() == s@[pos as int]);
        }
        if fits && n <= (usize::MAX - digit) / 10 {
            n = n * 10 + digit;
        } else {
            fits = false;
        }
        pos += 1;
    }
    proof {
        lemma_digits_end_is(s@, start as int, pos as int);
    }
    if fits {
        (pos, Some(n))
    } else {
        (pos, None)
    }
}

} // verus!

//! The pieces that dice notation is made of: blanks, digits and decimal
//! numbers, read from bytes.

use vstd::prelude::*;

verus! {

/// A space or a tab.
pub open spec fn is_blank(byte: u8) -> bool {
    byte == 0x20 || byte == 0x09
}

/// One of the ten decimal digits.
pub open spec fn is_digit(byte: u8) -> bool {
    0x30 <= byte <= 0x39
}

/// The first position at or after `from` that holds no blank; the end of `s`
/// when blanks fill the rest of it.
pub open spec fn blanks_end(s: Seq<u8>, from: int) -> int
    decreases s.len() - from,
{
    if 0 <= from < s.len() && is_blank(s[from]) {
        blanks_end(s, from + 1)
    } else {
        from
    }
}

/// The first position at or after `from` that holds no digit; the end of `s`
/// when digits fill the rest of it.
pub open spec fn digits_end(s: Seq<u8>, from: int) -> int
    decreases s.len() - from,
{
    if 0 <= from < s.len() && is_digit(s[from]) {
        digits_end(s, from + 1)
    } else {
        from
    }
}

/// The number that the decimal digits `digits` spell, most significant digit
/// first. No digits spell zero.
pub open spec fn decimal_value(digits: Seq<u8>) -> nat
    decreases digits.len(),
{
    if digits.len() == 0 {
        0
    } else {
        10 * decimal_value(digits.drop_last()) + (digits.last() - 0x30) as nat
    }
}

/// Whether the bytes of `s` from `from` up to `to` are all ASCII.
pub open spec fn is_ascii_run(s: Seq<u8>, from: int, to: int) -> bool {
    forall|i: int| from <= i < to ==> #[trigger] s[i] < 0x80
}

/// Blanks end at or after the position they are sought from, within `s`, and
/// everything passed over is a blank.
pub proof fn lemma_blanks_end(s: Seq<u8>, from: int)
    requires
        0 <= from <= s.len(),
    ensures
        from <= blanks_end(s, from) <= s.len(),
        forall|i: int| from <= i < blanks_end(s, from) ==> is_blank(#[trigger] s[i]),
        blanks_end(s, from) < s.len() ==> !is_blank(s[blanks_end(s, from)]),
    decreases s.len() - from,
{
    if from < s.len() && is_blank(s[from]) {
        lemma_blanks_end(s, from + 1);
    }
}

/// Digits end at or after the position they are sought from, within `s`, and
/// everything passed over is a digit.
pub proof fn lemma_digits_end(s: Seq<u8>, from: int)
    requires
        0 <= from <= s.len(),
    ensures
        from <= digits_end(s, from) <= s.len(),
        forall|i: int| from <= i < digits_end(s, from) ==> is_digit(#[trigger] s[i]),
        digits_end(s, from) < s.len() ==> !is_digit(s[digits_end(s, from)]),
    decreases s.len() - from,
{
    if from < s.len() && is_digit(s[from]) {
        lemma_digits_end(s, from + 1);
    }
}

/// The first digits of a number spell no more than all of them.
pub proof fn lemma_decimal_value_grows(digits: Seq<u8>, shorter: int)
    requires
        0 <= shorter <= digits.len(),
        forall|i: int| 0 <= i < digits.len() ==> is_digit(#[trigger] digits[i]),
    ensures
        decimal_value(digits.take(shorter)) <= decimal_value(digits),
    decreases digits.len(),
{
    if shorter == digits.len() {
        assert(digits.take(shorter) == digits);
    } else {
        assert(digits.drop_last().take(shorter) == digits.take(shorter));
        lemma_decimal_value_grows(digits.drop_last(), shorter);
    }
}

/// Passes over the blanks of `bytes` from `from` on.
pub fn skip_blanks(bytes: &[u8], from: usize) -> (end: usize)
    ensures
        end == blanks_end(bytes@, from as int),
{
    let mut end = from;
    while end < bytes.len() && (bytes[end] == 0x20 || bytes[end] == 0x09)
        invariant
            from <= end,
            blanks_end(bytes@, from as int) == blanks_end(bytes@, end as int),
        decreases bytes.len() - end,
    {
        end += 1;
    }
    end
}

/// Passes over the digits of `bytes` from `from` on.
pub fn skip_digits(bytes: &[u8], from: usize) -> (end: usize)
    ensures
        end == digits_end(bytes@, from as int),
{
    let mut end = from;
    while end < bytes.len() && 0x30 <= bytes[end] && bytes[end] <= 0x39
        invariant
            from <= end,
            digits_end(bytes@, from as int) == digits_end(bytes@, end as int),
        decreases bytes.len() - end,
    {
        end += 1;
    }
    end
}

/// Reads the digits of `bytes` from `from` up to `to` as a decimal number.
/// There is no result when the number is too large for 64 bits.
pub(crate) fn decimal(bytes: &[u8], from: usize, to: usize) -> (value: Option<u64>)
    requires
        from <= to <= bytes.len(),
        forall|i: int| from <= i < to ==> is_digit(#[trigger] bytes@[i]),
    ensures
        match value {
            Some(number) => number == decimal_value(bytes@.subrange(from as int, to as int)),
            None => decimal_value(bytes@.subrange(from as int, to as int)) > u64::MAX,
        },
{
    let ghost digits = bytes@.subrange(from as int, to as int);
    let mut number: u64 = 0;
    let mut at = from;
    while at < to
        invariant
            from <= at <= to <= bytes.len(),
            digits == bytes@.subrange(from as int, to as int),
            forall|i: int| 0 <= i < digits.len() ==> is_digit(#[trigger] digits[i]),
            number == decimal_value(digits.take(at - from)),
        decreases to - at,
    {
        assert(is_digit(digits[at - from]) && digits[at - from] == bytes@[at as int]);
        let digit = (bytes[at] - 0x30) as u64;
        proof {
            assert(digits.take(at - from + 1).drop_last() == digits.take(at - from));
            assert(digits.take(at - from + 1).last() == bytes@[at as int]);
            lemma_decimal_value_grows(digits, at - from + 1);
        }
        number = match number.checked_mul(10) {
            Some(tens) => match tens.checked_add(digit) {
                Some(sum) => sum,
                None => {
                    return None;
                },
            },
            None => {
                return None;
            },
        };
        at += 1;
    }
    assert(digits.take(at - from) == digits);
    Some(number)
}

} // verus!

//! Dice notation as text: the values it denotes and how it is read.

pub mod dice_roll;
pub mod lexical;
pub mod math_ops;

use vstd::prelude::*;
use vstd::std_specs::cmp::PartialEqSpecImpl;
use vstd::string::*;
use vstd::utf8::*;
use self::lexical::{
    blanks_end, decimal, decimal_value, digits_end, is_ascii_run, lemma_blanks_end,
    lemma_digits_end, skip_blanks, skip_digits,
};

verus! {

/// The dice term of a roll: `number_of_dice` dice with faces numbered from 1
/// to `dice_range`.
#[derive(Debug, Clone, Copy, PartialEq, Eq, Structural)]
pub struct DiceRoll {
    pub number_of_dice: u64,
    pub dice_range: u64,
}

/// What a modifier does to the outcome of a roll.
#[derive(Debug, Clone, Copy, PartialEq, Eq, Structural)]
pub enum RollModType {
    /// Explode: values that reach the threshold earn further dice.
    E,
    /// Remove the lowest values.
    R,
    /// Keep the highest values.
    K,
    /// Keep the lowest values.
    L,
}

/// One modifier of a roll, with its threshold or count.
#[derive(Debug, Clone, Copy, PartialEq, Eq, Structural)]
pub struct RollMod {
    pub roll_mod_type: RollModType,
    pub value: u64,
}

/// What was expected where reading stopped.
#[derive(Debug, Clone, Copy, PartialEq, Eq, Structural)]
pub enum ParseErrorKind {
    /// A digit was expected.
    ExpectedDigit,
    /// The number is too large for 64 bits.
    NumberOutOfRange,
    /// The dice separator, `d` or `D`, was expected.
    ExpectedSeparator,
    /// A modifier letter was expected and the text ends.
    ExpectedModifier,
    /// The letter is none of the modifier letters `e`, `r`, `k` and `l`.
    UnknownModifier,
    /// One of the operators `+`, `-`, `*` and `/` was expected.
    ExpectedOperation,
}

/// Why text could not be read as dice notation, and at which byte of it.
#[derive(Debug, Clone, Copy, PartialEq, Eq, Structural)]
pub struct ParseError {
    pub kind: ParseErrorKind,
    pub offset: usize,
}

/// A dice term and the modifiers that follow it, in the order in which they
/// are applied.
#[derive(Debug, Clone)]
pub struct ComplexDiceRoll {
    pub dice_roll: DiceRoll,
    pub roll_mods: Vec<RollMod>,
}

impl PartialEq for ComplexDiceRoll {
    /// Two rolls are equal when they have the same dice term and the same
    /// modifiers in the same order.
    fn eq(&self, other: &ComplexDiceRoll) -> (equal: bool) {
        if self.dice_roll != other.dice_roll || self.roll_mods.len() != other.roll_mods.len() {
            return false;
        }
        let mut i: usize = 0;
        while i < self.roll_mods.len()
            invariant
                i <= self.roll_mods.len(),
                self.roll_mods.len() == other.roll_mods.len(),
                self.roll_mods@.take(i as int) == other.roll_mods@.take(i as int),
            decreases self.roll_mods.len() - i,
        {
            if self.roll_mods[i] != other.roll_mods[i] {
                return false;
            }
            assert(self.roll_mods@.take(i + 1) == self.roll_mods@.take(i as int).push(
                self.roll_mods@[i as int],
            ));
            assert(other.roll_mods@.take(i + 1) == other.roll_mods@.take(i as int).push(
                other.roll_mods@[i as int],
            ));
            i += 1;
        }
        assert(self.roll_mods@.take(i as int) == self.roll_mods@);
        assert(other.roll_mods@.take(i as int) == other.roll_mods@);
        true
    }
}

impl PartialEqSpecImpl for ComplexDiceRoll {
    open spec fn obeys_eq_spec() -> bool {
        true
    }

    open spec fn eq_spec(&self, other: &ComplexDiceRoll) -> bool {
        self.dice_roll == other.dice_roll && self.roll_mods@ == other.roll_mods@
    }
}

/// What reading a number from `s` at `from` gives: blanks are passed over,
/// then the digits that follow spell the number. The result holds the number
/// and the position after its last digit.
pub open spec fn read_number(s: Seq<u8>, from: int) -> Result<(u64, usize), ParseError> {
    let start = blanks_end(s, from);
    let end = digits_end(s, start);
    let value = decimal_value(s.subrange(start, end));
    if end == start {
        Err(ParseError { kind: ParseErrorKind::ExpectedDigit, offset: start as usize })
    } else if value > u64::MAX {
        Err(ParseError { kind: ParseErrorKind::NumberOutOfRange, offset: start as usize })
    } else {
        Ok((value as u64, end as usize))
    }
}

/// What reading all of `s` as one number gives: `s` has to be digits from
/// end to end, one at least, without sign or blanks.
pub open spec fn read_digits(s: Seq<u8>) -> Result<u64, ParseError> {
    let end = digits_end(s, 0);
    if s.len() == 0 || end < s.len() {
        Err(ParseError { kind: ParseErrorKind::ExpectedDigit, offset: end as usize })
    } else if decimal_value(s) > u64::MAX {
        Err(ParseError { kind: ParseErrorKind::NumberOutOfRange, offset: 0 })
    } else {
        Ok(decimal_value(s) as u64)
    }
}

/// A number that is read ends after the position it was read from, within
/// `s`.
pub proof fn lemma_number_advances(s: Seq<u8>, from: int)
    requires
        0 <= from <= s.len() <= usize::MAX,
    ensures
        read_number(s, from) matches Ok((_, end)) ==> from < end <= s.len(),
{
    lemma_blanks_end(s, from);
    lemma_digits_end(s, blanks_end(s, from));
}

/// Whether `result` hands on the reading `reading` of the bytes of `input`:
/// the same value with the text that follows it, or the same error.
pub open spec fn hands_on<T>(
    input: &str,
    reading: Result<(T, usize), ParseError>,
    result: Result<(&str, T), ParseError>,
) -> bool {
    match reading {
        Ok((value, end)) => result matches Ok((rest, read)) && read == value && rest.spec_bytes()
            == input.spec_bytes().skip(end as int),
        Err(error) => result matches Err(refusal) && refusal == error,
    }
}

/// A run of ASCII bytes at the start of well-formed UTF-8 ends where a
/// character begins.
pub proof fn lemma_ascii_run_ends_at_boundary(bytes: Seq<u8>, end: int)
    requires
        valid_utf8(bytes),
        0 <= end <= bytes.len(),
        is_ascii_run(bytes, 0, end),
    ensures
        is_char_boundary(bytes, end),
    decreases end,
{
    if end > 0 {
        assert(bytes[0] < 0x80);
        let rest = pop_first_scalar(bytes);
        assert(rest == bytes.subrange(1, bytes.len() as int));
        assert forall|i: int| 0 <= i < end - 1 implies #[trigger] rest[i] < 0x80 by {
            assert(rest[i] == bytes[i + 1]);
        }
        lemma_ascii_run_ends_at_boundary(rest, end - 1);
    }
}

/// The text of `input` from its byte `end` on, where only ASCII stands before
/// that byte.
pub(crate) fn rest_after(input: &str, end: usize) -> (rest: &str)
    requires
        end <= input.spec_bytes().len(),
        is_ascii_run(input.spec_bytes(), 0, end as int),
    ensures
        rest.spec_bytes() == input.spec_bytes().skip(end as int),
{
    proof {
        encode_utf8_valid_utf8(input@);
        lemma_ascii_run_ends_at_boundary(input.spec_bytes(), end as int);
    }
    let (_, rest) = input.split_at(end);
    rest
}

/// Reads a number from `bytes` at `from`, after any blanks.
pub fn number_at(bytes: &[u8], from: usize) -> (reading: Result<(u64, usize), ParseError>)
    ensures
        reading == read_number(bytes@, from as int),
        reading matches Ok((_, end)) ==> from < end <= bytes.len() && is_ascii_run(
            bytes@,
            from as int,
            end as int,
        ),
{
    proof {
        if from <= bytes.len() {
            lemma_blanks_end(bytes@, from as int);
            lemma_digits_end(bytes@, blanks_end(bytes@, from as int));
        }
    }
    let start = skip_blanks(bytes, from);
    let end = skip_digits(bytes, start);
    if end == start {
        return Err(ParseError { kind: ParseErrorKind::ExpectedDigit, offset: start });
    }
    match decimal(bytes, start, end) {
        Some(value) => Ok((value, end)),
        None => Err(ParseError { kind: ParseErrorKind::NumberOutOfRange, offset: start }),
    }
}

/// Reads all of `text` as one decimal number: digits from end to end, one at
/// least, without sign or blanks, and no more than 64 bits can hold.
pub fn parse_number(text: &str) -> (number: Result<u64, ParseError>)
    ensures
        number == read_digits(text.spec_bytes()),
{
    let bytes = text.as_bytes();
    proof {
        lemma_digits_end(bytes@, 0);
    }
    let end = skip_digits(bytes, 0);
    if bytes.len() == 0 || end < bytes.len() {
        return Err(ParseError { kind: ParseErrorKind::ExpectedDigit, offset: end });
    }
    assert(bytes@.subrange(0, end as int) == bytes@);
    match decimal(bytes, 0, end) {
        Some(value) => Ok(value),
        None => Err(ParseError { kind: ParseErrorKind::NumberOutOfRange, offset: 0 }),
    }
}

/// Reads a number from the start of `input`, after any blanks, and hands it
/// out with the text that follows it.
pub fn number(input: &str) -> (result: Result<(&str, u64), ParseError>)
    ensures
        hands_on(input, read_number(input.spec_bytes(), 0), result),
{
    match number_at(input.as_bytes(), 0) {
        Ok((value, end)) => Ok((rest_after(input, end), value)),
        Err(error) => Err(error),
    }
}

/// Splits a dice string into its dice terms. Dice notation holds one term,
/// so the string comes back alone.
pub fn parse_dice_string<'a>(dice_string: &'a str) -> (terms: Result<Vec<&'a str>, &'static str>)
    ensures
        terms matches Ok(list) && list@ == seq![dice_string],
{
    Ok(vec![dice_string])
}

} // verus!

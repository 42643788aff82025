//! The grammar of a roll: a dice term, `<count> d <range>`, and the
//! modifiers, `<letter><number>`, that follow it.

use vstd::prelude::*;
use vstd::string::*;
use super::lexical::{blanks_end, is_ascii_run, lemma_blanks_end, skip_blanks};
use super::{
    hands_on, lemma_number_advances, number_at, read_number, rest_after, ComplexDiceRoll, DiceRoll, ParseError,
    ParseErrorKind, RollMod, RollModType,
};

verus! {

/// The modifier that the letter `c` stands for, in either case.
pub open spec fn modifier_letter(c: char) -> Option<RollModType> {
    if c == 'e' || c == 'E' {
        Some(RollModType::E)
    } else if c == 'r' || c == 'R' {
        Some(RollModType::R)
    } else if c == 'k' || c == 'K' {
        Some(RollModType::K)
    } else if c == 'l' || c == 'L' {
        Some(RollModType::L)
    } else {
        None
    }
}

/// Whether `byte` is the dice separator, `d` or `D`.
pub open spec fn is_separator(byte: u8) -> bool {
    byte == 0x64 || byte == 0x44
}

/// What reading the dice separator from `s` at `from` gives: blanks are
/// passed over, then `d` or `D` has to stand. The result holds the separator
/// and the position after it.
pub open spec fn read_separator(s: Seq<u8>, from: int) -> Result<(char, usize), ParseError> {
    let at = blanks_end(s, from);
    if 0 <= at < s.len() && is_separator(s[at]) {
        Ok((s[at] as char, (at + 1) as usize))
    } else {
        Err(ParseError { kind: ParseErrorKind::ExpectedSeparator, offset: at as usize })
    }
}

/// What reading a dice term from `s` at `from` gives: the number of dice,
/// the separator and the dice range.
pub open spec fn read_dice_term(s: Seq<u8>, from: int) -> Result<(DiceRoll, usize), ParseError> {
    match read_number(s, from) {
        Ok((number_of_dice, after_number)) => match read_separator(s, after_number as int) {
            Ok((_, after_separator)) => match read_number(s, after_separator as int) {
                Ok((dice_range, end)) => Ok((DiceRoll { number_of_dice, dice_range }, end)),
                Err(error) => Err(error),
            },
            Err(error) => Err(error),
        },
        Err(error) => Err(error),
    }
}

/// What reading a modifier letter from `s` at `from` gives. No blanks are
/// passed over.
pub open spec fn read_roll_type(s: Seq<u8>, from: int) -> Result<(RollModType, usize), ParseError> {
    if 0 <= from < s.len() {
        match modifier_letter(s[from] as char) {
            Some(roll_mod_type) => Ok((roll_mod_type, (from + 1) as usize)),
            None => Err(
                ParseError { kind: ParseErrorKind::UnknownModifier, offset: from as usize },
            ),
        }
    } else {
        Err(ParseError { kind: ParseErrorKind::ExpectedModifier, offset: from as usize })
    }
}

/// What reading a modifier from `s` at `from` gives: blanks are passed over,
/// then a modifier letter and a number have to stand.
pub open spec fn read_modifier(s: Seq<u8>, from: int) -> Result<(RollMod, usize), ParseError> {
    match read_roll_type(s, blanks_end(s, from)) {
        Ok((roll_mod_type, after_letter)) => match read_number(s, after_letter as int) {
            Ok((value, end)) => Ok((RollMod { roll_mod_type, value }, end)),
            Err(error) => Err(error),
        },
        Err(error) => Err(error),
    }
}

/// One of the letters `a` to `z`, in either case.
pub open spec fn is_letter(byte: u8) -> bool {
    0x41 <= byte <= 0x5a || 0x61 <= byte <= 0x7a
}

/// Whether a modifier is due in `s` at `from`: after any blanks a letter
/// stands. Where the text ends, or anything but a letter stands, the roll is
/// over and what is left is not part of it.
pub open spec fn modifier_follows(s: Seq<u8>, from: int) -> bool {
    let at = blanks_end(s, from);
    0 <= at < s.len() && is_letter(s[at])
}

/// The modifiers `earlier` put before those of the reading `later`.
pub open spec fn after_modifiers(
    earlier: Seq<RollMod>,
    later: Result<(Seq<RollMod>, usize), ParseError>,
) -> Result<(Seq<RollMod>, usize), ParseError> {
    match later {
        Ok((modifiers, end)) => Ok((earlier + modifiers, end)),
        Err(error) => Err(error),
    }
}

/// What reading modifiers from `s` at `from` gives: one modifier after
/// another, as long as a letter stands after the blanks. Each such letter
/// has to be a modifier letter with its number: a letter that is none, or
/// one without a number that can be read, is an error and no roll is read.
/// The result holds the modifiers in the order in which they stand and the
/// position after the last of them, before any blanks that follow it.
pub open spec fn read_modifiers(s: Seq<u8>, from: int) -> Result<(Seq<RollMod>, usize), ParseError>
    decreases s.len() - from,
{
    if !modifier_follows(s, from) {
        Ok((Seq::empty(), from as usize))
    } else {
        match read_modifier(s, from) {
            Ok((modifier, end)) => if from < end <= s.len() {
                after_modifiers(seq![modifier], read_modifiers(s, end as int))
            } else {
                Ok((Seq::empty(), from as usize))
            },
            Err(error) => Err(error),
        }
    }
}

/// A modifier that is read ends after the position it was read from, within
/// `s`: the reading of modifiers never stands still.
pub proof fn lemma_modifier_advances(s: Seq<u8>, from: int)
    requires
        0 <= from <= s.len() <= usize::MAX,
    ensures
        read_modifier(s, from) matches Ok((_, end)) ==> from < end <= s.len(),
{
    lemma_blanks_end(s, from);
    if read_roll_type(s, blanks_end(s, from)) is Ok {
        lemma_number_advances(s, blanks_end(s, from) + 1);
    }
}

/// Modifiers that are read end within `s`, where no letter follows: every
/// letter after the dice term has been read as a modifier.
pub proof fn lemma_modifiers_end(s: Seq<u8>, from: int)
    requires
        0 <= from <= s.len() <= usize::MAX,
    ensures
        read_modifiers(s, from) matches Ok((modifiers, end)) ==> from <= end <= s.len()
            && !modifier_follows(s, end as int) && (modifiers.len() == 0 <==> !modifier_follows(
            s,
            from,
        )),
    decreases s.len() - from,
{
    lemma_modifier_advances(s, from);
    if modifier_follows(s, from) {
        match read_modifier(s, from) {
            Ok((_, end)) => {
                lemma_modifiers_end(s, end as int);
            },
            Err(_) => {},
        }
    }
}

/// A letter after the dice term that is no modifier letter, or a modifier
/// letter without its number, leaves no roll: the reading fails with the
/// error of that modifier.
pub proof fn lemma_bad_modifier_fails(s: Seq<u8>, from: int)
    requires
        0 <= from <= s.len() <= usize::MAX,
        modifier_follows(s, from),
        read_modifier(s, from) is Err,
    ensures
        read_modifiers(s, from) matches Err(error) && read_modifier(s, from) == Err::<
            (RollMod, usize),
            ParseError,
        >(error),
{
}

/// What reading a roll from `s` at `from` gives: a dice term, then the
/// modifiers that follow it. The result holds the dice term, the modifiers
/// and the position after the last of them; what stands there is not read.
pub open spec fn read_complex_roll(s: Seq<u8>, from: int) -> Result<
    (DiceRoll, Seq<RollMod>, usize),
    ParseError,
> {
    match read_dice_term(s, from) {
        Ok((dice_roll, after_term)) => match read_modifiers(s, after_term as int) {
            Ok((roll_mods, end)) => Ok((dice_roll, roll_mods, end)),
            Err(error) => Err(error),
        },
        Err(error) => Err(error),
    }
}

/// Tells which modifier the letter `c` stands for, in either case.
pub fn parse_roll_mod_type(c: char) -> (roll_mod_type: Result<RollModType, &'static str>)
    ensures
        match modifier_letter(c) {
            Some(modifier) => roll_mod_type == Ok::<RollModType, &'static str>(modifier),
            None => roll_mod_type matches Err(message) && message@ == "Invalid Roll Type"@,
        },
{
    if c == 'e' || c == 'E' {
        Ok(RollModType::E)
    } else if c == 'r' || c == 'R' {
        Ok(RollModType::R)
    } else if c == 'k' || c == 'K' {
        Ok(RollModType::K)
    } else if c == 'l' || c == 'L' {
        Ok(RollModType::L)
    } else {
        Err("Invalid Roll Type")
    }
}

/// Reads the dice separator from `bytes` at `from`, after any blanks.
pub fn dice_roll_separator_at(bytes: &[u8], from: usize) -> (reading: Result<
    (char, usize),
    ParseError,
>)
    ensures
        reading == read_separator(bytes@, from as int),
        reading matches Ok((_, end)) ==> from < end <= bytes.len() && is_ascii_run(
            bytes@,
            from as int,
            end as int,
        ),
{
    proof {
        if from <= bytes.len() {
            lemma_blanks_end(bytes@, from as int);
        }
    }
    let at = skip_blanks(bytes, from);
    if at < bytes.len() && (bytes[at] == 0x64 || bytes[at] == 0x44) {
        Ok((bytes[at] as char, at + 1))
    } else {
        Err(ParseError { kind: ParseErrorKind::ExpectedSeparator, offset: at })
    }
}

/// Reads a dice term from `bytes` at `from`.
pub fn simple_dice_roll_at(bytes: &[u8], from: usize) -> (reading: Result<
    (DiceRoll, usize),
    ParseError,
>)
    ensures
        reading == read_dice_term(bytes@, from as int),
        reading matches Ok((_, end)) ==> from < end <= bytes.len() && is_ascii_run(
            bytes@,
            from as int,
            end as int,
        ),
{
    let (number_of_dice, after_number) = match number_at(bytes, from) {
        Ok(read) => read,
        Err(error) => {
            return Err(error);
        },
    };
    let (_, after_separator) = match dice_roll_separator_at(bytes, after_number) {
        Ok(read) => read,
        Err(error) => {
            return Err(error);
        },
    };
    let (dice_range, end) = match number_at(bytes, after_separator) {
        Ok(read) => read,
        Err(error) => {
            return Err(error);
        },
    };
    Ok((DiceRoll { number_of_dice, dice_range }, end))
}

/// Reads a modifier letter from `bytes` at `from`.
pub fn roll_type_at(bytes: &[u8], from: usize) -> (reading: Result<(RollModType, usize), ParseError>)
    ensures
        reading == read_roll_type(bytes@, from as int),
        reading matches Ok((_, end)) ==> end == from + 1 && end <= bytes.len() && bytes@[from as int]
            < 0x80,
{
    if from >= bytes.len() {
        return Err(ParseError { kind: ParseErrorKind::ExpectedModifier, offset: from });
    }
    match parse_roll_mod_type(bytes[from] as char) {
        Ok(roll_mod_type) => Ok((roll_mod_type, from + 1)),
        Err(_) => Err(ParseError { kind: ParseErrorKind::UnknownModifier, offset: from }),
    }
}

/// Reads a modifier from `bytes` at `from`, after any blanks.
pub fn dice_roll_mod_at(bytes: &[u8], from: usize) -> (reading: Result<(RollMod, usize), ParseError>)
    ensures
        reading == read_modifier(bytes@, from as int),
        reading matches Ok((_, end)) ==> from < end <= bytes.len() && is_ascii_run(
            bytes@,
            from as int,
            end as int,
        ),
{
    proof {
        if from <= bytes.len() {
            lemma_blanks_end(bytes@, from as int);
        }
    }
    let at = skip_blanks(bytes, from);
    let (roll_mod_type, after_letter) = match roll_type_at(bytes, at) {
        Ok(read) => read,
        Err(error) => {
            return Err(error);
        },
    };
    let (value, end) = match number_at(bytes, after_letter) {
        Ok(read) => read,
        Err(error) => {
            return Err(error);
        },
    };
    Ok((RollMod { roll_mod_type, value }, end))
}

/// Reads a roll from `bytes` at `from`: a dice term and the modifiers that
/// follow it. The roll is over where, after any blanks, the bytes end or
/// something other than a letter stands; a letter there has to begin a
/// modifier, or reading fails.
pub fn complex_dice_roll_at(bytes: &[u8], from: usize) -> (reading: Result<
    (ComplexDiceRoll, usize),
    ParseError,
>)
    ensures
        match read_complex_roll(bytes@, from as int) {
            Ok((dice_roll, roll_mods, end)) => reading matches Ok((roll, read_end))
                && roll.dice_roll == dice_roll && roll.roll_mods@ == roll_mods && read_end == end,
            Err(error) => reading matches Err(refusal) && refusal == error,
        },
        reading matches Ok((_, end)) ==> from < end <= bytes.len() && is_ascii_run(
            bytes@,
            from as int,
            end as int,
        ),
{
    let (dice_roll, after_term) = match simple_dice_roll_at(bytes, from) {
        Ok(read) => read,
        Err(error) => {
            return Err(error);
        },
    };
    let mut roll_mods: Vec<RollMod> = Vec::new();
    let mut end = after_term;
    loop
        invariant
            from < after_term <= end <= bytes.len(),
            is_ascii_run(bytes@, from as int, end as int),
            read_dice_term(bytes@, from as int) == Ok::<(DiceRoll, usize), ParseError>(
                (dice_roll, after_term),
            ),
            read_modifiers(bytes@, after_term as int) == after_modifiers(
                roll_mods@,
                read_modifiers(bytes@, end as int),
            ),
        ensures
            read_modifiers(bytes@, after_term as int) == Ok::<(Seq<RollMod>, usize), ParseError>(
                (roll_mods@, end),
            ),
            from < end <= bytes.len(),
            is_ascii_run(bytes@, from as int, end as int),
        decreases bytes.len() - end,
    {
        proof {
            lemma_blanks_end(bytes@, end as int);
        }
        let at = skip_blanks(bytes, end);
        if at >= bytes.len() || !is_ascii_letter(bytes[at]) {
            assert(roll_mods@ + Seq::<RollMod>::empty() == roll_mods@);
            break ;
        }
        match dice_roll_mod_at(bytes, end) {
            Ok((modifier, next)) => {
                proof {
                    match read_modifiers(bytes@, next as int) {
                        Ok((later, _)) => {
                            assert(roll_mods@ + (seq![modifier] + later) == roll_mods@.push(
                                modifier,
                            ) + later);
                        },
                        Err(_) => {},
                    }
                }
                roll_mods.push(modifier);
                end = next;
            },
            Err(error) => {
                return Err(error);
            },
        }
    }
    Ok((ComplexDiceRoll { dice_roll, roll_mods }, end))
}

/// Tells whether `byte` is one of the letters `a` to `z`, in either case.
fn is_ascii_letter(byte: u8) -> (letter: bool)
    ensures
        letter == is_letter(byte),
{
    (0x41 <= byte && byte <= 0x5a) || (0x61 <= byte && byte <= 0x7a)
}

/// Reads the dice separator from the start of `input`, after any blanks, and
/// hands it out with the text that follows it.
pub fn dice_roll_separator(input: &str) -> (result: Result<(&str, char), ParseError>)
    ensures
        hands_on(input, read_separator(input.spec_bytes(), 0), result),
{
    match dice_roll_separator_at(input.as_bytes(), 0) {
        Ok((separator, end)) => Ok((rest_after(input, end), separator)),
        Err(error) => Err(error),
    }
}

/// Reads a dice term from the start of `input` and hands it out with the text
/// that follows it.
pub fn simple_dice_roll(input: &str) -> (result: Result<(&str, DiceRoll), ParseError>)
    ensures
        hands_on(input, read_dice_term(input.spec_bytes(), 0), result),
{
    match simple_dice_roll_at(input.as_bytes(), 0) {
        Ok((dice_roll, end)) => Ok((rest_after(input, end), dice_roll)),
        Err(error) => Err(error),
    }
}

/// Reads a modifier letter from the start of `input` and hands out the
/// modifier it stands for with the text that follows it.
pub fn roll_type(input: &str) -> (result: Result<(&str, RollModType), ParseError>)
    ensures
        hands_on(input, read_roll_type(input.spec_bytes(), 0), result),
{
    match roll_type_at(input.as_bytes(), 0) {
        Ok((roll_mod_type, end)) => Ok((rest_after(input, end), roll_mod_type)),
        Err(error) => Err(error),
    }
}

/// Reads a modifier from the start of `input`, after any blanks, and hands
/// it out with the text that follows it.
pub fn dice_roll_mod(input: &str) -> (result: Result<(&str, RollMod), ParseError>)
    ensures
        hands_on(input, read_modifier(input.spec_bytes(), 0), result),
{
    match dice_roll_mod_at(input.as_bytes(), 0) {
        Ok((modifier, end)) => Ok((rest_after(input, end), modifier)),
        Err(error) => Err(error),
    }
}

/// Reads a roll from the start of `input`: a dice term and the modifiers that
/// follow it. The text that is left, blanks included, is handed out unread.
///
/// Reading fails when no dice term stands at the start: a number, the
/// separator and a number. It fails as well when a letter follows the dice
/// term or a modifier, after any blanks, and no modifier can be read there:
/// the letter is none of `e`, `r`, `k` and `l`, or no number follows it. No
/// roll is handed out then. The roll is over, and the rest is left unread,
/// where the text ends or anything but a letter stands: a sign, a digit, a
/// character outside ASCII.
pub fn complex_dice_roll_parse(input: &str) -> (result: Result<(&str, ComplexDiceRoll), ParseError>)
    ensures
        match read_complex_roll(input.spec_bytes(), 0) {
            Ok((dice_roll, roll_mods, end)) => result matches Ok((rest, roll)) && roll.dice_roll
                == dice_roll && roll.roll_mods@ == roll_mods && rest.spec_bytes()
                == input.spec_bytes().skip(end as int),
            Err(error) => result matches Err(refusal) && refusal == error,
        },
{
    match complex_dice_roll_at(input.as_bytes(), 0) {
        Ok((roll, end)) => Ok((rest_after(input, end), roll)),
        Err(error) => Err(error),
    }
}

} // verus!

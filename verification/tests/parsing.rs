use rust_dicegen::math_ops::Operation;
use rust_dicegen::parsing::dice_roll::{
    complex_dice_roll_at, complex_dice_roll_parse, dice_roll_mod, dice_roll_mod_at,
    dice_roll_separator, dice_roll_separator_at, parse_roll_mod_type, roll_type, roll_type_at,
    simple_dice_roll, simple_dice_roll_at,
};
use rust_dicegen::parsing::lexical::{skip_blanks, skip_digits};
use rust_dicegen::parsing::math_ops::parse_operation;
use rust_dicegen::parsing::{
    number, number_at, parse_dice_string, parse_number, ComplexDiceRoll, DiceRoll, ParseError,
    ParseErrorKind, RollMod, RollModType,
};

fn refusal(kind: ParseErrorKind, offset: usize) -> ParseError {
    ParseError { kind, offset }
}

#[test]
fn dice_roll_number_parser_parses_a_number() {
    assert_eq!(number("1234abcd"), Ok(("abcd", 1234u64)))
}

#[test]
fn parser_number_parser_parses_a_number() {
    assert_eq!(number("1234abcd"), Ok(("abcd", 1234u64)))
}

#[test]
fn dice_roll_if_number_parser_doesnt_start_with_number_then_panic() {
    assert!(number("a123").is_err())
}

#[test]
fn parser_if_number_parser_doesnt_start_with_number_then_panic() {
    assert!(number("a123").is_err())
}

#[test]
fn dice_roll_parse_dice_roll_works_as_expected() {
    assert_eq!(
        simple_dice_roll("23d45"),
        Ok((
            "",
            DiceRoll {
                number_of_dice: 23,
                dice_range: 45
            }
        ))
    );

    assert_eq!(
        simple_dice_roll(" 23 d  45"),
        Ok((
            "",
            DiceRoll {
                number_of_dice: 23,
                dice_range: 45
            }
        ))
    );

    assert_eq!(
        simple_dice_roll(" 23 D  45 "),
        Ok((
            " ",
            DiceRoll {
                number_of_dice: 23,
                dice_range: 45
            }
        ))
    );
}

#[test]
fn parser_parse_dice_roll_works_as_expected() {
    assert_eq!(
        simple_dice_roll("23d45"),
        Ok((
            "",
            DiceRoll {
                number_of_dice: 23,
                dice_range: 45
            }
        ))
    );

    assert_eq!(
        simple_dice_roll(" 23 d  45"),
        Ok((
            "",
            DiceRoll {
                number_of_dice: 23,
                dice_range: 45
            }
        ))
    );

    assert_eq!(
        simple_dice_roll(" 23 D  45 "),
        Ok((
            " ",
            DiceRoll {
                number_of_dice: 23,
                dice_range: 45
            }
        ))
    );
}

#[test]
fn dice_roll_parse_dice_roll_requires_the_dice_roll_to_have_the_d_character() {
    assert!(simple_dice_roll("123a123").is_err())
}

#[test]
fn parser_parse_dice_roll_requires_the_dice_roll_to_have_the_d_character() {
    assert!(simple_dice_roll("123a123").is_err())
}

#[test]
fn dice_roll_parse_dice_roll_with_additional_modifications_works_as_expected() {
    assert_eq!(
        complex_dice_roll_parse("23d45e32"),
        Ok((
            "",
            ComplexDiceRoll {
                dice_roll: DiceRoll {
                    number_of_dice: 23,
                    dice_range: 45
                },
                roll_mods: vec![RollMod {
                    roll_mod_type: RollModType::E,
                    value: 32
                }],
            }
        ))
    );

    assert_eq!(
        complex_dice_roll_parse("23d45 e32  R12 "),
        Ok((
            " ",
            ComplexDiceRoll {
                dice_roll: DiceRoll {
                    number_of_dice: 23,
                    dice_range: 45
                },
                roll_mods: vec![
                    RollMod {
                        roll_mod_type: RollModType::E,
                        value: 32
                    },
                    RollMod {
                        roll_mod_type: RollModType::R,
                        value: 12
                    }
                ],
            }
        ))
    );
}

#[test]
fn parser_parse_dice_roll_with_additional_modifications_works_as_expected() {
    assert_eq!(
        complex_dice_roll_parse("23d45e32"),
        Ok((
            "",
            ComplexDiceRoll {
                dice_roll: DiceRoll {
                    number_of_dice: 23,
                    dice_range: 45
                },
                roll_mods: vec![RollMod {
                    roll_mod_type: RollModType::E,
                    value: 32
                }],
            }
        ))
    );

    assert_eq!(
        complex_dice_roll_parse("23d45 e32  R12 "),
        Ok((
            " ",
            ComplexDiceRoll {
                dice_roll: DiceRoll {
                    number_of_dice: 23,
                    dice_range: 45
                },
                roll_mods: vec![
                    RollMod {
                        roll_mod_type: RollModType::E,
                        value: 32
                    },
                    RollMod {
                        roll_mod_type: RollModType::R,
                        value: 12
                    }
                ],
            }
        ))
    );
}

#[test]
fn single_value_returns_single_value_in_vector_form() {
    assert_eq!(Ok(vec!["1"]), parse_dice_string("1"));
}

#[test]
fn operation_parses_as_expected() {
    assert_eq!(parse_operation('+'), Ok(Operation::Add));
}

#[test]
fn op_parser_parses_operation() {
    assert_eq!(
        rust_dicegen::parsing::math_ops::roll_type("/abcd"),
        Ok(("abcd", Operation::Div))
    )
}

#[test]
fn every_operator_is_recognised() {
    assert_eq!(parse_operation('-'), Ok(Operation::Sub));
    assert_eq!(parse_operation('/'), Ok(Operation::Div));
    assert_eq!(parse_operation('*'), Ok(Operation::Mul));
    assert_eq!(
        parse_operation('x'),
        Err("Invalid Operation type. Expected one of +, -, /, or *")
    );
    assert_eq!(
        rust_dicegen::parsing::math_ops::roll_type("+1"),
        Ok(("1", Operation::Add))
    );
    assert_eq!(
        rust_dicegen::parsing::math_ops::roll_type("*"),
        Ok(("", Operation::Mul))
    );
}

#[test]
fn operator_parser_refuses_anything_else() {
    assert_eq!(
        rust_dicegen::parsing::math_ops::roll_type("abcd"),
        Err(refusal(ParseErrorKind::ExpectedOperation, 0))
    );
    assert_eq!(
        rust_dicegen::parsing::math_ops::roll_type(""),
        Err(refusal(ParseErrorKind::ExpectedOperation, 0))
    );
    // Blanks are not passed over before an operator.
    assert_eq!(
        rust_dicegen::parsing::math_ops::roll_type(" +"),
        Err(refusal(ParseErrorKind::ExpectedOperation, 0))
    );
    assert_eq!(
        rust_dicegen::parsing::math_ops::roll_type("é+"),
        Err(refusal(ParseErrorKind::ExpectedOperation, 0))
    );
}

#[test]
fn modifier_letters_in_either_case() {
    assert_eq!(parse_roll_mod_type('e'), Ok(RollModType::E));
    assert_eq!(parse_roll_mod_type('E'), Ok(RollModType::E));
    assert_eq!(parse_roll_mod_type('r'), Ok(RollModType::R));
    assert_eq!(parse_roll_mod_type('R'), Ok(RollModType::R));
    assert_eq!(parse_roll_mod_type('k'), Ok(RollModType::K));
    assert_eq!(parse_roll_mod_type('K'), Ok(RollModType::K));
    assert_eq!(parse_roll_mod_type('l'), Ok(RollModType::L));
    assert_eq!(parse_roll_mod_type('L'), Ok(RollModType::L));
    assert_eq!(parse_roll_mod_type('d'), Err("Invalid Roll Type"));
    assert_eq!(parse_roll_mod_type('1'), Err("Invalid Roll Type"));
    // The Kelvin sign is no ASCII letter, though its lower case is `k`.
    assert_eq!(parse_roll_mod_type('\u{212A}'), Err("Invalid Roll Type"));
    // Latin-1 letters whose code is that of no modifier letter.
    assert_eq!(parse_roll_mod_type('\u{E9}'), Err("Invalid Roll Type"));
}

#[test]
fn roll_type_reads_one_letter() {
    assert_eq!(roll_type("k11"), Ok(("11", RollModType::K)));
    assert_eq!(roll_type("L"), Ok(("", RollModType::L)));
    assert_eq!(
        roll_type(""),
        Err(refusal(ParseErrorKind::ExpectedModifier, 0))
    );
    assert_eq!(
        roll_type("x1"),
        Err(refusal(ParseErrorKind::UnknownModifier, 0))
    );
    // Blanks are not passed over before the letter itself.
    assert_eq!(
        roll_type(" k1"),
        Err(refusal(ParseErrorKind::UnknownModifier, 0))
    );
    assert_eq!(
        roll_type("\u{212A}1"),
        Err(refusal(ParseErrorKind::UnknownModifier, 0))
    );
}

#[test]
fn numbers_skip_blanks_and_stop_after_their_digits() {
    assert_eq!(number("7"), Ok(("", 7)));
    assert_eq!(number("  \t 42 rest"), Ok((" rest", 42)));
    assert_eq!(number("007"), Ok(("", 7)));
    assert_eq!(number("0"), Ok(("", 0)));
    assert_eq!(number("12.5"), Ok((".5", 12)));
    assert_eq!(number("3é"), Ok(("é", 3)));
}

#[test]
fn numbers_need_a_digit() {
    assert_eq!(number(""), Err(refusal(ParseErrorKind::ExpectedDigit, 0)));
    assert_eq!(number("   "), Err(refusal(ParseErrorKind::ExpectedDigit, 3)));
    assert_eq!(number(" \tx"), Err(refusal(ParseErrorKind::ExpectedDigit, 2)));
    assert_eq!(number("-5"), Err(refusal(ParseErrorKind::ExpectedDigit, 0)));
    assert_eq!(number("+5"), Err(refusal(ParseErrorKind::ExpectedDigit, 0)));
    // A line break is no blank.
    assert_eq!(number("\n5"), Err(refusal(ParseErrorKind::ExpectedDigit, 0)));
    assert_eq!(number("é5"), Err(refusal(ParseErrorKind::ExpectedDigit, 0)));
}

#[test]
fn numbers_fill_sixty_four_bits_and_no_more() {
    assert_eq!(number("18446744073709551615"), Ok(("", u64::MAX)));
    assert_eq!(number("018446744073709551615d"), Ok(("d", u64::MAX)));
    assert_eq!(
        number("18446744073709551616"),
        Err(refusal(ParseErrorKind::NumberOutOfRange, 0))
    );
    assert_eq!(
        number(" 18446744073709551620"),
        Err(refusal(ParseErrorKind::NumberOutOfRange, 1))
    );
    assert_eq!(
        number("99999999999999999999999999"),
        Err(refusal(ParseErrorKind::NumberOutOfRange, 0))
    );
}

#[test]
fn parse_number_takes_digits_from_end_to_end() {
    assert_eq!(parse_number("1234"), Ok(1234));
    assert_eq!(parse_number("0"), Ok(0));
    assert_eq!(parse_number("18446744073709551615"), Ok(u64::MAX));
    assert_eq!(
        parse_number(""),
        Err(refusal(ParseErrorKind::ExpectedDigit, 0))
    );
    assert_eq!(
        parse_number("12a4"),
        Err(refusal(ParseErrorKind::ExpectedDigit, 2))
    );
    assert_eq!(
        parse_number(" 12"),
        Err(refusal(ParseErrorKind::ExpectedDigit, 0))
    );
    assert_eq!(
        parse_number("+12"),
        Err(refusal(ParseErrorKind::ExpectedDigit, 0))
    );
    assert_eq!(
        parse_number("18446744073709551616"),
        Err(refusal(ParseErrorKind::NumberOutOfRange, 0))
    );
}

#[test]
fn bytes_are_read_from_any_position() {
    let bytes = "ab 12  d".as_bytes();
    assert_eq!(skip_blanks(bytes, 2), 3);
    assert_eq!(skip_blanks(bytes, 3), 3);
    assert_eq!(skip_blanks(bytes, 5), 7);
    assert_eq!(skip_blanks(bytes, 8), 8);
    assert_eq!(skip_digits(bytes, 3), 5);
    assert_eq!(skip_digits(bytes, 0), 0);
    assert_eq!(number_at(bytes, 2), Ok((12, 5)));
    assert_eq!(
        number_at(bytes, 5),
        Err(refusal(ParseErrorKind::ExpectedDigit, 7))
    );
    assert_eq!(
        number_at(bytes, 8),
        Err(refusal(ParseErrorKind::ExpectedDigit, 8))
    );
    let long = "18446744073709551616".as_bytes();
    assert_eq!(
        number_at(long, 0),
        Err(refusal(ParseErrorKind::NumberOutOfRange, 0))
    );
    assert_eq!(number_at(long, 1), Ok((8446744073709551616, 20)));
}

#[test]
fn reading_past_the_end_finds_nothing() {
    let bytes = "2d6 k1".as_bytes();
    assert_eq!(skip_blanks(bytes, 9), 9);
    assert_eq!(skip_digits(bytes, 9), 9);
    assert_eq!(
        number_at(bytes, 9),
        Err(refusal(ParseErrorKind::ExpectedDigit, 9))
    );
    assert_eq!(
        dice_roll_separator_at(bytes, 9),
        Err(refusal(ParseErrorKind::ExpectedSeparator, 9))
    );
    assert_eq!(
        simple_dice_roll_at(bytes, 9),
        Err(refusal(ParseErrorKind::ExpectedDigit, 9))
    );
    assert_eq!(
        roll_type_at(bytes, 9),
        Err(refusal(ParseErrorKind::ExpectedModifier, 9))
    );
    assert_eq!(
        dice_roll_mod_at(bytes, 9),
        Err(refusal(ParseErrorKind::ExpectedModifier, 9))
    );
    assert_eq!(
        complex_dice_roll_at(bytes, 9),
        Err(refusal(ParseErrorKind::ExpectedDigit, 9))
    );
    assert_eq!(
        rust_dicegen::parsing::math_ops::roll_type_at(bytes, 9),
        Err(refusal(ParseErrorKind::ExpectedOperation, 9))
    );
    assert_eq!(
        rust_dicegen::parsing::math_ops::roll_type_at("2d6*3".as_bytes(), 3),
        Ok((Operation::Mul, 4))
    );
}

#[test]
fn separator_is_d_in_either_case() {
    assert_eq!(dice_roll_separator("d6"), Ok(("6", 'd')));
    assert_eq!(dice_roll_separator("  D 6"), Ok((" 6", 'D')));
    assert_eq!(
        dice_roll_separator(" x6"),
        Err(refusal(ParseErrorKind::ExpectedSeparator, 1))
    );
    assert_eq!(
        dice_roll_separator(""),
        Err(refusal(ParseErrorKind::ExpectedSeparator, 0))
    );
}

#[test]
fn dice_terms_say_where_they_break() {
    assert_eq!(
        simple_dice_roll("d6"),
        Err(refusal(ParseErrorKind::ExpectedDigit, 0))
    );
    assert_eq!(
        simple_dice_roll("123a123"),
        Err(refusal(ParseErrorKind::ExpectedSeparator, 3))
    );
    assert_eq!(
        simple_dice_roll("12 "),
        Err(refusal(ParseErrorKind::ExpectedSeparator, 3))
    );
    assert_eq!(
        simple_dice_roll("12d"),
        Err(refusal(ParseErrorKind::ExpectedDigit, 3))
    );
    assert_eq!(
        simple_dice_roll("12 d x"),
        Err(refusal(ParseErrorKind::ExpectedDigit, 5))
    );
    assert_eq!(
        simple_dice_roll("99999999999999999999d6"),
        Err(refusal(ParseErrorKind::NumberOutOfRange, 0))
    );
    assert_eq!(
        simple_dice_roll("1d99999999999999999999"),
        Err(refusal(ParseErrorKind::NumberOutOfRange, 2))
    );
    assert_eq!(
        simple_dice_roll("0d0"),
        Ok((
            "",
            DiceRoll {
                number_of_dice: 0,
                dice_range: 0
            }
        ))
    );
}

#[test]
fn modifiers_are_a_letter_and_a_number() {
    assert_eq!(
        dice_roll_mod(" k11 r6"),
        Ok((
            " r6",
            RollMod {
                roll_mod_type: RollModType::K,
                value: 11
            }
        ))
    );
    assert_eq!(
        dice_roll_mod("l 3"),
        Ok((
            "",
            RollMod {
                roll_mod_type: RollModType::L,
                value: 3
            }
        ))
    );
    assert_eq!(
        dice_roll_mod("  "),
        Err(refusal(ParseErrorKind::ExpectedModifier, 2))
    );
    assert_eq!(
        dice_roll_mod(" x12"),
        Err(refusal(ParseErrorKind::UnknownModifier, 1))
    );
    assert_eq!(
        dice_roll_mod("e"),
        Err(refusal(ParseErrorKind::ExpectedDigit, 1))
    );
    assert_eq!(
        dice_roll_mod("e x"),
        Err(refusal(ParseErrorKind::ExpectedDigit, 2))
    );
    assert_eq!(
        dice_roll_mod("r99999999999999999999"),
        Err(refusal(ParseErrorKind::NumberOutOfRange, 1))
    );
}

fn roll(number_of_dice: u64, dice_range: u64, mods: &[(RollModType, u64)]) -> ComplexDiceRoll {
    ComplexDiceRoll {
        dice_roll: DiceRoll {
            number_of_dice,
            dice_range,
        },
        roll_mods: mods
            .iter()
            .map(|&(roll_mod_type, value)| RollMod {
                roll_mod_type,
                value,
            })
            .collect(),
    }
}

#[test]
fn what_follows_a_roll_is_left() {
    assert_eq!(
        complex_dice_roll_parse("  17d1 k11 r6"),
        Ok(("", roll(17, 1, &[(RollModType::K, 11), (RollModType::R, 6)])))
    );
    assert_eq!(complex_dice_roll_parse("1d6"), Ok(("", roll(1, 6, &[]))));
    assert_eq!(complex_dice_roll_parse("1d6  \t"), Ok(("  \t", roll(1, 6, &[]))));
    assert_eq!(
        complex_dice_roll_parse("2d8 l1 + 4"),
        Ok((" + 4", roll(2, 8, &[(RollModType::L, 1)])))
    );
    assert_eq!(
        complex_dice_roll_parse("2d8+4"),
        Ok(("+4", roll(2, 8, &[])))
    );
    assert_eq!(
        complex_dice_roll_parse("2d8 e3 7"),
        Ok((" 7", roll(2, 8, &[(RollModType::E, 3)])))
    );
    assert_eq!(
        complex_dice_roll_parse("2d8, 3d6"),
        Ok((", 3d6", roll(2, 8, &[])))
    );
    // Characters outside ASCII are no letters of the notation.
    assert_eq!(
        complex_dice_roll_parse("2d8\u{212A}1"),
        Ok(("\u{212A}1", roll(2, 8, &[])))
    );
    assert_eq!(
        complex_dice_roll_parse("2d8 é"),
        Ok((" é", roll(2, 8, &[])))
    );
    // A line break is no blank: it ends the roll.
    assert_eq!(
        complex_dice_roll_parse("2d8\nk1"),
        Ok(("\nk1", roll(2, 8, &[])))
    );
    assert_eq!(
        complex_dice_roll_parse("1\td\t6\te\t2\t"),
        Ok(("\t", roll(1, 6, &[(RollModType::E, 2)])))
    );
}

#[test]
fn a_letter_after_a_roll_has_to_begin_a_modifier() {
    assert_eq!(
        complex_dice_roll_parse("2d6x3"),
        Err(refusal(ParseErrorKind::UnknownModifier, 3))
    );
    assert_eq!(
        complex_dice_roll_parse("1d6x12"),
        Err(refusal(ParseErrorKind::UnknownModifier, 3))
    );
    assert_eq!(
        complex_dice_roll_parse("1d6 k2  x3"),
        Err(refusal(ParseErrorKind::UnknownModifier, 8))
    );
    assert_eq!(
        complex_dice_roll_parse("4d1 l3 and more"),
        Err(refusal(ParseErrorKind::UnknownModifier, 7))
    );
    assert_eq!(
        complex_dice_roll_parse("2d6 d6"),
        Err(refusal(ParseErrorKind::UnknownModifier, 4))
    );
    assert_eq!(
        complex_dice_roll_parse("2d6Z"),
        Err(refusal(ParseErrorKind::UnknownModifier, 3))
    );
    assert_eq!(
        complex_dice_roll_parse("2d6 a"),
        Err(refusal(ParseErrorKind::UnknownModifier, 4))
    );
}

#[test]
fn a_modifier_letter_needs_its_number() {
    assert_eq!(
        complex_dice_roll_parse("1d6 e"),
        Err(refusal(ParseErrorKind::ExpectedDigit, 5))
    );
    assert_eq!(
        complex_dice_roll_parse("1d6 e2 k"),
        Err(refusal(ParseErrorKind::ExpectedDigit, 8))
    );
    assert_eq!(
        complex_dice_roll_parse("1d6 e2 k +1"),
        Err(refusal(ParseErrorKind::ExpectedDigit, 9))
    );
    assert_eq!(
        complex_dice_roll_parse("1d6kk1"),
        Err(refusal(ParseErrorKind::ExpectedDigit, 4))
    );
    assert_eq!(
        complex_dice_roll_parse("3d4r99999999999999999999"),
        Err(refusal(ParseErrorKind::NumberOutOfRange, 4))
    );
    assert_eq!(
        complex_dice_roll_parse("3d4 R 18446744073709551616 k1"),
        Err(refusal(ParseErrorKind::NumberOutOfRange, 6))
    );
}

#[test]
fn a_roll_needs_its_dice_term() {
    assert_eq!(
        complex_dice_roll_parse(""),
        Err(refusal(ParseErrorKind::ExpectedDigit, 0))
    );
    assert_eq!(
        complex_dice_roll_parse("  e5"),
        Err(refusal(ParseErrorKind::ExpectedDigit, 2))
    );
    assert_eq!(
        complex_dice_roll_parse("12 k5"),
        Err(refusal(ParseErrorKind::ExpectedSeparator, 3))
    );
    assert_eq!(
        complex_dice_roll_parse("12d k5"),
        Err(refusal(ParseErrorKind::ExpectedDigit, 4))
    );
}

#[test]
fn a_roll_is_read_from_the_middle_of_bytes() {
    let bytes = "roll 2d6 k1!".as_bytes();
    assert_eq!(
        complex_dice_roll_at(bytes, 4),
        Ok((roll(2, 6, &[(RollModType::K, 1)]), 11))
    );
    assert_eq!(
        complex_dice_roll_at(bytes, 0),
        Err(refusal(ParseErrorKind::ExpectedDigit, 0))
    );
    assert_eq!(
        complex_dice_roll_at("roll 2d6 k1 now".as_bytes(), 4),
        Err(refusal(ParseErrorKind::UnknownModifier, 12))
    );
}

#[test]
fn rolls_are_equal_by_term_and_modifiers_in_order() {
    let a = roll(2, 6, &[(RollModType::K, 1), (RollModType::R, 1)]);
    assert!(a == roll(2, 6, &[(RollModType::K, 1), (RollModType::R, 1)]));
    assert!(a != roll(2, 6, &[(RollModType::R, 1), (RollModType::K, 1)]));
    assert!(a != roll(2, 6, &[(RollModType::K, 1)]));
    assert!(a != roll(2, 6, &[(RollModType::K, 1), (RollModType::R, 2)]));
    assert!(a != roll(3, 6, &[(RollModType::K, 1), (RollModType::R, 1)]));
    assert!(a != roll(2, 8, &[(RollModType::K, 1), (RollModType::R, 1)]));
    assert!(roll(0, 0, &[]) == roll(0, 0, &[]));
}

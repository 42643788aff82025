use rust_dicegen::calculation::{RandomSource, RollError};
use rust_dicegen::controller::{check_roll, parse_dice, roll_complex_dice, roll_simple_dice};
use rust_dicegen::parsing::{
    ComplexDiceRoll, DiceRoll, ParseError, ParseErrorKind, RollMod, RollModType,
};

fn parse_and_roll_dice(text: &str) -> Result<Vec<u64>, &str> {
    let dice_roll_parse = match parse_dice(text) {
        Ok(roll) => roll,
        Err(_) => return Err("Invalid dice roll format"),
    };
    let roll_request = match roll_complex_dice(dice_roll_parse, rand::thread_rng()) {
        Ok(outcome) => outcome,
        Err(_) => return Err("Invalid roll parameters"),
    };
    match roll_request {
        Some(result) => Ok(result),
        None => Err("No dice left to roll!"),
    }
}

#[test]
fn mod_dice_roll_calculates_as_expected() {
    assert_eq!(parse_and_roll_dice("17d1 k11 r6"), Ok(vec![1, 1, 1, 1, 1]));
}

#[test]
fn controller_dice_roll_calculates_as_expected() {
    assert_eq!(parse_and_roll_dice("17d1 k11 r6"), Ok(vec![1, 1, 1, 1, 1]));
}

#[test]
fn what_becomes_of_a_text() {
    assert_eq!(parse_and_roll_dice("3d1 r3"), Err("No dice left to roll!"));
    assert_eq!(parse_and_roll_dice("3 1"), Err("Invalid dice roll format"));
    assert_eq!(parse_and_roll_dice("3d0"), Err("Invalid roll parameters"));
    assert_eq!(parse_and_roll_dice("3d6 e1"), Err("Invalid roll parameters"));
    assert_eq!(parse_and_roll_dice("4d1 l3 + more"), Ok(vec![1, 1, 1]));
    assert_eq!(
        parse_and_roll_dice("4d1 l3 and more"),
        Err("Invalid dice roll format")
    );
    assert_eq!(parse_and_roll_dice("2d6x3"), Err("Invalid dice roll format"));
    assert_eq!(parse_and_roll_dice("2d6 k"), Err("Invalid dice roll format"));
}

/// A source that shows the given values one after another and counts them.
struct Counting {
    values: Vec<u64>,
    shown: usize,
}

impl RandomSource for Counting {
    fn uniform(&mut self, low: u64, high: u64) -> u64 {
        let value = self.values[self.shown % self.values.len()];
        self.shown += 1;
        assert!(low <= value && value <= high);
        value
    }
}

/// A source that no die may be drawn from.
struct Untouched;

impl RandomSource for Untouched {
    fn uniform(&mut self, _low: u64, _high: u64) -> u64 {
        panic!("a die was drawn")
    }
}

fn roll(number_of_dice: u64, dice_range: u64, mods: &[(RollModType, u64)]) -> ComplexDiceRoll {
    ComplexDiceRoll {
        dice_roll: DiceRoll {
            number_of_dice,
            dice_range,
        },
        roll_mods: mods
            .iter()
            .map(|&(roll_mod_type, value)| RollMod {
                roll_mod_type,
                value,
            })
            .collect(),
    }
}

fn showing(values: &[u64]) -> Counting {
    Counting {
        values: values.to_vec(),
        shown: 0,
    }
}

#[test]
fn parse_dice_drops_what_follows_the_roll() {
    assert_eq!(
        parse_dice("23d45 e32  R12 "),
        Ok(roll(23, 45, &[(RollModType::E, 32), (RollModType::R, 12)]))
    );
    assert_eq!(parse_dice("2d6+3"), Ok(roll(2, 6, &[])));
    assert_eq!(
        parse_dice("2d6x3"),
        Err(ParseError {
            kind: ParseErrorKind::UnknownModifier,
            offset: 3
        })
    );
    assert_eq!(
        parse_dice("2d6 e"),
        Err(ParseError {
            kind: ParseErrorKind::ExpectedDigit,
            offset: 5
        })
    );
    assert_eq!(
        parse_dice("d6"),
        Err(ParseError {
            kind: ParseErrorKind::ExpectedDigit,
            offset: 0
        })
    );
}

#[test]
fn modifiers_are_applied_in_their_order() {
    let dice = [3, 9, 1, 7, 5];
    assert_eq!(
        roll_complex_dice(
            roll(5, 10, &[(RollModType::K, 3), (RollModType::L, 1)]),
            showing(&dice)
        ),
        Ok(Some(vec![5]))
    );
    assert_eq!(
        roll_complex_dice(
            roll(5, 10, &[(RollModType::L, 1), (RollModType::K, 3)]),
            showing(&dice)
        ),
        Ok(Some(vec![1]))
    );
    assert_eq!(
        roll_complex_dice(
            roll(5, 10, &[(RollModType::R, 1), (RollModType::L, 2)]),
            showing(&dice)
        ),
        Ok(Some(vec![3, 5]))
    );
    assert_eq!(
        roll_complex_dice(roll(5, 10, &[]), showing(&dice)),
        Ok(Some(vec![1, 3, 5, 7, 9]))
    );
}

#[test]
fn a_roll_with_an_explosion_between_other_modifiers() {
    // Base roll 3, 9, 1, 7, 5; keep the four highest: 3, 5, 7, 9. Explode on
    // 7: two explosions, settled by the dice 8 (settles nothing), 2 and 6.
    // Remove the lowest: 3, 5, 6, 7, 8, 9.
    assert_eq!(
        roll_complex_dice(
            roll(
                5,
                10,
                &[
                    (RollModType::K, 4),
                    (RollModType::E, 7),
                    (RollModType::R, 1)
                ]
            ),
            showing(&[3, 9, 1, 7, 5, 8, 2, 6, 4])
        ),
        Ok(Some(vec![3, 5, 6, 7, 8, 9]))
    );
}

#[test]
fn an_emptied_roll_stays_empty() {
    assert_eq!(
        roll_complex_dice(
            roll(
                3,
                6,
                &[
                    (RollModType::R, 3),
                    (RollModType::K, 2),
                    (RollModType::E, 2),
                    (RollModType::L, 1)
                ]
            ),
            showing(&[6, 6, 6])
        ),
        Ok(None)
    );
}

#[test]
fn a_roll_is_refused_before_a_die_is_drawn() {
    assert_eq!(
        roll_complex_dice(roll(3, 0, &[]), Untouched),
        Err(RollError::ZeroDiceRange)
    );
    assert_eq!(
        roll_complex_dice(
            roll(3, 6, &[(RollModType::K, 1), (RollModType::E, 1)]),
            Untouched
        ),
        Err(RollError::ExplodeOnEveryDie)
    );
    assert_eq!(
        roll_complex_dice(
            roll(3, 6, &[(RollModType::R, 5), (RollModType::E, 0)]),
            Untouched
        ),
        Err(RollError::ExplodeOnEveryDie)
    );
    assert_eq!(
        roll_complex_dice(roll(3, 0, &[(RollModType::E, 1)]), Untouched),
        Err(RollError::ZeroDiceRange)
    );
    assert!(roll_simple_dice(
        DiceRoll {
            number_of_dice: 2,
            dice_range: 0
        },
        Untouched
    )
    .is_err());
}

#[test]
fn check_roll_tells_what_is_wrong() {
    assert_eq!(check_roll(&roll(3, 6, &[])), Ok(()));
    assert_eq!(
        check_roll(&roll(3, 6, &[(RollModType::E, 2), (RollModType::R, 0)])),
        Ok(())
    );
    // Thresholds and counts of zero or one are wrong for explosions only.
    assert_eq!(
        check_roll(&roll(
            0,
            1,
            &[
                (RollModType::R, 0),
                (RollModType::K, 1),
                (RollModType::L, 0)
            ]
        )),
        Ok(())
    );
    assert_eq!(check_roll(&roll(3, 0, &[])), Err(RollError::ZeroDiceRange));
    assert_eq!(
        check_roll(&roll(3, 6, &[(RollModType::E, 2), (RollModType::E, 1)])),
        Err(RollError::ExplodeOnEveryDie)
    );
}

#[test]
fn the_base_roll_of_a_dice_term() {
    let request = roll_simple_dice(
        DiceRoll {
            number_of_dice: 4,
            dice_range: 8,
        },
        showing(&[8, 2, 4, 2]),
    )
    .unwrap();
    assert_eq!(request.as_vec(), Some(vec![2, 2, 4, 8]));
}

//! From a parsed roll to its outcome.

use vstd::prelude::*;
use crate::calculation::outcome::{
    all_within, explodes_to, is_ascending, is_base_roll, kept, kept_lower,
    lemma_explosion_length, outcome_view, removed, rolled_as_foretold,
};
use crate::calculation::{RandomSource, RollError, RollRequest};
use crate::parsing::dice_roll::{complex_dice_roll_parse, read_complex_roll};
use crate::parsing::{ComplexDiceRoll, DiceRoll, ParseError, RollMod, RollModType};
use vstd::string::*;

verus! {

/// Whether `modifier` is an explosion that every die would set off.
pub open spec fn explodes_on_every_die(modifier: RollMod) -> bool {
    modifier.roll_mod_type == RollModType::E && modifier.value <= 1
}

/// Why `roll` is refused, if it is: its dice have no faces, or one of its
/// modifiers explodes on every die.
pub open spec fn roll_refusal(roll: ComplexDiceRoll) -> Option<RollError> {
    if roll.dice_roll.dice_range == 0 {
        Some(RollError::ZeroDiceRange)
    } else if exists|i: int|
        0 <= i < roll.roll_mods@.len() && explodes_on_every_die(#[trigger] roll.roll_mods@[i]) {
        Some(RollError::ExplodeOnEveryDie)
    } else {
        None
    }
}

/// Whether `after` can be the outcome once `modifier` has been applied to
/// `before`. Removing and keeping leave one possibility; an explosion leaves
/// as many as the dice allow.
pub open spec fn modifier_yields(
    before: Option<Seq<u64>>,
    modifier: RollMod,
    dice_range: u64,
    after: Option<Seq<u64>>,
) -> bool {
    match modifier.roll_mod_type {
        RollModType::E => match before {
            Some(values) => after matches Some(exploded) && explodes_to(
                values,
                exploded,
                modifier.value,
                dice_range,
            ),
            None => after is None,
        },
        RollModType::R => after == removed(before, modifier.value),
        RollModType::K => after == kept(before, modifier.value),
        RollModType::L => after == kept_lower(before, modifier.value),
    }
}

/// Whether `stages` are the outcomes that an evaluation of `roll` passes
/// through: first a base roll of its dice term, then one more outcome for
/// each modifier, in order.
pub open spec fn is_evaluation(roll: ComplexDiceRoll, stages: Seq<Option<Seq<u64>>>) -> bool {
    &&& stages.len() == roll.roll_mods@.len() + 1
    &&& stages[0] matches Some(base) && is_base_roll(
        base,
        roll.dice_roll.number_of_dice,
        roll.dice_roll.dice_range,
    )
    &&& forall|i: int|
        0 <= i < roll.roll_mods@.len() ==> modifier_yields(
            stages[i],
            #[trigger] roll.roll_mods@[i],
            roll.dice_roll.dice_range,
            stages[i + 1],
        )
}

/// Whether `outcome` can be what `roll` evaluates to, whatever the dice show.
pub open spec fn evaluates_to(roll: ComplexDiceRoll, outcome: Option<Seq<u64>>) -> bool {
    exists|stages: Seq<Option<Seq<u64>>>|
        #[trigger] is_evaluation(roll, stages) && stages.last() == outcome
}

/// Whether the values of `outcome`, if it holds any, are in ascending order
/// and between 1 and `dice_range`.
pub open spec fn is_rolled_outcome(outcome: Option<Seq<u64>>, dice_range: u64) -> bool {
    outcome matches Some(values) ==> is_ascending(values) && all_within(values, 1, dice_range)
}

/// Every outcome that an evaluation passes through is in ascending order and
/// holds values between 1 and the dice range only.
proof fn lemma_stages_are_rolled(roll: ComplexDiceRoll, stages: Seq<Option<Seq<u64>>>, at: int)
    requires
        is_evaluation(roll, stages),
        0 <= at < stages.len(),
    ensures
        is_rolled_outcome(stages[at], roll.dice_roll.dice_range),
    decreases at,
{
    if at > 0 {
        lemma_stages_are_rolled(roll, stages, at - 1);
        let modifier = roll.roll_mods@[at - 1];
        let dice_range = roll.dice_roll.dice_range;
        assert(modifier_yields(stages[at - 1], modifier, dice_range, stages[at - 1 + 1]));
        match (stages[at - 1], stages[at]) {
            (Some(before), Some(after)) => {
                if modifier.roll_mod_type == RollModType::E {
                    lemma_explosion_length(before, after, modifier.value, dice_range);
                }
            },
            _ => {},
        }
    }
}

/// Whatever the dice show, the values that a roll evaluates to are in
/// ascending order and lie between 1 and its dice range.
pub proof fn lemma_evaluation_is_rolled(roll: ComplexDiceRoll, outcome: Option<Seq<u64>>)
    requires
        evaluates_to(roll, outcome),
    ensures
        is_rolled_outcome(outcome, roll.dice_roll.dice_range),
{
    let stages = choose|stages: Seq<Option<Seq<u64>>>|
        #[trigger] is_evaluation(roll, stages) && stages.last() == outcome;
    lemma_stages_are_rolled(roll, stages, stages.len() - 1);
}

/// Reads the roll that `text` starts with. What follows the roll in `text` is
/// left aside; a letter after the roll that begins no modifier is an error,
/// as a missing dice term is.
pub fn parse_dice(text: &str) -> (parsed: Result<ComplexDiceRoll, ParseError>)
    ensures
        match read_complex_roll(text.spec_bytes(), 0) {
            Ok((dice_roll, roll_mods, _)) => parsed matches Ok(roll) && roll.dice_roll == dice_roll
                && roll.roll_mods@ == roll_mods,
            Err(error) => parsed matches Err(refusal) && refusal == error,
        },
{
    match complex_dice_roll_parse(text) {
        Ok((_, successful_parsed_roll)) => Ok(successful_parsed_roll),
        Err(error) => Err(error),
    }
}

/// Tells whether `roll` can be evaluated, before a die is drawn for it.
pub fn check_roll(roll: &ComplexDiceRoll) -> (checked: Result<(), RollError>)
    ensures
        match roll_refusal(*roll) {
            Some(refusal) => checked == Err::<(), RollError>(refusal),
            None => checked is Ok,
        },
{
    if roll.dice_roll.dice_range == 0 {
        return Err(RollError::ZeroDiceRange);
    }
    let mut i: usize = 0;
    while i < roll.roll_mods.len()
        invariant
            i <= roll.roll_mods.len(),
            roll.dice_roll.dice_range != 0,
            forall|j: int| 0 <= j < i ==> !explodes_on_every_die(#[trigger] roll.roll_mods@[j]),
        decreases roll.roll_mods.len() - i,
    {
        let modifier = roll.roll_mods[i];
        if modifier.roll_mod_type == RollModType::E && modifier.value <= 1 {
            assert(explodes_on_every_die(roll.roll_mods@[i as int]));
            return Err(RollError::ExplodeOnEveryDie);
        }
        i += 1;
    }
    Ok(())
}

/// Rolls the dice of `dice` from `rng`: the base roll of an evaluation.
pub fn roll_simple_dice<R: RandomSource>(dice: DiceRoll, rng: R) -> (rolled: Result<
    RollRequest<R>,
    RollError,
>)
    ensures
        if dice.dice_range == 0 {
            rolled matches Err(error) && error == RollError::ZeroDiceRange
        } else {
            rolled matches Ok(request) && request@ matches Some(values) && is_base_roll(
                values,
                dice.number_of_dice,
                dice.dice_range,
            ) && rolled_as_foretold(
                rng,
                dice.dice_range,
                dice.number_of_dice as nat,
                values,
                request.source(),
            )
        },
{
    RollRequest::new(rng).roll_dice(dice.number_of_dice, dice.dice_range)
}

/// Evaluates `roll` with dice drawn from `rng`: the base roll, then each
/// modifier in order. The outcome is absent when a removal has left no dice.
///
/// A roll whose dice have no faces, or with an explosion on a threshold of
/// zero or one, is refused before any die is drawn.
pub fn roll_complex_dice<R: RandomSource>(roll: ComplexDiceRoll, rng: R) -> (outcome: Result<
    Option<Vec<u64>>,
    RollError,
>)
    ensures
        match roll_refusal(roll) {
            Some(refusal) => outcome matches Err(error) && error == refusal,
            None => outcome matches Ok(rolled) && evaluates_to(roll, outcome_view(rolled))
                && is_rolled_outcome(outcome_view(rolled), roll.dice_roll.dice_range),
        },
{
    match check_roll(&roll) {
        Err(refusal) => {
            return Err(refusal);
        },
        Ok(_) => {},
    }
    // The roll has been checked: neither the base roll nor an explosion
    // refuses it from here on.
    let mut roll_request = match roll_simple_dice(roll.dice_roll, rng) {
        Ok(request) => request,
        Err(refusal) => {
            return Err(refusal);
        },
    };
    let ghost mut stages: Seq<Option<Seq<u64>>> = seq![roll_request@];
    let mut i: usize = 0;
    while i < roll.roll_mods.len()
        invariant
            i <= roll.roll_mods.len(),
            roll_refusal(roll) is None,
            stages.len() == i + 1,
            stages.last() == roll_request@,
            stages[0] matches Some(base) && is_base_roll(
                base,
                roll.dice_roll.number_of_dice,
                roll.dice_roll.dice_range,
            ),
            forall|j: int|
                0 <= j < i ==> modifier_yields(
                    stages[j],
                    #[trigger] roll.roll_mods@[j],
                    roll.dice_roll.dice_range,
                    stages[j + 1],
                ),
        decreases roll.roll_mods.len() - i,
    {
        let m = roll.roll_mods[i];
        assert(!explodes_on_every_die(roll.roll_mods@[i as int]));
        let ghost before = roll_request@;
        roll_request = match m.roll_mod_type {
            RollModType::E => match roll_request.explode(m.value, roll.dice_roll.dice_range) {
                Ok(request) => request,
                Err(refusal) => {
                    return Err(refusal);
                },
            },
            RollModType::R => roll_request.remove(m.value),
            RollModType::K => roll_request.keep(m.value),
            RollModType::L => roll_request.keep_lower(m.value),
        };
        proof {
            assert(modifier_yields(before, m, roll.dice_roll.dice_range, roll_request@));
            stages = stages.push(roll_request@);
        }
        i += 1;
    }
    proof {
        assert(is_evaluation(roll, stages));
        lemma_evaluation_is_rolled(roll, roll_request@);
    }
    Ok(roll_request.as_vec())
}

} // verus!

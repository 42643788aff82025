//! The steps of a roll: the base roll and the modifiers that reshape it.

use vstd::prelude::*;
use super::outcome::{
    all_within, count_at_least, count_below, explode_refusal, exploded_as_foretold, explodes_to,
    foretells_settling, foretold_run, is_ascending, is_base_roll, is_explosion, kept, kept_lower,
    lemma_ascending_order_is_unique, lemma_foretold_run_start,
    lemma_same_values_stay_within, lemma_settling_run_is_shortest, outcome_view, removed,
    rolled_as_foretold,
};
use super::{RandomSource, RollError, RollRequest};

verus! {

/// `slice::sort` on a vector of integers: afterwards the vector holds the
/// values it held before, in ascending order.
#[verifier::external_body]
fn sort_ascending(values: &mut Vec<u64>)
    ensures
        is_ascending(final(values)@),
        final(values)@.to_multiset() == old(values)@.to_multiset(),
{
    values.sort();
}

/// The outcome that the dice `drawn` make: the same values in ascending
/// order, which is one order only.
pub fn in_ascending_order(drawn: Vec<u64>) -> (outcome: Vec<u64>)
    ensures
        is_ascending(outcome@),
        outcome@.to_multiset() == drawn@.to_multiset(),
{
    let mut outcome = drawn;
    sort_ascending(&mut outcome);
    outcome
}

/// One step of an explosion, once its die has been drawn: `die` is added to
/// `values`, and a die below `threshold` settles one of the `pending`
/// explosions. The result is the number of explosions that are still owed.
pub fn settle(values: &mut Vec<u64>, pending: usize, die: u64, threshold: u64) -> (left: usize)
    ensures
        final(values)@ == old(values)@.push(die),
        left == if die < threshold && pending > 0 {
            pending - 1
        } else {
            pending as int
        },
{
    values.push(die);
    if die < threshold && pending > 0 {
        pending - 1
    } else {
        pending
    }
}

/// Counts the values of `values` that are `threshold` or more.
fn count_reaching(values: &Vec<u64>, threshold: u64) -> (count: usize)
    ensures
        count == count_at_least(values@, threshold),
{
    let mut count: usize = 0;
    let mut i: usize = 0;
    while i < values.len()
        invariant
            i <= values.len(),
            count <= i,
            count == count_at_least(values@.take(i as int), threshold),
        decreases values.len() - i,
    {
        assert(values@.take(i + 1).drop_last() == values@.take(i as int));
        if values[i] >= threshold {
            count += 1;
        }
        i += 1;
    }
    assert(values@.take(i as int) == values@);
    count
}

impl<R: RandomSource> RollRequest<R> {
    /// A request with no outcome yet, drawing its dice from `rng`.
    pub fn new(rng: R) -> (request: RollRequest<R>)
        ensures
            request@ is None,
            request.source() == rng,
    {
        RollRequest { rng, result: None }
    }

    /// The outcome so far, if any.
    pub fn as_vec_ptr(&self) -> (outcome: Option<&Vec<u64>>)
        ensures
            match outcome {
                Some(values) => self@ == Some(values@) && is_ascending(values@),
                None => self@ is None,
            },
    {
        proof {
            use_type_invariant(self);
        }
        self.result.as_ref()
    }

    /// Ends the request and hands out its outcome, if any.
    pub fn as_vec(self) -> (outcome: Option<Vec<u64>>)
        ensures
            outcome_view(outcome) == self@,
            outcome matches Some(values) ==> is_ascending(values@),
    {
        proof {
            use_type_invariant(&self);
        }
        self.result
    }

    /// Rolls `number_of_dice` dice with `dice_range` faces each and makes the
    /// result, in ascending order, the outcome: one draw from 1 to
    /// `dice_range` for each die. Dice without faces are refused before any
    /// die is drawn.
    pub fn roll_dice(self, number_of_dice: u64, dice_range: u64) -> (rolled: Result<
        RollRequest<R>,
        RollError,
    >)
        ensures
            if dice_range == 0 {
                rolled matches Err(error) && error == RollError::ZeroDiceRange
            } else {
                rolled matches Ok(request) && request@ matches Some(values) && is_base_roll(
                    values,
                    number_of_dice,
                    dice_range,
                ) && rolled_as_foretold(
                    self.source(),
                    dice_range,
                    number_of_dice as nat,
                    values,
                    request.source(),
                )
            },
    {
        if dice_range == 0 {
            return Err(RollError::ZeroDiceRange);
        }
        let ghost source = self.source();
        let RollRequest { mut rng, result: _ } = self;
        let mut values: Vec<u64> = Vec::new();
        let mut rolled: u64 = 0;
        while rolled < number_of_dice
            invariant
                rolled <= number_of_dice,
                values@.len() == rolled,
                all_within(values@, 1, dice_range),
                dice_range >= 1,
                foretold_run(source, 1, dice_range, rolled as nat) matches Some((run, left))
                    ==> values@ == run && rng == left,
            decreases number_of_dice - rolled,
        {
            let die = rng.uniform(1, dice_range);
            values.push(die);
            rolled += 1;
        }
        let ghost drawn = values@;
        let values = in_ascending_order(values);
        proof {
            lemma_same_values_stay_within(drawn, values@, 1, dice_range);
        }
        Ok(RollRequest { rng, result: Some(values) })
    }

    /// Explodes the outcome on `explode_on_greater`: every value that reaches
    /// the threshold owes one more die. Dice with `dice_range` faces are drawn
    /// and added to the outcome until as many of them have fallen below the
    /// threshold as explosions were owed; a drawn die that reaches the
    /// threshold is added and settles nothing. The outcome is put in ascending
    /// order again. Without an outcome nothing is drawn.
    ///
    /// Dice without faces and a threshold of zero or one, which every die
    /// reaches, are refused before any die is drawn.
    pub fn explode(self, explode_on_greater: u64, dice_range: u64) -> (exploded: Result<
        RollRequest<R>,
        RollError,
    >)
        ensures
            match explode_refusal(explode_on_greater, dice_range) {
                Some(refusal) => exploded matches Err(error) && error == refusal,
                None => exploded matches Ok(request) && match self@ {
                    Some(before) => request@ matches Some(after) && explodes_to(
                        before,
                        after,
                        explode_on_greater,
                        dice_range,
                    ) && (count_at_least(before, explode_on_greater) == 0 ==> after == before
                        && request.source() == self.source()) && exploded_as_foretold(
                        self.source(),
                        before,
                        after,
                        request.source(),
                        explode_on_greater,
                        dice_range,
                    ),
                    None => request@ is None && request.source() == self.source(),
                },
            },
    {
        if dice_range == 0 {
            return Err(RollError::ZeroDiceRange);
        }
        if explode_on_greater <= 1 {
            return Err(RollError::ExplodeOnEveryDie);
        }
        proof {
            use_type_invariant(&self);
        }
        let ghost source = self.source();
        let RollRequest { mut rng, result } = self;
        match result {
            Some(mut values) => {
                let ghost before = values@;
                let ghost debt = count_at_least(before, explode_on_greater);
                let ghost mut draws = Seq::<u64>::empty();
                let mut number_of_extra_rolls = count_reaching(&values, explode_on_greater);
                // Each pass adds one value, and no vector is longer than
                // `usize::MAX`: that bounds the passes. A fair source settles
                // each explosion after finitely many dice.
                while number_of_extra_rolls > 0
                    invariant
                        dice_range >= 1,
                        values@ == before + draws,
                        all_within(draws, 1, dice_range),
                        count_below(draws, explode_on_greater) + number_of_extra_rolls
                            == count_at_least(before, explode_on_greater),
                        number_of_extra_rolls == 0 && draws.len() > 0 ==> draws.last()
                            < explode_on_greater,
                        draws.len() == 0 ==> rng == source,
                        debt == count_at_least(before, explode_on_greater),
                        foretold_run(source, 1, dice_range, draws.len()) matches Some((run, left))
                            ==> draws == run && rng == left,
                        forall|shorter: nat|
                            shorter < draws.len() ==> (#[trigger] foretold_run(
                                source,
                                1,
                                dice_range,
                                shorter,
                            ) matches Some((run, _)) ==> count_below(run, explode_on_greater)
                                < debt),
                    decreases usize::MAX - values.len(),
                {
                    let dice_roll = rng.uniform(1, dice_range);
                    number_of_extra_rolls =
                    settle(&mut values, number_of_extra_rolls, dice_roll, explode_on_greater);
                    proof {
                        assert(draws.push(dice_roll).drop_last() == draws);
                        draws = draws.push(dice_roll);
                    }
                }
                let values = in_ascending_order(values);
                proof {
                    if draws.len() == 0 {
                        assert(before + draws == before);
                        lemma_ascending_order_is_unique(values@, before);
                    }
                    assert forall|run: Seq<u64>, rest: R| #[trigger]
                        foretells_settling(
                            source,
                            run,
                            rest,
                            debt,
                            explode_on_greater,
                            dice_range,
                        ) implies run == draws && rest == rng by {
                        if run.len() > draws.len() {
                            lemma_foretold_run_start(source, 1, dice_range, run.len(), draws.len());
                            lemma_settling_run_is_shortest(
                                run,
                                draws.len() as int,
                                debt,
                                explode_on_greater,
                                dice_range,
                            );
                        }
                    }
                }
                let request = RollRequest { rng, result: Some(values) };
                assert(request@ == Some(values@));
                assert(is_explosion(before, draws, values@, explode_on_greater, dice_range));
                assert(explodes_to(before, values@, explode_on_greater, dice_range));
                Ok(request)
            },
            None => Ok(RollRequest { rng, result: None }),
        }
    }

    /// Removes the `count` lowest values. Nothing is left when `count`
    /// reaches the number of values.
    pub fn remove(self, count: u64) -> (request: RollRequest<R>)
        ensures
            request@ == removed(self@, count),
            request.source() == self.source(),
    {
        proof {
            use_type_invariant(&self);
        }
        let RollRequest { rng, result } = self;
        match result {
            Some(mut values) => {
                if values.len() as u64 > count {
                    let rest = values.split_off(count as usize);
                    RollRequest { rng, result: Some(rest) }
                } else {
                    RollRequest { rng, result: None }
                }
            },
            None => RollRequest { rng, result: None },
        }
    }

    /// Keeps the `count` highest values. An outcome of no more than `count`
    /// values stays as it is.
    pub fn keep(self, count: u64) -> (request: RollRequest<R>)
        ensures
            request@ == kept(self@, count),
            request.source() == self.source(),
    {
        proof {
            use_type_invariant(&self);
        }
        let RollRequest { rng, result } = self;
        match result {
            Some(mut values) => {
                if values.len() as u64 > count {
                    let keep_index = values.len() - count as usize;
                    let highest = values.split_off(keep_index);
                    RollRequest { rng, result: Some(highest) }
                } else {
                    RollRequest { rng, result: Some(values) }
                }
            },
            None => RollRequest { rng, result: None },
        }
    }

    /// Keeps the `count` lowest values. An outcome of no more than `count`
    /// values stays as it is.
    pub fn keep_lower(self, count: u64) -> (request: RollRequest<R>)
        ensures
            request@ == kept_lower(self@, count),
            request.source() == self.source(),
    {
        proof {
            use_type_invariant(&self);
        }
        let RollRequest { rng, result } = self;
        match result {
            Some(mut values) => {
                if values.len() as u64 > count {
                    values.truncate(count as usize);
                }
                RollRequest { rng, result: Some(values) }
            },
            None => RollRequest { rng, result: None },
        }
    }
}

} // verus!

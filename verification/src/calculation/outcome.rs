//! Outcomes of a roll as sequences of values, and what the steps of a roll
//! make of them.

use vstd::prelude::*;
use super::{RandomSource, RollError};

verus! {

/// An outcome as a roll hands it out, seen as a sequence of values.
pub open spec fn outcome_view(rolls: Option<Vec<u64>>) -> Option<Seq<u64>> {
    match rolls {
        Some(values) => Some(values@),
        None => None,
    }
}

/// Whether the values of `s` never decrease from left to right.
pub open spec fn is_ascending(s: Seq<u64>) -> bool {
    forall|i: int, j: int| 0 <= i <= j < s.len() ==> s[i] <= s[j]
}

/// Whether every value of `s` lies in the closed interval `[low, high]`.
pub open spec fn all_within(s: Seq<u64>, low: u64, high: u64) -> bool {
    forall|i: int| 0 <= i < s.len() ==> low <= #[trigger] s[i] <= high
}

/// How many values of `s` are `threshold` or more.
pub open spec fn count_at_least(s: Seq<u64>, threshold: u64) -> nat
    decreases s.len(),
{
    if s.len() == 0 {
        0
    } else {
        count_at_least(s.drop_last(), threshold) + if s.last() >= threshold {
            1nat
        } else {
            0nat
        }
    }
}

/// How many values of `s` are less than `threshold`.
pub open spec fn count_below(s: Seq<u64>, threshold: u64) -> nat
    decreases s.len(),
{
    if s.len() == 0 {
        0
    } else {
        count_below(s.drop_last(), threshold) + if s.last() < threshold {
            1nat
        } else {
            0nat
        }
    }
}

/// A fresh roll of `number_of_dice` dice with `dice_range` faces each: that
/// many values between 1 and `dice_range`, in ascending order.
pub open spec fn is_base_roll(outcome: Seq<u64>, number_of_dice: u64, dice_range: u64) -> bool {
    &&& outcome.len() == number_of_dice
    &&& all_within(outcome, 1, dice_range)
    &&& is_ascending(outcome)
}

/// Whether `draws` is a run of dice that settles `debt` pending explosions:
/// every die has between 1 and `dice_range` pips, exactly `debt` of them fall
/// below `threshold`, and the run stops at the die that settles the last one.
pub open spec fn settles_explosions(
    draws: Seq<u64>,
    debt: nat,
    threshold: u64,
    dice_range: u64,
) -> bool {
    &&& all_within(draws, 1, dice_range)
    &&& count_below(draws, threshold) == debt
    &&& draws.len() > 0 ==> draws.last() < threshold
}

/// What `count` draws in a row from `[low, high]` show, in the order in which
/// they are drawn, and what they leave of `source`, where the source
/// foretells every one of them.
pub open spec fn foretold_run<R: RandomSource>(source: R, low: u64, high: u64, count: nat) -> Option<
    (Seq<u64>, R),
>
    decreases count,
{
    if count == 0 {
        Some((Seq::empty(), source))
    } else {
        match foretold_run(source, low, high, (count - 1) as nat) {
            Some((run, left)) => match left.foretold(low, high) {
                Some((shown, after)) => Some((run.push(shown), after)),
                None => None,
            },
            None => None,
        }
    }
}

/// Whether `source` foretells the dice `run`, leaving `left` of itself, and
/// these dice settle `debt` pending explosions: they are the dice that an
/// explosion draws from this source.
pub open spec fn foretells_settling<R: RandomSource>(
    source: R,
    run: Seq<u64>,
    left: R,
    debt: nat,
    threshold: u64,
    dice_range: u64,
) -> bool {
    &&& foretold_run(source, 1, dice_range, run.len()) == Some((run, left))
    &&& settles_explosions(run, debt, threshold, dice_range)
}

/// Whether a base roll of `number_of_dice` dice that gave `values` and left
/// `left` of `source` went as the source foretold, where it foretold the
/// dice: the values are the foretold dice, and the source is what they leave
/// of it.
pub open spec fn rolled_as_foretold<R: RandomSource>(
    source: R,
    dice_range: u64,
    number_of_dice: nat,
    values: Seq<u64>,
    left: R,
) -> bool {
    foretold_run(source, 1, dice_range, number_of_dice) matches Some((run, after))
        ==> values.to_multiset() == run.to_multiset() && left == after
}

/// Whether an explosion of `before` that gave `after` and left `left` of
/// `source` went as the source foretold, where it foretold the dice that
/// settle the explosions: `after` holds the values of `before` and these
/// dice, and the source is what they leave of it.
pub open spec fn exploded_as_foretold<R: RandomSource>(
    source: R,
    before: Seq<u64>,
    after: Seq<u64>,
    left: R,
    threshold: u64,
    dice_range: u64,
) -> bool {
    forall|run: Seq<u64>, rest: R| #[trigger]
        foretells_settling(
            source,
            run,
            rest,
            count_at_least(before, threshold),
            threshold,
            dice_range,
        ) ==> after.to_multiset() == (before + run).to_multiset() && left == rest
}

/// A foretold run holds as many dice as were asked for.
pub proof fn lemma_foretold_run_length<R: RandomSource>(source: R, low: u64, high: u64, count: nat)
    ensures
        foretold_run(source, low, high, count) matches Some((run, _)) ==> run.len() == count,
    decreases count,
{
    if count > 0 {
        lemma_foretold_run_length(source, low, high, (count - 1) as nat);
    }
}

/// Where a run is foretold, every shorter run is: it is the start of the
/// longer one.
pub proof fn lemma_foretold_run_start<R: RandomSource>(
    source: R,
    low: u64,
    high: u64,
    count: nat,
    shorter: nat,
)
    requires
        shorter <= count,
        foretold_run(source, low, high, count) is Some,
    ensures
        foretold_run(source, low, high, shorter) matches Some((start, _)) && start
            == foretold_run(source, low, high, count).unwrap().0.take(shorter as int),
    decreases count,
{
    lemma_foretold_run_length(source, low, high, count);
    let run = foretold_run(source, low, high, count).unwrap().0;
    if shorter == count {
        assert(run.take(shorter as int) == run);
    } else {
        lemma_foretold_run_start(source, low, high, (count - 1) as nat, shorter);
        let before = foretold_run(source, low, high, (count - 1) as nat).unwrap().0;
        lemma_foretold_run_length(source, low, high, (count - 1) as nat);
        assert(run.take(shorter as int) == before.take(shorter as int));
    }
}

/// No more values fall below a threshold at the start of a sequence than in
/// all of it.
pub proof fn lemma_count_below_grows(s: Seq<u64>, threshold: u64, shorter: int)
    requires
        0 <= shorter <= s.len(),
    ensures
        count_below(s.take(shorter), threshold) <= count_below(s, threshold),
    decreases s.len(),
{
    if shorter == s.len() {
        assert(s.take(shorter) == s);
    } else {
        assert(s.drop_last().take(shorter) == s.take(shorter));
        lemma_count_below_grows(s.drop_last(), threshold, shorter);
    }
}

/// Of the starts of a run of dice one at most settles a debt: the run that
/// settles it is no longer than needed.
pub proof fn lemma_settling_run_is_shortest(
    run: Seq<u64>,
    shorter: int,
    debt: nat,
    threshold: u64,
    dice_range: u64,
)
    requires
        0 <= shorter < run.len(),
        settles_explosions(run, debt, threshold, dice_range),
    ensures
        count_below(run.take(shorter), threshold) < debt,
{
    assert(run.drop_last().take(shorter) == run.take(shorter));
    lemma_count_below_grows(run.drop_last(), threshold, shorter);
}

/// Whether `after` is `before` exploded on `threshold` with the dice `draws`:
/// the draws settle one explosion for each value of `before` that reaches the
/// threshold, and `after` holds the old values and the draws in ascending
/// order.
pub open spec fn is_explosion(
    before: Seq<u64>,
    draws: Seq<u64>,
    after: Seq<u64>,
    threshold: u64,
    dice_range: u64,
) -> bool {
    &&& settles_explosions(draws, count_at_least(before, threshold), threshold, dice_range)
    &&& is_ascending(after)
    &&& after.to_multiset() == (before + draws).to_multiset()
}

/// Whether `after` can come of exploding `before` on `threshold` with dice of
/// `dice_range` faces, whatever the dice show.
pub open spec fn explodes_to(
    before: Seq<u64>,
    after: Seq<u64>,
    threshold: u64,
    dice_range: u64,
) -> bool {
    exists|draws: Seq<u64>| is_explosion(before, draws, after, threshold, dice_range)
}

/// Why an explosion on `threshold` with dice of `dice_range` faces is refused,
/// if it is.
pub open spec fn explode_refusal(threshold: u64, dice_range: u64) -> Option<RollError> {
    if dice_range == 0 {
        Some(RollError::ZeroDiceRange)
    } else if threshold <= 1 {
        Some(RollError::ExplodeOnEveryDie)
    } else {
        None
    }
}

/// The outcome after the `count` lowest values are removed: nothing is left
/// when `count` reaches the number of values.
pub open spec fn removed(outcome: Option<Seq<u64>>, count: u64) -> Option<Seq<u64>> {
    match outcome {
        Some(values) => if count < values.len() {
            Some(values.skip(count as int))
        } else {
            None
        },
        None => None,
    }
}

/// The outcome cut down to its `count` highest values: unchanged when it
/// holds no more than `count`.
pub open spec fn kept(outcome: Option<Seq<u64>>, count: u64) -> Option<Seq<u64>> {
    match outcome {
        Some(values) => if count < values.len() {
            Some(values.skip(values.len() - count))
        } else {
            Some(values)
        },
        None => None,
    }
}

/// The outcome cut down to its `count` lowest values: unchanged when it
/// holds no more than `count`.
pub open spec fn kept_lower(outcome: Option<Seq<u64>>, count: u64) -> Option<Seq<u64>> {
    match outcome {
        Some(values) => if count < values.len() {
            Some(values.take(count as int))
        } else {
            Some(values)
        },
        None => None,
    }
}

/// The step that counts one more value when `value` reaches `threshold`.
pub open spec fn count_reaching(threshold: u64) -> spec_fn(nat, u64) -> nat {
    |count: nat, value: u64|
        if value >= threshold {
            count + 1
        } else {
            count
        }
}

/// Counting the values that reach a threshold is a fold over the sequence.
proof fn lemma_count_is_fold(s: Seq<u64>, threshold: u64)
    ensures
        count_at_least(s, threshold) == s.fold_left(0nat, count_reaching(threshold)),
    decreases s.len(),
{
    if s.len() > 0 {
        lemma_count_is_fold(s.drop_last(), threshold);
    }
}

/// The order of the values does not change how many of them reach a
/// threshold.
pub proof fn lemma_count_ignores_order(a: Seq<u64>, b: Seq<u64>, threshold: u64)
    requires
        a.to_multiset() == b.to_multiset(),
    ensures
        count_at_least(a, threshold) == count_at_least(b, threshold),
{
    lemma_count_is_fold(a, threshold);
    lemma_count_is_fold(b, threshold);
    vstd::seq_lib::lemma_fold_left_permutation(a, b, count_reaching(threshold), 0nat);
}

/// Of two sequences put together as many values reach a threshold as in the
/// one and in the other.
pub proof fn lemma_count_of_concatenation(a: Seq<u64>, b: Seq<u64>, threshold: u64)
    ensures
        count_at_least(a + b, threshold) == count_at_least(a, threshold) + count_at_least(
            b,
            threshold,
        ),
    decreases b.len(),
{
    if b.len() == 0 {
        assert(a + b == a);
    } else {
        assert((a + b).drop_last() == a + b.drop_last());
        lemma_count_of_concatenation(a, b.drop_last(), threshold);
    }
}

/// Every value either reaches a threshold or falls below it.
pub proof fn lemma_counts_add_up(s: Seq<u64>, threshold: u64)
    ensures
        count_at_least(s, threshold) + count_below(s, threshold) == s.len(),
    decreases s.len(),
{
    if s.len() > 0 {
        lemma_counts_add_up(s.drop_last(), threshold);
    }
}

/// Values that were all within an interval are still within it, and as many
/// as before, after they have been put in another order.
pub proof fn lemma_same_values_stay_within(before: Seq<u64>, after: Seq<u64>, low: u64, high: u64)
    requires
        all_within(before, low, high),
        after.to_multiset() == before.to_multiset(),
    ensures
        all_within(after, low, high),
        after.len() == before.len(),
{
    vstd::seq_lib::to_multiset_len(before);
    vstd::seq_lib::to_multiset_len(after);
    assert forall|i: int| 0 <= i < after.len() implies low <= #[trigger] after[i] <= high by {
        assert(after.contains(after[i]));
        vstd::seq_lib::to_multiset_contains(after, after[i]);
        vstd::seq_lib::to_multiset_contains(before, after[i]);
        assert(before.contains(after[i]));
    }
}

/// Values have one ascending order: two ascending sequences of the same
/// values are the same sequence.
pub proof fn lemma_ascending_order_is_unique(a: Seq<u64>, b: Seq<u64>)
    requires
        is_ascending(a),
        is_ascending(b),
        a.to_multiset() == b.to_multiset(),
    ensures
        a == b,
{
    let at_most = |x: u64, y: u64| x <= y;
    assert(vstd::relations::sorted_by(a, at_most));
    assert(vstd::relations::sorted_by(b, at_most));
    assert(vstd::relations::total_ordering(at_most));
    vstd::seq_lib::lemma_sorted_unique(a, b, at_most);
}

/// An explosion adds one die for each value that reaches the threshold in
/// the end: the exploded outcome is as long as the outcome before it and the
/// number of its own values that reach the threshold together. Its values
/// are in ascending order, and between 1 and the dice range when those of
/// the outcome before were.
pub proof fn lemma_explosion_length(
    before: Seq<u64>,
    after: Seq<u64>,
    threshold: u64,
    dice_range: u64,
)
    requires
        explodes_to(before, after, threshold, dice_range),
    ensures
        after.len() == before.len() + count_at_least(after, threshold),
        after.len() >= before.len() + count_at_least(before, threshold),
        is_ascending(after),
        all_within(before, 1, dice_range) ==> all_within(after, 1, dice_range),
{
    let draws = choose|draws: Seq<u64>|
        is_explosion(before, draws, after, threshold, dice_range);
    vstd::seq_lib::to_multiset_len(before + draws);
    vstd::seq_lib::to_multiset_len(after);
    lemma_count_ignores_order(after, before + draws, threshold);
    lemma_count_of_concatenation(before, draws, threshold);
    lemma_counts_add_up(draws, threshold);
    if all_within(before, 1, dice_range) {
        assert(all_within(before + draws, 1, dice_range));
        lemma_same_values_stay_within(before + draws, after, 1, dice_range);
    }
}

/// When every die drawn in an explosion falls below the threshold, the
/// explosion adds exactly one die for each value that reached the threshold
/// before it.
pub proof fn lemma_explosion_without_chains(
    before: Seq<u64>,
    draws: Seq<u64>,
    after: Seq<u64>,
    threshold: u64,
    dice_range: u64,
)
    requires
        is_explosion(before, draws, after, threshold, dice_range),
        forall|i: int| 0 <= i < draws.len() ==> #[trigger] draws[i] < threshold,
    ensures
        draws.len() == count_at_least(before, threshold),
        after.len() == before.len() + count_at_least(before, threshold),
{
    vstd::seq_lib::to_multiset_len(before + draws);
    vstd::seq_lib::to_multiset_len(after);
    lemma_counts_add_up(draws, threshold);
    lemma_none_reach(draws, threshold);
}

/// When a source foretells one die for each value that reaches the
/// threshold, and each of these dice falls below it, the explosion draws
/// exactly these dice: the outcome holds the old values and the foretold
/// dice, one more value for each that reached the threshold, and the source
/// is what the dice leave of it.
pub proof fn lemma_explosion_of_foretold_dice<R: RandomSource>(
    source: R,
    before: Seq<u64>,
    after: Seq<u64>,
    left: R,
    threshold: u64,
    dice_range: u64,
)
    requires
        exploded_as_foretold(source, before, after, left, threshold, dice_range),
        foretold_run(source, 1, dice_range, count_at_least(before, threshold)) matches Some(
            (run, _),
        ) && all_within(run, 1, dice_range) && forall|i: int|
            0 <= i < run.len() ==> #[trigger] run[i] < threshold,
    ensures
        foretold_run(source, 1, dice_range, count_at_least(before, threshold)) matches Some(
            (run, rest),
        ) && after.to_multiset() == (before + run).to_multiset() && left == rest,
        after.len() == before.len() + count_at_least(before, threshold),
{
    let debt = count_at_least(before, threshold);
    let (run, rest) = foretold_run(source, 1, dice_range, debt).unwrap();
    lemma_foretold_run_length(source, 1, dice_range, debt);
    lemma_none_reach(run, threshold);
    lemma_counts_add_up(run, threshold);
    assert(run.len() > 0 ==> run.last() == run[run.len() - 1]);
    assert(foretells_settling(source, run, rest, debt, threshold, dice_range));
    vstd::seq_lib::to_multiset_len(before + run);
    vstd::seq_lib::to_multiset_len(after);
}

/// Of values that all fall below a threshold none reaches it.
proof fn lemma_none_reach(s: Seq<u64>, threshold: u64)
    requires
        forall|i: int| 0 <= i < s.len() ==> #[trigger] s[i] < threshold,
    ensures
        count_at_least(s, threshold) == 0,
    decreases s.len(),
{
    if s.len() > 0 {
        assert(s.last() == s[s.len() - 1]);
        assert forall|i: int| 0 <= i < s.drop_last().len() implies #[trigger] s.drop_last()[i]
            < threshold by {
            assert(s.drop_last()[i] == s[i]);
        }
        lemma_none_reach(s.drop_last(), threshold);
    }
}

/// Removing the `count` lowest values of an ascending outcome that holds
/// more than `count` leaves its other values: as many fewer as were removed,
/// still ascending, and none removed is greater than one that is left.
pub proof fn lemma_removed_strips_lowest(values: Seq<u64>, count: u64)
    requires
        is_ascending(values),
        count < values.len(),
    ensures
        removed(Some(values), count) matches Some(rest) && {
            &&& rest.len() == values.len() - count
            &&& values == values.take(count as int) + rest
            &&& is_ascending(rest)
            &&& forall|i: int, j: int|
                0 <= i < count && 0 <= j < rest.len() ==> #[trigger] values[i] <= #[trigger] rest[j]
        },
{
    let rest = values.skip(count as int);
    assert(values == values.take(count as int) + rest);
}

/// Keeping the `count` highest values of an ascending outcome that holds
/// more than `count` leaves exactly `count` values, still ascending, and
/// none dropped is greater than one that is kept. An outcome that holds no
/// more than `count` is kept whole.
pub proof fn lemma_kept_holds_highest(values: Seq<u64>, count: u64)
    requires
        is_ascending(values),
    ensures
        if count < values.len() {
            kept(Some(values), count) matches Some(highest) && {
                &&& highest.len() == count
                &&& values == values.take(values.len() - count) + highest
                &&& is_ascending(highest)
                &&& forall|i: int, j: int|
                    0 <= i < values.len() - count && 0 <= j < count ==> #[trigger] values[i]
                        <= #[trigger] highest[j]
            }
        } else {
            kept(Some(values), count) == Some(values)
        },
{
    if count < values.len() {
        let highest = values.skip(values.len() - count);
        assert(values == values.take(values.len() - count) + highest);
    }
}

/// Keeping the `count` lowest values of an ascending outcome that holds
/// more than `count` leaves exactly `count` values, still ascending, and
/// none kept is greater than one that is dropped. An outcome that holds no
/// more than `count` is kept whole.
pub proof fn lemma_kept_lower_holds_lowest(values: Seq<u64>, count: u64)
    requires
        is_ascending(values),
    ensures
        if count < values.len() {
            kept_lower(Some(values), count) matches Some(lowest) && {
                &&& lowest.len() == count
                &&& values == lowest + values.skip(count as int)
                &&& is_ascending(lowest)
                &&& forall|i: int, j: int|
                    0 <= i < count && count <= j < values.len() ==> #[trigger] lowest[i]
                        <= #[trigger] values[j]
            }
        } else {
            kept_lower(Some(values), count) == Some(values)
        },
{
    if count < values.len() {
        let lowest = values.take(count as int);
        assert(values == lowest + values.skip(count as int));
    }
}

/// Keeping the `count` highest values twice is keeping them once.
pub proof fn lemma_kept_twice(outcome: Option<Seq<u64>>, count: u64)
    ensures
        kept(kept(outcome, count), count) == kept(outcome, count),
{
}

/// Keeping the `count` lowest values twice is keeping them once.
pub proof fn lemma_kept_lower_twice(outcome: Option<Seq<u64>>, count: u64)
    ensures
        kept_lower(kept_lower(outcome, count), count) == kept_lower(outcome, count),
{
}

} // verus!

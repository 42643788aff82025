//! The total of a roll, which a scalar calculation combines with a number.

use vstd::prelude::*;
use super::outcome::outcome_view;

verus! {

/// The sum of `values`.
pub open spec fn sum_of(values: Seq<u64>) -> nat
    decreases values.len(),
{
    if values.len() == 0 {
        0
    } else {
        sum_of(values.drop_last()) + values.last() as nat
    }
}

/// What an outcome counts for in a calculation: the sum of its values, and
/// zero when no dice are left.
pub open spec fn total_of(outcome: Option<Seq<u64>>) -> nat {
    match outcome {
        Some(values) => sum_of(values),
        None => 0,
    }
}

/// Adds up the values of an outcome. An absent outcome counts for zero.
pub fn roll_total(rolls: &Option<Vec<u64>>) -> (total: u128)
    ensures
        total == total_of(outcome_view(*rolls)),
{
    match rolls {
        Some(values) => {
            let mut total: u128 = 0;
            let mut i: usize = 0;
            while i < values.len()
                invariant
                    i <= values.len(),
                    total == sum_of(values@.take(i as int)),
                    total <= i * u64::MAX,
                decreases values.len() - i,
            {
                assert(values@.take(i + 1).drop_last() == values@.take(i as int));
                assert((i + 1) * u64::MAX == i * u64::MAX + u64::MAX) by (nonlinear_arith);
                assert(i * u64::MAX <= usize::MAX * u64::MAX) by (nonlinear_arith)
                    requires
                        i <= usize::MAX,
                ;
                total += values[i] as u128;
                i += 1;
            }
            assert(values@.take(i as int) == values@);
            total
        },
        None => 0,
    }
}

} // verus!

//! Evaluation of dice rolls against a source of random numbers.

pub mod dice_rolls;
pub mod math_ops;
pub mod outcome;

use vstd::prelude::*;
use rand::Rng;
use rand::rngs::ThreadRng;
use self::outcome::{is_ascending, outcome_view};

verus! {

/// `rand::rngs::ThreadRng`, the handle to the thread-local generator of
/// `rand`. Nothing is said of what it holds.
#[verifier::external_type_specification]
#[verifier::external_body]
pub struct ExThreadRng(ThreadRng);

/// A source of random integers: what a roll draws its dice from.
///
/// A source is meant to draw every integer of the interval with the same
/// chance, and each draw apart from the others. Of such a source nothing is
/// known but the interval. A source may also settle its dice beforehand, as
/// one that always shows the same face does: it says so in `foretold`, and a
/// roll is then known to hold the very dice that were foretold.
pub trait RandomSource: Sized {
    /// What the next draw from `[low, high]` shows and what it leaves of the
    /// source, where the source settles that beforehand. A source of chance
    /// foretells nothing.
    open spec fn foretold(&self, low: u64, high: u64) -> Option<(u64, Self)> {
        None
    }

    /// Draws one integer from the closed interval `[low, high]`: the one
    /// that was foretold, if any was.
    fn uniform(&mut self, low: u64, high: u64) -> (value: u64)
        requires
            low <= high,
        ensures
            low <= value <= high,
            old(self).foretold(low, high) matches Some((shown, left)) ==> value == shown
                && *final(self) == left,
    ;
}

/// `rand::Rng::gen_range` on the thread-local generator: the value drawn
/// lies in the half-open interval `[low, high)`. The call panics when
/// `low >= high`, which is why that is required not to be.
#[verifier::external_body]
fn thread_gen_range(rng: &mut ThreadRng, low: u64, high: u64) -> (value: u64)
    requires
        low < high,
    ensures
        low <= value < high,
{
    rng.gen_range(low, high)
}

/// `rand::Rng::gen` on the thread-local generator, for a `u64`: any value may
/// come back, so nothing is claimed of it.
#[verifier::external_body]
fn thread_gen(rng: &mut ThreadRng) -> (value: u64)
{
    rng.gen()
}

impl RandomSource for ThreadRng {
    /// Draws from the thread-local generator. `gen_range` leaves its upper
    /// bound out, so an interval that ends at `u64::MAX` is drawn one lower
    /// and moved up, and the interval of all integers is drawn as it is.
    fn uniform(&mut self, low: u64, high: u64) -> (value: u64) {
        if high < u64::MAX {
            thread_gen_range(self, low, high + 1)
        } else if low > 0 {
            let below = thread_gen_range(self, low - 1, high);
            below + 1
        } else {
            thread_gen(self)
        }
    }
}

/// Why a roll was refused before any die was drawn.
#[derive(Debug, Clone, Copy, PartialEq, Eq, Structural)]
pub enum RollError {
    /// The dice have no faces: the dice range is zero.
    ZeroDiceRange,
    /// The explode threshold is zero or one, so every die would explode.
    ExplodeOnEveryDie,
}

/// One roll in progress: the source of its dice and the outcome so far.
///
/// The outcome is absent before the first roll and once a removal has
/// emptied it; while present it is in ascending order.
#[derive(Debug)]
pub struct RollRequest<R: RandomSource> {
    rng: R,
    result: Option<Vec<u64>>,
}

impl<R: RandomSource> View for RollRequest<R> {
    type V = Option<Seq<u64>>;

    closed spec fn view(&self) -> Option<Seq<u64>> {
        outcome_view(self.result)
    }
}

impl<R: RandomSource> RollRequest<R> {
    /// The source that the dice of this request are drawn from, in the state
    /// in which the dice drawn so far have left it.
    pub closed spec fn source(&self) -> R {
        self.rng
    }
}

impl<R: RandomSource + Clone> Clone for RollRequest<R> {
    /// A second request with the same outcome and a copy of the source.
    fn clone(&self) -> (copy: RollRequest<R>)
        ensures
            copy@ == self@,
    {
        proof {
            use_type_invariant(self);
        }
        let result = match &self.result {
            Some(values) => Some(values.clone()),
            None => None,
        };
        RollRequest { rng: self.rng.clone(), result }
    }
}

impl<R: RandomSource> RollRequest<R> {
    #[verifier::type_invariant]
    spec fn ascending(&self) -> bool {
        self.result matches Some(values) ==> is_ascending(values@)
    }
}

} // verus!

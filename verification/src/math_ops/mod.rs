//! Arithmetic operators that combine a roll's total with a plain number.

use vstd::prelude::*;

verus! {

/// One of the four arithmetic operators of a scalar calculation.
#[derive(Debug, Clone, Copy, PartialEq, Eq, Structural)]
pub enum Operation {
    Add,
    Mul,
    Div,
    Sub,
}

} // verus!

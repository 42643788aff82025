//! Dice notation: parsing expressions such as `23d45 e32 r12` and evaluating
//! them against a source of random numbers.

pub mod calculation;
pub mod math_ops;
pub mod parsing;
pub mod controller;

//! The grammar of the operator between a roll and a number.

use vstd::prelude::*;
use vstd::string::*;
use super::{hands_on, rest_after, ParseError, ParseErrorKind};
use crate::math_ops::Operation;

verus! {

/// The operation that the sign `c` stands for.
pub open spec fn operation_sign(c: char) -> Option<Operation> {
    if c == '+' {
        Some(Operation::Add)
    } else if c == '-' {
        Some(Operation::Sub)
    } else if c == '/' {
        Some(Operation::Div)
    } else if c == '*' {
        Some(Operation::Mul)
    } else {
        None
    }
}

/// What reading an operator from `s` at `from` gives: one of the four signs
/// has to stand there. No blanks are passed over.
pub open spec fn read_operation(s: Seq<u8>, from: int) -> Result<(Operation, usize), ParseError> {
    match if 0 <= from < s.len() {
        operation_sign(s[from] as char)
    } else {
        None
    } {
        Some(operation) => Ok((operation, (from + 1) as usize)),
        None => Err(ParseError { kind: ParseErrorKind::ExpectedOperation, offset: from as usize }),
    }
}

/// Tells which operation the sign `op_char` stands for.
pub fn parse_operation(op_char: char) -> (operation: Result<Operation, &'static str>)
    ensures
        match operation_sign(op_char) {
            Some(sign) => operation == Ok::<Operation, &'static str>(sign),
            None => operation matches Err(message) && message@
                == "Invalid Operation type. Expected one of +, -, /, or *"@,
        },
{
    match op_char {
        '+' => Ok(Operation::Add),
        '-' => Ok(Operation::Sub),
        '/' => Ok(Operation::Div),
        '*' => Ok(Operation::Mul),
        _ => Err("Invalid Operation type. Expected one of +, -, /, or *"),
    }
}

/// Reads an operator from `bytes` at `from`.
pub fn roll_type_at(bytes: &[u8], from: usize) -> (reading: Result<(Operation, usize), ParseError>)
    ensures
        reading == read_operation(bytes@, from as int),
        reading matches Ok((_, end)) ==> end == from + 1 && end <= bytes.len() && bytes@[from as int]
            < 0x80,
{
    if from >= bytes.len() {
        return Err(ParseError { kind: ParseErrorKind::ExpectedOperation, offset: from });
    }
    match parse_operation(bytes[from] as char) {
        Ok(operation) => Ok((operation, from + 1)),
        Err(_) => Err(ParseError { kind: ParseErrorKind::ExpectedOperation, offset: from }),
    }
}

/// Reads an operator from the start of `input` and hands out the operation it
/// stands for with the text that follows it.
pub fn roll_type(input: &str) -> (result: Result<(&str, Operation), ParseError>)
    ensures
        hands_on(input, read_operation(input.spec_bytes(), 0), result),
{
    match roll_type_at(input.as_bytes(), 0) {
        Ok((operation, end)) => Ok((rest_after(input, end), operation)),
        Err(error) => Err(error),
    }
}

} // verus!

//! Shared error taxonomy of the parsing layer, and small helpers.

use vstd::prelude::*;

verus! {

/// A structural parse failure met while decoding `.mcrs` bytes.
///
/// Every failure of the codec is one of these semantic kinds; none of them
/// aborts the process, all are returned to the caller.
#[derive(Clone, Copy, Debug, PartialEq, Eq, Structural)]
pub enum ParseError {
    /// The file does not begin with the 4-byte `m`,`c`,`r`,`s` signature.
    InvalidMagic,
    /// A record's tag byte lies outside the known block-state variants.
    InvalidVariantTag,
    /// A single-direction byte is not exactly one of the six direction bits.
    InvalidDirection,
    /// A direction-set byte has bits outside the six defined positions.
    InvalidDirectionSet,
    /// A boolean-coded byte is neither 0 nor 1.
    InvalidBoolean,
    /// A power-state byte lies outside the ordinals 0..=2.
    InvalidPowerState,
    /// Fewer bytes remain than the current record or header needs.
    UnexpectedEndOfData,
}

impl ParseError {
    /// Boxes the error, for callers that hand errors around on the heap.
    pub fn boxed(self) -> (r: Box<ParseError>)
        ensures
            *r == self,
    {
        Box::new(self)
    }
}

/// The byte values that stand for booleans in the `.mcrs` format:
/// 0 is `false`, 1 is `true`, everything else is rejected.
pub open spec fn spec_bool_of_byte(val: u8) -> Option<bool> {
    if val == 0 {
        Some(false)
    } else if val == 1 {
        Some(true)
    } else {
        None
    }
}

/// Reads a boolean-coded value, rejecting everything but 0 and 1.
pub fn to_bool(val: u64) -> (r: Result<bool, ParseError>)
    ensures
        r == if val == 0 {
            Ok::<bool, ParseError>(false)
        } else if val == 1 {
            Ok::<bool, ParseError>(true)
        } else {
            Err::<bool, ParseError>(ParseError::InvalidBoolean)
        },
        val <= 255 ==> r == match spec_bool_of_byte(val as u8) {
            Some(b) => Ok::<bool, ParseError>(b),
            None => Err::<bool, ParseError>(ParseError::InvalidBoolean),
        },
{
    if val == 0 {
        Ok(false)
    } else if val == 1 {
        Ok(true)
    } else {
        Err(ParseError::InvalidBoolean)
    }
}

} // verus!

//! Wire types: how a field's payload is laid out after its tag.

use crate::error::DecodeError;
use vstd::prelude::*;

verus! {

/// The six protobuf wire types, by their numbers `0` to `5`.
#[derive(Debug, Clone, Copy, PartialEq, Eq, Structural)]
pub enum WireType {
    Varint,
    SixtyFourBit,
    LengthDelimited,
    StartGroup,
    EndGroup,
    ThirtyTwoBit,
}

/// The number that stands for a wire type in the low three bits of a tag.
pub open spec fn wire_type_number(w: WireType) -> nat {
    match w {
        WireType::Varint => 0,
        WireType::SixtyFourBit => 1,
        WireType::LengthDelimited => 2,
        WireType::StartGroup => 3,
        WireType::EndGroup => 4,
        WireType::ThirtyTwoBit => 5,
    }
}

/// The wire type a number stands for, if any.
pub open spec fn wire_type_of(n: nat) -> Option<WireType> {
    if n == 0 {
        Some(WireType::Varint)
    } else if n == 1 {
        Some(WireType::SixtyFourBit)
    } else if n == 2 {
        Some(WireType::LengthDelimited)
    } else if n == 3 {
        Some(WireType::StartGroup)
    } else if n == 4 {
        Some(WireType::EndGroup)
    } else if n == 5 {
        Some(WireType::ThirtyTwoBit)
    } else {
        None
    }
}

impl WireType {
    /// The wire type's number.
    pub fn number(self) -> (n: u32)
        ensures
            n == wire_type_number(self),
    {
        match self {
            WireType::Varint => 0,
            WireType::SixtyFourBit => 1,
            WireType::LengthDelimited => 2,
            WireType::StartGroup => 3,
            WireType::EndGroup => 4,
            WireType::ThirtyTwoBit => 5,
        }
    }

    /// The wire type numbered `value`; an error for numbers above `5`.
    pub fn try_from_number(value: u32) -> (r: Result<WireType, DecodeError>)
        ensures
            match wire_type_of(value as nat) {
                Some(w) => r == Ok::<WireType, DecodeError>(w),
                None => r == Err::<WireType, DecodeError>(DecodeError::InvalidWireType { value }),
            },
    {
        match value {
            0 => Ok(WireType::Varint),
            1 => Ok(WireType::SixtyFourBit),
            2 => Ok(WireType::LengthDelimited),
            3 => Ok(WireType::StartGroup),
            4 => Ok(WireType::EndGroup),
            5 => Ok(WireType::ThirtyTwoBit),
            _ => Err(DecodeError::InvalidWireType { value }),
        }
    }

    /// Splits a tag into its wire type (low three bits) and field number.
    pub fn try_from_tag(tag: u32) -> (r: Result<(WireType, u32), DecodeError>)
        ensures
            match wire_type_of(tag as nat % 8) {
                Some(w) => r == Ok::<(WireType, u32), DecodeError>((w, (tag / 8) as u32)),
                None => r == Err::<(WireType, u32), DecodeError>(
                    DecodeError::InvalidWireType { value: (tag % 8) as u32 },
                ),
            },
    {
        assert(tag & 0x07 == tag % 8) by (bit_vector);
        assert(tag >> 3u32 == tag / 8) by (bit_vector);
        let wire_type = WireType::try_from_number(tag & 0x07)?;
        Ok((wire_type, tag >> 3))
    }
}

/// Checks that a field arrived with the wire type its type calls for.
pub fn check_wire_type(expected: WireType, actual: WireType) -> (r: Result<(), DecodeError>)
    ensures
        r == if expected == actual {
            Ok::<(), DecodeError>(())
        } else {
            Err(DecodeError::UnexpectedWireType { actual, expected })
        },
{
    if expected != actual {
        return Err(DecodeError::UnexpectedWireType { actual, expected });
    }
    Ok(())
}

} // verus!

//! The numeric encoding of a duration: a plain count of nanoseconds, with no
//! unit.
use vstd::prelude::*;
use crate::duration::GoDuration;

verus! {

/// The number that encodes `value`: its nanoseconds.
pub fn serialize(value: &GoDuration) -> (r: i64)
    ensures
        r == value.0,
{
    value.nanoseconds()
}

/// The duration that a number of nanoseconds encodes.
pub fn deserialize(nanoseconds: i64) -> (r: GoDuration)
    ensures
        r.0 == nanoseconds,
{
    GoDuration::from(nanoseconds)
}

} // verus!

use vstd::prelude::*;

verus! {

/// One measurement: whole seconds since the Unix epoch and the IEEE-754 bit
/// pattern of a double-precision value.
#[derive(Clone, Copy, Debug, PartialEq, Eq, Structural)]
pub struct Datum {
    pub timestamp: i64,
    pub value_bits: u64,
}

/// A double is finite exactly when its eleven exponent bits are not all set.
pub open spec fn finite_bits(bits: u64) -> bool {
    (bits >> 52u64) & 0x7ffu64 != 0x7ffu64
}

impl Datum {
    pub fn new(timestamp: i64, value_bits: u64) -> (r: Datum)
        ensures
            r.timestamp == timestamp,
            r.value_bits == value_bits,
    {
        Datum { timestamp, value_bits }
    }

    /// Whether the value is a finite number (neither infinite nor NaN).
    pub fn has_finite_value(&self) -> (r: bool)
        ensures
            r == finite_bits(self.value_bits),
    {
        (self.value_bits >> 52) & 0x7ff != 0x7ff
    }
}

} // verus!

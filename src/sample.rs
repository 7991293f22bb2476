use vstd::prelude::*;

verus! {

/// A snapshot of all eight input channels at one instant.
///
/// `timestamp` counts ticks of the capture clock; the stream that produced
/// the sample says how many ticks make one second. Channel `i` is bit `i`
/// of `sample`.
#[derive(Clone, Copy, Debug, PartialEq, Eq, Structural)]
pub struct Sample {
    pub sample: u8,
    pub timestamp: i64,
}

impl Sample {
    pub fn new(sample: u8, timestamp: i64) -> (r: Sample)
        ensures
            r.sample == sample,
            r.timestamp == timestamp,
    {
        Sample { sample, timestamp }
    }

    pub fn sample(&self) -> (r: u8)
        ensures
            r == self.sample,
    {
        self.sample
    }

    pub fn timestamp(&self) -> (r: i64)
        ensures
            r == self.timestamp,
    {
        self.timestamp
    }

    /// Level of channel `ch`; a channel index past the eighth reads low.
    pub open spec fn level(self, ch: u8) -> bool {
        ch < 8 && (self.sample >> ch) & 1u8 == 1u8
    }

    pub fn channel(&self, ch: u8) -> (r: bool)
        ensures
            r == self.level(ch),
    {
        ch < 8 && (self.sample >> ch) & 1u8 == 1u8
    }
}

/// Timestamps never go backwards along the sequence.
pub open spec fn non_decreasing(s: Seq<Sample>) -> bool {
    forall|i: int, j: int| 0 <= i <= j < s.len() ==> s[i].timestamp <= s[j].timestamp
}

/// Why a sample source stopped.
#[derive(Clone, Copy, Debug, PartialEq, Eq, Structural)]
pub enum SampleError {
    /// The input ended in the middle of a record.
    Truncated,
    /// A timestamp went backwards.
    NonMonotonic,
    /// A time value does not fit the timestamp range.
    Overflow,
    /// A value change to `x` or `z`.
    UnsupportedValue,
    /// A variable that is not a wire.
    UnsupportedVarType,
    /// A value change for a variable that was never declared.
    UnknownVariable,
    /// A wire whose name does not give a channel below eight as its second
    /// `_`-separated field.
    BadVariableName,
}

} // verus!

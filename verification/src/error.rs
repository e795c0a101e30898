use vstd::prelude::*;

verus! {

/// Why an operation on a track was refused.
#[derive(Clone, Copy, Debug, PartialEq, Eq, Structural)]
pub enum TrackError {
    /// A line does not hold four fields, or its coordinates are no valid
    /// interval. `line` counts from 1.
    MalformedLine { line: usize },
    /// The fourth field of a line is no decimal number that a score can hold.
    MalformedScore { line: usize },
    /// A bin starts before the previous bin of its chromosome ends.
    MalformedOrder { line: usize },
    /// A bin is not as wide as the first bin of the track.
    InconsistentResolution { line: usize },
    /// The window holds less than one bin.
    WindowTooSmall,
    /// A chromosome without bins was handed to a rolling statistic.
    EmptyChromosome,
    /// The median absolute deviation is zero; `mad` is that aggregate.
    DegenerateDistribution { mad: i64 },
    /// The scores add up to zero; `total` is that aggregate.
    ZeroTotal { total: i64 },
    /// The output sink took no more bytes.
    WriteFailure,
    /// A rescaled score does not fit the fixed-point range.
    ScoreOverflow,
}

} // verus!

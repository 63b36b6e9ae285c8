use vstd::prelude::*;

verus! {

/// Why a measurement array was refused before any work started.
#[derive(Debug, Clone, Copy, PartialEq, Eq, Structural)]
pub enum ShapeError {
    /// The number of axes is not one that the operation knows how to handle.
    UnsupportedRank { ndim: usize },
    /// The reference axis (axis 0) must have exactly two channels.
    ReferenceChannels { found: usize },
    /// The number of values does not match the product of the axis lengths.
    LengthMismatch { values: usize },
    /// An axis that must hold index 0 is empty.
    EmptyAxis { axis: usize },
    /// The number of per-pixel outcomes does not match the pixel grid.
    OutcomeCount { found: usize },
    /// The parameter map would hold more values than memory can address.
    MapTooLarge,
}

} // verus!

//! Why a driver cannot be made.
use vstd::prelude::*;

verus! {

/// Errors returned when the matrices given to a driver do not fit together.
#[derive(Debug, Clone, Copy, PartialEq, Eq, Structural)]
pub enum DriverError {
    /// The two matrices do not both have the given contraction dimension.
    ContractionDimension,
    /// The output does not occupy exactly the blocks of the packed matrix.
    OutputLength,
    /// The number of elements exceeds what an accumulator can hold.
    AccumulatorBound,
    /// The number of pairs exceeds what an accumulator can hold.
    AccumulatorCapacity,
}

impl DriverError {
    /// The words for an error.
    pub open spec fn words(self) -> Seq<char> {
        match self {
            DriverError::ContractionDimension => "contraction dimensions do not agree"@,
            DriverError::OutputLength => "output length must occupy exactly the packed A blocks"@,
            DriverError::AccumulatorBound => "dimension exceeds accumulator bound"@,
            DriverError::AccumulatorCapacity => {
                "contraction dimension exceeds u32 accumulator capacity"@
            },
        }
    }

    /// The words for an error.
    pub fn message(&self) -> (message: String)
        ensures
            message@ == self.words(),
    {
        match self {
            DriverError::ContractionDimension => "contraction dimensions do not agree".to_owned(),
            DriverError::OutputLength => {
                "output length must occupy exactly the packed A blocks".to_owned()
            },
            DriverError::AccumulatorBound => "dimension exceeds accumulator bound".to_owned(),
            DriverError::AccumulatorCapacity => {
                "contraction dimension exceeds u32 accumulator capacity".to_owned()
            },
        }
    }
}

} // verus!

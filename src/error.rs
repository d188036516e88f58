use vstd::prelude::*;

verus! {

/// The ways in which loading, classifying or evaluating can fail.
#[derive(Clone, Copy, Debug, PartialEq, Eq, Structural)]
pub enum KnnError {
    /// A record's feature field is not an integer that fits in `i32`.
    MalformedRecord,
    /// A query's length differs from that of a training observation.
    InvalidInput,
    /// The classifier was trained on no observations.
    EmptyTrainingSet,
    /// The validation set holds no observations.
    EmptyValidationSet,
}

} // verus!

use vstd::prelude::*;

verus! {

/// The ways an operation of the network can refuse its arguments.
#[derive(Debug, Clone, Copy, PartialEq, Eq, Structural)]
pub enum KanError {
    /// A spline parameter lies outside `[0, 1]`.
    DomainError,
    /// The lengths of an operation's arguments disagree with each other or
    /// with the dimensions of the entity they are given to.
    ShapeMismatch,
    /// A learning rate that is not positive.
    InvalidLearningRate,
    /// An index past the end of a vector, a row list or a row.
    IndexOutOfRange,
}

} // verus!

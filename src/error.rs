//! Errors of the inference adapters.

use vstd::prelude::*;

verus! {

/// A neural call's result could not be used.
#[derive(Clone, Copy, Debug, PartialEq, Eq, Structural)]
pub enum TensorError {
    /// The call produced no output to read.
    MissingOutput,
    /// A tensor's axes do not have the layout the pipeline expects.
    BadShape,
}

} // verus!

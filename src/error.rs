use vstd::prelude::*;

verus! {

/// Why a lookup in the data source produced no value.
#[derive(Clone, Copy, Debug, PartialEq, Eq, Structural)]
pub enum LookupError {
    /// The key is absent from the dataset.
    NotFound,
    /// The dataset is not a JSON document, or the value under the key is not an integer.
    Malformed,
    /// The dataset could not be read.
    IoError,
}

} // verus!

//! The error that decoding a container can end in.

use vstd::prelude::*;

verus! {

/// Why a byte buffer was rejected.
#[derive(Copy, Clone, PartialEq, Eq, Debug, Structural)]
pub enum DatError {
    /// The buffer is not a container: it is shorter than the header, its
    /// recorded size is not its length, or a section runs past its end.
    InvalidFile,
}

/// What an operation that can reject its input returns.
pub type DatResult<T> = Result<T, DatError>;

} // verus!

use vstd::prelude::*;

verus! {

/// Why a text could not be got.
#[derive(Debug, Clone, Copy, PartialEq, Eq, Structural)]
pub enum Error {
    /// Reading has failed.
    Io,
}

} // verus!

//! The error that the constructors of the engine report.

use vstd::prelude::*;

verus! {

/// Why a component of the engine could not be set up.
#[derive(Debug, Clone, Copy, PartialEq, Eq, Structural)]
pub enum EngineError {
    /// A size was zero, or the sizes together do not fit in the address space.
    InvalidConfiguration,
}

} // verus!

//! The ways in which compression and decompression fail.

use vstd::prelude::*;

verus! {

/// Why a call did not produce a result.
#[derive(Debug, Clone, Copy, PartialEq, Eq, Structural)]
pub enum HuffmanError {
    /// There is nothing to compress: no tree can be built from no input.
    EmptyInput,
    /// The container is too short, its tree description does not end within
    /// its bits, or its payload ends inside a codeword.
    CorruptContainer,
}

} // verus!

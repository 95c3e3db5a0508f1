use vstd::prelude::*;

verus! {

/// Why a pour or a move was refused.
#[derive(Debug, Clone, Copy)]
pub enum Error {
    /// The destination tube is full.
    MaxCapacity,
    /// The source tube is empty.
    NoContent,
    /// The source or the destination tube is already complete.
    CantMove,
    /// The top colours of the two tubes differ.
    DiffColor,
    /// A tube index is out of range.
    InvalidMove(&'static str),
}

} // verus!

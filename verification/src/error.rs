//! What can go wrong while terrain is stored and streamed.

use vstd::prelude::*;

verus! {

/// The failures that the library reports.
#[derive(Debug, PartialEq, Eq, Hash, Copy, Clone, Structural)]
pub enum Error {
    /// A request named a place outside the world. Not fatal; asking again
    /// gives the same answer.
    OutOfRange,
    /// The other end of a channel is gone. The loop that finds this out
    /// has to end.
    ChannelClosed,
    /// A received terrain block whose per-triangle arrays differ in length.
    Malformed,
}

impl Error {
    /// Whether the loop that met this failure has to end.
    pub fn is_fatal(&self) -> (r: bool)
        ensures
            r == (*self == Error::ChannelClosed),
    {
        match self {
            Error::ChannelClosed => true,
            Error::OutOfRange => false,
            Error::Malformed => false,
        }
    }
}

} // verus!

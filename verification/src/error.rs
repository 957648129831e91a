//! The error that building a gadget can end in.

use vstd::prelude::*;

verus! {

/// The single way in which building a gadget can fail.
#[derive(Clone, Copy, Debug, PartialEq, Eq, Structural)]
pub enum Error {
    /// A field element that had to be inverted was zero: the statement that
    /// the gadget was asked to express is false.
    NonExistingInverse,
}

} // verus!

//! Gadgets that compile set and vector relations into PLONK constraints.
//!
//! Every gadget takes a `StandardComposer` of `dusk_plonk` and appends rows
//! and witnesses to it. The contracts describe a composer by the sequence of
//! its rows and the sequence of its witnesses, and state for each gadget
//! exactly which rows and witnesses it appends, when building fails, and
//! when the witnesses satisfy the rows.
//!
//! - `field`: the scalar field, and the operations on `BlsScalar` that the
//!   gadgets use.
//! - `circuit`: rows, witnesses and bindings, and the operations on
//!   `StandardComposer` that the gadgets use.
//! - `semantics`: what it is for a row to hold.
//! - `allocated`: a scalar bound to its variable.
//! - `bit`, `set`: the gadgets.
//! - `shape`: how many rows and variables each gadget appends.
//! - `soundness`: what the rows of each gadget force, and when its own
//!   witnesses satisfy them.
//! - `agreement`: how the circuits of prover and verifier relate.

pub mod agreement;
pub mod allocated;
pub mod bit;
pub mod circuit;
pub mod error;
pub mod field;
pub mod semantics;
pub mod set;
pub mod shape;
pub mod soundness;

pub use crate::allocated::AllocatedScalar;
pub use crate::error::Error;

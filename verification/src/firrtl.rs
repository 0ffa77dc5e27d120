//! Marker types for operations of the hardware dialect.

use vstd::prelude::*;

verus! {

/// A hardware-dialect module operation.
pub struct FirrtlModuleOp;

/// The hardware-dialect operations this layer distinguishes.
pub enum FirrtlOp {
    Module(FirrtlModuleOp),
}

} // verus!

//! The brightness preference: chosen once per invocation and threaded as an
//! explicit parameter through the palette adjustment.

use vstd::prelude::*;

verus! {

/// Whether the final palette leans light or dark.
#[derive(Debug, Clone, Copy, PartialEq, Eq, Structural)]
pub enum Brightness {
    Light,
    Dark,
}

} // verus!

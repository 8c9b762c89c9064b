//! Civilizations as the interface shows them.
use vstd::prelude::*;

verus! {

/// What the interface shows of a civilization.
#[derive(Clone, Copy, Debug, PartialEq, Eq, Default)]
pub struct CivUi {
    /// Map color.
    pub color: [u8; 3],
}

} // verus!

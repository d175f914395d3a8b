//! Events exchanged with the input layer.

use vstd::prelude::*;

use crate::coordinates::Coordinates;

verus! {

/// A player's reveal request: the primary action hit this cell.
#[derive(Debug, Copy, Clone, Eq, PartialEq, Hash, Structural)]
pub struct TileTriggerEvent {
    pub coordinates: Coordinates,
}

} // verus!

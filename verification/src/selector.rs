//! Selections of lights.
use vstd::prelude::*;
use crate::id::LightId;

verus! {

/// Selects all lights or a specific set of light identifiers.
#[derive(Clone, Debug, PartialEq, Eq)]
pub enum Selector {
    All,
    Ids { ids: Vec<LightId> },
}

impl Default for Selector {
    fn default() -> (r: Self)
        ensures
            r == Selector::All,
    {
        Selector::All
    }
}

} // verus!

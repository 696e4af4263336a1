//! Features and limits of a light model.
use vstd::prelude::*;
use crate::mode::Kelvin;

verus! {

/// Features and limits exposed by a light model.
#[derive(Clone, Copy, PartialEq, Eq, Structural, Debug)]
pub struct Capabilities {
    pub cct_min: Kelvin,
    pub cct_max: Kelvin,
    pub rgb: bool,
    pub scenes: bool,
    pub cct_split_packets: bool,
    pub reports_status: bool,
}

impl Capabilities {
    /// The temperature limits are in order.
    pub open spec fn ordered(self) -> bool {
        self.cct_min@ <= self.cct_max@
    }

    /// The temperature limits are valid temperatures, in order.
    pub open spec fn wf(self) -> bool {
        &&& self.cct_min.wf()
        &&& self.cct_max.wf()
        &&& self.ordered()
    }
}

} // verus!

//! What `==` means for provinces, powers and regions.
//!
//! Two provinces are equal when they have the same name, whatever their
//! coasts; two powers when their names agree up to letter case; two regions
//! when their provinces are equal.

use vstd::prelude::*;
use vstd::std_specs::cmp::PartialEqSpecImpl;
use crate::types::{MapRegion, Power, Province};

verus! {

impl PartialEq for Province {
    fn eq(&self, other: &Province) -> (r: bool) {
        self.is(other)
    }
}

impl PartialEqSpecImpl for Province {
    open spec fn obeys_eq_spec() -> bool {
        true
    }

    open spec fn eq_spec(&self, other: &Province) -> bool {
        self.name@ == other.name@
    }
}

impl PartialEq for Power {
    fn eq(&self, other: &Power) -> (r: bool) {
        self.same(other)
    }
}

impl PartialEqSpecImpl for Power {
    open spec fn obeys_eq_spec() -> bool {
        true
    }

    open spec fn eq_spec(&self, other: &Power) -> bool {
        self@ == other@
    }
}

impl PartialEq for MapRegion {
    fn eq(&self, other: &MapRegion) -> (r: bool) {
        self.province.is(&other.province)
    }
}

impl PartialEqSpecImpl for MapRegion {
    open spec fn obeys_eq_spec() -> bool {
        true
    }

    open spec fn eq_spec(&self, other: &MapRegion) -> bool {
        self.province.name@ == other.province.name@
    }
}

} // verus!

use core::cmp::Ordering;
use vstd::prelude::*;
use vstd::std_specs::cmp::PartialOrdSpecImpl;

use super::VariableId;

verus! {

impl PartialOrd for VariableId {
    fn partial_cmp(&self, other: &Self) -> (r: Option<Ordering>) {
        if self.0 < other.0 {
            Some(Ordering::Less)
        } else if self.0 == other.0 {
            Some(Ordering::Equal)
        } else {
            Some(Ordering::Greater)
        }
    }
}

impl PartialOrdSpecImpl for VariableId {
    open spec fn obeys_partial_cmp_spec() -> bool {
        true
    }

    /// Ids are ordered as their numbers are.
    open spec fn partial_cmp_spec(&self, other: &Self) -> Option<Ordering> {
        if self.spec_to_usize() < other.spec_to_usize() {
            Some(Ordering::Less)
        } else if self.spec_to_usize() == other.spec_to_usize() {
            Some(Ordering::Equal)
        } else {
            Some(Ordering::Greater)
        }
    }
}

} // verus!

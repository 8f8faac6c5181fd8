use vstd::prelude::*;
use core::cmp::Ordering;
use super::u256::U256;

verus! {

impl PartialOrd for U256 {
    /// Orders by the numbers the values stand for (the top limb first).
    fn partial_cmp(&self, other: &U256) -> (r: Option<Ordering>) {
        if self.lt(other) {
            Some(Ordering::Less)
        } else if self.equals(other) {
            Some(Ordering::Equal)
        } else {
            Some(Ordering::Greater)
        }
    }
}

impl vstd::std_specs::cmp::PartialOrdSpecImpl for U256 {
    open spec fn obeys_partial_cmp_spec() -> bool {
        true
    }

    open spec fn partial_cmp_spec(&self, other: &U256) -> Option<Ordering> {
        if self.value() < other.value() {
            Some(Ordering::Less)
        } else if self.value() == other.value() {
            Some(Ordering::Equal)
        } else {
            Some(Ordering::Greater)
        }
    }
}

} // verus!

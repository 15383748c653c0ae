use vstd::prelude::*;

use core::cmp::Ordering;
use vstd::std_specs::cmp::PartialOrdSpecImpl;

use crate::roll::DieRoll;

verus! {

/// Die rolls are ordered by the value they show.
impl<'a> PartialOrd for DieRoll<'a> {
    fn partial_cmp(&self, other: &Self) -> (res: Option<Ordering>) {
        if self.val < other.val {
            Some(Ordering::Less)
        } else if self.val == other.val {
            Some(Ordering::Equal)
        } else {
            Some(Ordering::Greater)
        }
    }
}

impl<'a> PartialOrdSpecImpl for DieRoll<'a> {
    open spec fn obeys_partial_cmp_spec() -> bool {
        true
    }

    open spec fn partial_cmp_spec(&self, other: &Self) -> Option<Ordering> {
        if self.val < other.val {
            Some(Ordering::Less)
        } else if self.val == other.val {
            Some(Ordering::Equal)
        } else {
            Some(Ordering::Greater)
        }
    }
}

} // verus!

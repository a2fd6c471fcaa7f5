//! Travel cost, as a measure for shortest paths.

use crate::double::Double;
use std::cmp::Ordering;
use std::ops::Add;
use vstd::prelude::*;

verus! {

/// A travel time in seconds. Costs add up and are ordered as numbers are.
#[derive(Debug, Clone, Copy)]
pub struct Cost {
    pub seconds: Double,
}

impl PartialEq for Cost {
    fn eq(&self, other: &Cost) -> (r: bool) {
        self.seconds.same(other.seconds)
    }
}

impl vstd::std_specs::cmp::PartialEqSpecImpl for Cost {
    open spec fn obeys_eq_spec() -> bool {
        true
    }

    open spec fn eq_spec(&self, other: &Cost) -> bool {
        self.seconds.same(other.seconds)
    }
}

impl PartialOrd for Cost {
    fn partial_cmp(&self, other: &Cost) -> (r: Option<Ordering>) {
        if self.seconds.lt(other.seconds) {
            Some(Ordering::Less)
        } else if self.seconds.same(other.seconds) {
            Some(Ordering::Equal)
        } else if self.seconds.gt(other.seconds) {
            Some(Ordering::Greater)
        } else {
            None
        }
    }
}

impl vstd::std_specs::cmp::PartialOrdSpecImpl for Cost {
    open spec fn obeys_partial_cmp_spec() -> bool {
        true
    }

    open spec fn partial_cmp_spec(&self, other: &Cost) -> Option<Ordering> {
        if self.seconds.lt(other.seconds) {
            Some(Ordering::Less)
        } else if self.seconds.same(other.seconds) {
            Some(Ordering::Equal)
        } else if self.seconds.gt(other.seconds) {
            Some(Ordering::Greater)
        } else {
            None
        }
    }
}

impl Add for Cost {
    type Output = Cost;

    fn add(self, other: Cost) -> (r: Cost) {
        Cost { seconds: self.seconds.plus(other.seconds) }
    }
}

impl vstd::std_specs::ops::AddSpecImpl for Cost {
    open spec fn obeys_add_spec() -> bool {
        true
    }

    open spec fn add_req(self, other: Cost) -> bool {
        true
    }

    open spec fn add_spec(self, other: Cost) -> Cost {
        Cost { seconds: self.seconds.plus(other.seconds) }
    }
}

impl Default for Cost {
    fn default() -> (r: Cost)
        ensures
            r.seconds == Double::zero(),
    {
        Cost { seconds: Double::zero() }
    }
}

} // verus!

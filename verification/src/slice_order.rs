//! Equality of slices, and their order by time point.
use vstd::prelude::*;

use crate::project::{Slice, SliceKeysound};
use crate::time_point::{value_eq, value_lt};
use core::cmp::Ordering;
use vstd::std_specs::cmp::PartialEqSpecImpl;
use vstd::std_specs::cmp::PartialOrdSpecImpl;

verus! {

/// Two keysound choices are the same: both a keysound of their own, or
/// references to equal time points.
pub open spec fn same_keysound(a: SliceKeysound, b: SliceKeysound) -> bool {
    match (a, b) {
        (SliceKeysound::Auto, SliceKeysound::Auto) => true,
        (SliceKeysound::Reference(x), SliceKeysound::Reference(y)) => value_eq(x@, y@),
        _ => false,
    }
}

/// How two slices compare by time point alone.
pub open spec fn time_order(a: Slice, b: Slice) -> Option<Ordering> {
    if value_lt(a.time_point@, b.time_point@) {
        Some(Ordering::Less)
    } else if value_lt(b.time_point@, a.time_point@) {
        Some(Ordering::Greater)
    } else {
        Some(Ordering::Equal)
    }
}

impl PartialEq for SliceKeysound {
    fn eq(&self, other: &Self) -> (r: bool) {
        match (self, other) {
            (SliceKeysound::Auto, SliceKeysound::Auto) => true,
            (SliceKeysound::Reference(x), SliceKeysound::Reference(y)) => x.same_value(y),
            _ => false,
        }
    }
}

impl PartialEqSpecImpl for SliceKeysound {
    open spec fn obeys_eq_spec() -> bool {
        true
    }

    open spec fn eq_spec(&self, other: &Self) -> bool {
        same_keysound(*self, *other)
    }
}

impl PartialEq for Slice {
    fn eq(&self, other: &Self) -> (r: bool) {
        self.time_point.same_value(&other.time_point) && self.keysound_id.eq(&other.keysound_id)
    }
}

impl PartialEqSpecImpl for Slice {
    open spec fn obeys_eq_spec() -> bool {
        true
    }

    open spec fn eq_spec(&self, other: &Self) -> bool {
        value_eq(self.time_point@, other.time_point@) && same_keysound(self.keysound_id, other.keysound_id)
    }
}

impl PartialOrd for Slice {
    /// Slices are ordered by their time points.
    fn partial_cmp(&self, other: &Self) -> (r: Option<Ordering>) {
        if self.time_point.lt(&other.time_point) {
            Some(Ordering::Less)
        } else if other.time_point.lt(&self.time_point) {
            Some(Ordering::Greater)
        } else {
            Some(Ordering::Equal)
        }
    }
}

impl PartialOrdSpecImpl for Slice {
    open spec fn obeys_partial_cmp_spec() -> bool {
        true
    }

    open spec fn partial_cmp_spec(&self, other: &Self) -> Option<Ordering> {
        time_order(*self, *other)
    }
}

} // verus!

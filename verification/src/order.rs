//! Records and documents are compared by their numbers alone.
use vstd::prelude::*;
use vstd::std_specs::cmp::{PartialEqSpecImpl, PartialOrdSpecImpl};
use core::cmp::Ordering;
use crate::github::GhData;
use crate::metadata::RfcMetadata;

verus! {

/// How one number stands to another.
pub open spec fn number_order(a: u64, b: u64) -> Option<Ordering> {
    if a < b {
        Some(Ordering::Less)
    } else if a == b {
        Some(Ordering::Equal)
    } else {
        Some(Ordering::Greater)
    }
}

fn compare_numbers(a: u64, b: u64) -> (r: Option<Ordering>)
    ensures
        r == number_order(a, b),
{
    if a < b {
        Some(Ordering::Less)
    } else if a == b {
        Some(Ordering::Equal)
    } else {
        Some(Ordering::Greater)
    }
}

impl PartialEq for RfcMetadata {
    /// Two records are equal if they have the same number.
    fn eq(&self, other: &RfcMetadata) -> (r: bool) {
        self.number == other.number
    }
}

impl PartialEqSpecImpl for RfcMetadata {
    open spec fn obeys_eq_spec() -> bool {
        true
    }

    open spec fn eq_spec(&self, other: &RfcMetadata) -> bool {
        self.number == other.number
    }
}

impl Eq for RfcMetadata {

}

impl PartialOrd for RfcMetadata {
    /// Records are ordered by their numbers.
    fn partial_cmp(&self, other: &RfcMetadata) -> (r: Option<Ordering>) {
        compare_numbers(self.number, other.number)
    }
}

impl PartialOrdSpecImpl for RfcMetadata {
    open spec fn obeys_partial_cmp_spec() -> bool {
        true
    }

    open spec fn partial_cmp_spec(&self, other: &RfcMetadata) -> Option<Ordering> {
        number_order(self.number, other.number)
    }
}

impl PartialEq for GhData {
    /// Two documents are equal if they have the same number.
    fn eq(&self, other: &GhData) -> (r: bool) {
        self.number == other.number
    }
}

impl PartialEqSpecImpl for GhData {
    open spec fn obeys_eq_spec() -> bool {
        true
    }

    open spec fn eq_spec(&self, other: &GhData) -> bool {
        self.number == other.number
    }
}

impl Eq for GhData {

}

impl PartialOrd for GhData {
    /// Documents are ordered by their numbers.
    fn partial_cmp(&self, other: &GhData) -> (r: Option<Ordering>) {
        compare_numbers(self.number, other.number)
    }
}

impl PartialOrdSpecImpl for GhData {
    open spec fn obeys_partial_cmp_spec() -> bool {
        true
    }

    open spec fn partial_cmp_spec(&self, other: &GhData) -> Option<Ordering> {
        number_order(self.number, other.number)
    }
}

} // verus!

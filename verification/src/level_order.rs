use vstd::prelude::*;
use vstd::std_specs::cmp::{PartialEqSpecImpl, PartialOrdSpecImpl};
use crate::price_level::PriceLevel;
use core::cmp::Ordering;

verus! {

// Price levels compare by price alone.

impl PartialEq for PriceLevel {
    fn eq(&self, other: &Self) -> (same: bool) {
        self.price() == other.price()
    }
}

impl PartialEqSpecImpl for PriceLevel {
    open spec fn obeys_eq_spec() -> bool {
        true
    }

    open spec fn eq_spec(&self, other: &PriceLevel) -> bool {
        self@.price == other@.price
    }
}

impl Eq for PriceLevel {}

impl PartialOrd for PriceLevel {
    fn partial_cmp(&self, other: &Self) -> (ord: Option<Ordering>) {
        let (a, b) = (self.price(), other.price());
        if a < b {
            Some(Ordering::Less)
        } else if a == b {
            Some(Ordering::Equal)
        } else {
            Some(Ordering::Greater)
        }
    }
}

impl PartialOrdSpecImpl for PriceLevel {
    open spec fn obeys_partial_cmp_spec() -> bool {
        true
    }

    open spec fn partial_cmp_spec(&self, other: &PriceLevel) -> Option<Ordering> {
        if self@.price < other@.price {
            Some(Ordering::Less)
        } else if self@.price == other@.price {
            Some(Ordering::Equal)
        } else {
            Some(Ordering::Greater)
        }
    }
}

} // verus!

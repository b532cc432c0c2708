use vstd::prelude::*;
use core::cmp::Ordering;
use crate::base::misc::{byte_order, compare_bytes};
use crate::crypto::pedersen::Commitment;
use crate::crypto::signature::Signature;

verus! {

/// The ordering that a comparison outcome of `byte_order` stands for.
pub open spec fn ordering_of(c: int) -> Ordering {
    if c < 0 {
        Ordering::Less
    } else if c > 0 {
        Ordering::Greater
    } else {
        Ordering::Equal
    }
}

/// The ordering of two byte strings, byte by byte.
fn order_bytes(x: &[u8], y: &[u8]) -> (r: Ordering)
    ensures
        r == ordering_of(byte_order(x@, y@)),
{
    let c = compare_bytes(x, y);
    if c < 0 {
        Ordering::Less
    } else if c > 0 {
        Ordering::Greater
    } else {
        Ordering::Equal
    }
}

impl Eq for Commitment {
}

impl PartialOrd for Commitment {
    fn partial_cmp(&self, other: &Self) -> (r: Option<Ordering>) {
        Some(order_bytes(self.as_bytes(), other.as_bytes()))
    }
}

impl vstd::std_specs::cmp::PartialOrdSpecImpl for Commitment {
    open spec fn obeys_partial_cmp_spec() -> bool {
        true
    }

    open spec fn partial_cmp_spec(&self, other: &Self) -> Option<Ordering> {
        Some(ordering_of(byte_order(self@, other@)))
    }
}

impl Eq for Signature {
}

impl PartialOrd for Signature {
    fn partial_cmp(&self, other: &Self) -> (r: Option<Ordering>) {
        Some(order_bytes(self.as_bytes(), other.as_bytes()))
    }
}

impl vstd::std_specs::cmp::PartialOrdSpecImpl for Signature {
    open spec fn obeys_partial_cmp_spec() -> bool {
        true
    }

    open spec fn partial_cmp_spec(&self, other: &Self) -> Option<Ordering> {
        Some(ordering_of(byte_order(self@, other@)))
    }
}

} // verus!

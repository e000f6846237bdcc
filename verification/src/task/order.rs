//! The order of processes: the smaller the stride, the greater the process, so
//! that the greatest comes first.
use super::control::TaskControlBlock;
use core::cmp::Ordering;
use vstd::prelude::*;
use vstd::std_specs::cmp::{PartialEqSpec, PartialOrdSpec};

verus! {

impl PartialEq for TaskControlBlock {
    fn eq(&self, other: &Self) -> (r: bool) {
        self.inner.stride == other.inner.stride
    }
}

impl vstd::std_specs::cmp::PartialEqSpecImpl for TaskControlBlock {
    open spec fn obeys_eq_spec() -> bool {
        true
    }

    open spec fn eq_spec(&self, other: &Self) -> bool {
        self.inner.stride == other.inner.stride
    }
}

impl Eq for TaskControlBlock {

}

impl PartialOrd for TaskControlBlock {
    fn partial_cmp(&self, other: &Self) -> (r: Option<Ordering>) {
        if other.inner.stride < self.inner.stride {
            Some(Ordering::Less)
        } else if other.inner.stride == self.inner.stride {
            Some(Ordering::Equal)
        } else {
            Some(Ordering::Greater)
        }
    }
}

impl vstd::std_specs::cmp::PartialOrdSpecImpl for TaskControlBlock {
    open spec fn obeys_partial_cmp_spec() -> bool {
        true
    }

    open spec fn partial_cmp_spec(&self, other: &Self) -> Option<Ordering> {
        if other.inner.stride < self.inner.stride {
            Some(Ordering::Less)
        } else if other.inner.stride == self.inner.stride {
            Some(Ordering::Equal)
        } else {
            Some(Ordering::Greater)
        }
    }
}

/// Processes are equal where their strides are, and the one with the smaller stride is
/// the greater.
pub proof fn law_order(a: &TaskControlBlock, b: &TaskControlBlock)
    ensures
        a.eq_spec(b) == (a.inner.stride == b.inner.stride),
        (a.partial_cmp_spec(b) == Some(Ordering::Greater)) == (a.inner.stride < b.inner.stride),
        (a.partial_cmp_spec(b) == Some(Ordering::Equal)) == (a.inner.stride == b.inner.stride),
        (a.partial_cmp_spec(b) == Some(Ordering::Less)) == (a.inner.stride > b.inner.stride),
{
}

} // verus!

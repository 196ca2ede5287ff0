//! Validated integers with inclusive compile-time bounds, used for MTU fields.
use vstd::prelude::*;

verus! {

/// An integer guaranteed to lie in the inclusive range [MIN, MAX].
#[derive(Clone, Copy, Debug)]
pub struct BoundedU32<const MIN: u32, const MAX: u32> {
    value: u32,
}

impl<const MIN: u32, const MAX: u32> BoundedU32<MIN, MAX> {
    /// The wrapped integer, as seen by specifications.
    pub closed spec fn spec_value(self) -> u32 {
        self.value
    }

    /// Every value constructed through `new` satisfies this bound.
    pub open spec fn in_bounds(self) -> bool {
        MIN <= self.spec_value() <= MAX
    }

    /// Accepts exactly the integers within [MIN, MAX].
    pub fn new(value: u32) -> (r: Option<Self>)
        ensures
            r is Some <==> MIN <= value <= MAX,
            r matches Some(b) ==> b.spec_value() == value && b.in_bounds(),
    {
        if MIN <= value && value <= MAX {
            Some(BoundedU32 { value })
        } else {
            None
        }
    }

    pub fn value(&self) -> (r: u32)
        ensures
            r == self.spec_value(),
    {
        self.value
    }
}

} // verus!

verus! {

/// The valid range of an interface MTU.
pub type MTU = BoundedU32<68, 64000>;

/// The valid range of an IPv6-specific MTU.
pub type MTUV6 = BoundedU32<1280, 64000>;

} // verus!

verus! {

/// Two bounded integers wrapping the same value are the same value.
pub proof fn lemma_bounded_eq<const MIN: u32, const MAX: u32>(
    a: BoundedU32<MIN, MAX>,
    b: BoundedU32<MIN, MAX>,
)
    requires
        a.spec_value() == b.spec_value(),
    ensures
        a == b,
{
}

} // verus!

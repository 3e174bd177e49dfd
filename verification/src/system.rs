use vstd::prelude::*;

verus! {

/// Types that can be used as return values for a system: nothing, for a
/// system that is done when it returns, or a future that the schedule has to
/// await.
pub trait SystemReturnable {
    /// Whether a value of this type has to be awaited.
    spec fn spec_is_async() -> bool;

    /// Whether a value of this type has to be awaited.
    fn is_async() -> (awaited: bool)
        ensures
            awaited == Self::spec_is_async(),
    ;
}

impl SystemReturnable for () {
    open spec fn spec_is_async() -> bool {
        false
    }

    fn is_async() -> (awaited: bool) {
        false
    }
}

} // verus!

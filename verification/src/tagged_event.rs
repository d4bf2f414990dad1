use vstd::prelude::*;

verus! {

/// An event stamped with the absolute sample index at which it fires.
#[derive(Clone, Copy, Debug, PartialEq, Eq, Structural)]
pub struct TaggedEvent<E> {
    pub tag: u64,
    pub event: E,
}

} // verus!

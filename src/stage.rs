//! The number of bells that ring together in a composition.

use vstd::prelude::*;

verus! {

/// A count of bells.  Every [`crate::row::Row`] and [`crate::bell::Bell`] used together shares
/// one `Stage`.
#[derive(Clone, Copy, Debug, PartialEq, Eq, Structural, PartialOrd, Ord, Hash)]
pub struct Stage {
    pub num_bells: usize,
}

impl Stage {
    /// Creates a `Stage` of `num_bells` bells.
    pub fn new(num_bells: usize) -> (r: Stage)
        ensures
            r.num_bells == num_bells,
    {
        Stage { num_bells }
    }

    /// The number of bells in this `Stage`.
    pub fn as_usize(&self) -> (r: usize)
        ensures
            r == self.num_bells,
    {
        self.num_bells
    }
}

impl From<usize> for Stage {
    fn from(num_bells: usize) -> (r: Stage) {
        Stage { num_bells }
    }
}

impl vstd::std_specs::convert::FromSpecImpl<usize> for Stage {
    open spec fn obeys_from_spec() -> bool {
        true
    }

    open spec fn from_spec(num_bells: usize) -> Stage {
        Stage { num_bells }
    }
}

} // verus!

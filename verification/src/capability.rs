//! Modeling capabilities that operations and remote grants are scoped to.

use vstd::prelude::*;

verus! {

/// A modeling capability. The declaration order is the order capabilities sort in.
#[derive(Clone, Copy, Debug, PartialEq, Eq, PartialOrd, Ord, Hash, Structural)]
pub enum Capability {
    Architecture,
    Drafting,
    Mechanical,
    Parameters,
}

impl Capability {
    /// Position in declaration order.
    pub open spec fn rank(self) -> int {
        match self {
            Capability::Architecture => 0,
            Capability::Drafting => 1,
            Capability::Mechanical => 2,
            Capability::Parameters => 3,
        }
    }

    pub fn rank_exec(self) -> (r: u8)
        ensures
            r == self.rank(),
    {
        match self {
            Capability::Architecture => 0,
            Capability::Drafting => 1,
            Capability::Mechanical => 2,
            Capability::Parameters => 3,
        }
    }
}

} // verus!

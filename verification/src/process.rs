use vstd::prelude::*;

use crate::sealed::Sealed;

verus! {

/// The operating-system rights that an attachment asks for.
#[derive(Clone, Copy, Debug, PartialEq, Eq, Structural)]
pub enum Access {
    ReadOnly,
    ReadWrite,
}

/// A memory-access capability of an attached process.
pub trait Capability: Sealed {
    /// The rights that the capability asks for.
    spec fn spec_access() -> Access;

    /// The rights that the capability asks for.
    fn access() -> (access: Access)
        ensures
            access == Self::spec_access(),
    ;
}

/// The capability to query and read a process.
pub struct ReadOnly;

/// The capability to query, read and write a process.
pub struct ReadWrite;

impl Sealed for ReadOnly {}

impl Sealed for ReadWrite {}

impl Capability for ReadOnly {
    open spec fn spec_access() -> Access {
        Access::ReadOnly
    }

    fn access() -> (access: Access) {
        Access::ReadOnly
    }
}

impl Capability for ReadWrite {
    open spec fn spec_access() -> Access {
        Access::ReadWrite
    }

    fn access() -> (access: Access) {
        Access::ReadWrite
    }
}


/// The read-only capability asks only for the rights to query and read, the
/// read-write capability for the rights to write too, so the two differ.
pub proof fn lemma_capability_rights()
    ensures
        <ReadOnly as Capability>::spec_access() == Access::ReadOnly,
        <ReadWrite as Capability>::spec_access() == Access::ReadWrite,
        <ReadOnly as Capability>::spec_access() != <ReadWrite as Capability>::spec_access(),
{
}

} // verus!

use vstd::prelude::*;

verus! {

/// What went wrong inside a PE image that was read from a target process.
#[derive(Clone, Copy, Debug, PartialEq, Eq, Structural)]
pub enum PeDefect {
    MissingMzSignature,
    MissingPeOffset,
    MissingPeSignature,
    MissingMachine,
    MissingSectionCount,
    MissingTimestamp,
    MissingOptionalSize,
    OptionalHeaderTooSmall,
    NotPe32,
    MissingImageBase,
    MissingImageSize,
    MissingChecksum,
    NoRelocationDirectory,
    MissingRelocationRva,
    MissingRelocationSize,
}

/// The underlying cause of a failed operating-system operation.
#[derive(Clone, Debug)]
pub enum Cause {
    /// A raw operating-system error code.
    Os(i32),
    /// The bytes that were read do not form what was expected.
    InvalidData(PeDefect),
    /// Fewer bytes were read than requested.
    PartialRead { expected: usize, got: usize },
    /// Fewer bytes were written than requested.
    PartialWrite { expected: usize, wrote: usize },
    /// Any other failure, described in words.
    Other(String),
}

/// Errors that can occur during process memory operations.
#[derive(Clone, Debug)]
pub enum Error {
    AttachFailed { pid: u32, source: Cause },
    ReadFailed { address: u64, source: Cause },
    WriteFailed { address: u64, source: Cause },
    ProcessNotFound { pid: u32 },
    PermissionDenied { pid: u32 },
    ModuleEnumFailed { source: Cause },
    RegionQueryFailed { source: Cause },
    AddressOverflow,
    AddressOutOfRange { address: u64, architecture: crate::target::Architecture },
    ArchitectureQueryFailed { source: Cause },
    UnknownPointerWidth { architecture: crate::target::Architecture },
}

} // verus!

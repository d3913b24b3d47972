use vstd::prelude::*;

use crate::error::Error;

verus! {

/// Architecture of the attached process, independent of the inspector architecture.
#[derive(Clone, Copy, Debug, PartialEq, Eq, Structural)]
pub enum Architecture {
    X86,
    X86_64,
    Arm64,
    Unknown(u16),
}

/// Width of a pointer in the target process.
#[derive(Clone, Copy, Debug, PartialEq, Eq, Structural)]
pub enum PointerWidth {
    Bits32,
    Bits64,
}

impl Architecture {
    /// The pointer width of each known architecture.
    pub open spec fn spec_pointer_width(self) -> Option<PointerWidth> {
        match self {
            Architecture::X86 => Some(PointerWidth::Bits32),
            Architecture::X86_64 => Some(PointerWidth::Bits64),
            Architecture::Arm64 => Some(PointerWidth::Bits64),
            Architecture::Unknown(_) => None,
        }
    }

    /// Whether addresses of this architecture are limited to 32 bits.
    pub open spec fn is_32_bit(self) -> bool {
        self.spec_pointer_width() == Some(PointerWidth::Bits32)
    }

    #[verifier::when_used_as_spec(spec_pointer_width)]
    pub fn pointer_width(self) -> (width: Option<PointerWidth>)
        ensures
            width == self.spec_pointer_width(),
    {
        match self {
            Architecture::X86 => Some(PointerWidth::Bits32),
            Architecture::X86_64 | Architecture::Arm64 => Some(PointerWidth::Bits64),
            Architecture::Unknown(_) => None,
        }
    }
}

/// An address in the target process. It is deliberately not the inspector's `usize`.
#[derive(Clone, Copy, Debug, PartialEq, Eq, PartialOrd, Ord, Structural)]
pub struct Address(u64);

impl View for Address {
    type V = u64;

    closed spec fn view(&self) -> u64 {
        self.0
    }
}

impl Address {
    /// The address whose value is `value`.
    pub closed spec fn spec_new(value: u64) -> Address {
        Address(value)
    }

    /// Whether the address can be used in a process of the given architecture.
    pub open spec fn valid_for(self, architecture: Architecture) -> bool {
        !(architecture.is_32_bit() && self@ > u32::MAX)
    }

    /// `self + offset`, or `AddressOverflow` when the sum does not fit in 64 bits.
    pub open spec fn spec_checked_add(self, offset: u64) -> Result<Address, Error> {
        if self@ + offset <= u64::MAX {
            Ok(Address::spec_new((self@ + offset) as u64))
        } else {
            Err(Error::AddressOverflow)
        }
    }

    /// `self`, or `AddressOutOfRange` when it does not fit the architecture.
    pub open spec fn spec_validate_for(self, architecture: Architecture) -> Result<Address, Error> {
        if self.valid_for(architecture) {
            Ok(self)
        } else {
            Err(Error::AddressOutOfRange { address: self@, architecture })
        }
    }

    pub fn new(value: u64) -> (address: Self)
        ensures
            address == Address::spec_new(value),
            address@ == value,
    {
        Address(value)
    }

    pub fn value(self) -> (value: u64)
        ensures
            value == self@,
    {
        self.0
    }

    pub fn checked_add(self, offset: u64) -> (result: Result<Self, Error>)
        ensures
            result == self.spec_checked_add(offset),
    {
        proof {
            lemma_address_new_view(self);
        }
        match self.0.checked_add(offset) {
            Some(sum) => Ok(Address(sum)),
            None => Err(Error::AddressOverflow),
        }
    }

    pub fn validate_for(self, architecture: Architecture) -> (result: Result<Self, Error>)
        ensures
            result == self.spec_validate_for(architecture),
    {
        let limited = match architecture.pointer_width() {
            Some(PointerWidth::Bits32) => true,
            _ => false,
        };
        if limited && self.0 > u32::MAX as u64 {
            return Err(Error::AddressOutOfRange { address: self.0, architecture });
        }
        Ok(self)
    }
}

impl Address {
    /// The inspector's `usize` for an address of a process of `architecture`, when
    /// the address is valid for the architecture and fits in a `usize`.
    pub open spec fn spec_to_usize_for(self, architecture: Architecture) -> Result<usize, Error> {
        if self.valid_for(architecture) && self@ <= usize::MAX {
            Ok(self@ as usize)
        } else {
            Err(Error::AddressOutOfRange { address: self@, architecture })
        }
    }

    /// The inspector's `usize` for an address of a process of `architecture`.
    pub fn to_usize_for(self, architecture: Architecture) -> (address: Result<usize, Error>)
        ensures
            address == self.spec_to_usize_for(architecture),
    {
        let valid = self.validate_for(architecture)?;
        if valid.0 > usize::MAX as u64 {
            return Err(Error::AddressOutOfRange { address: valid.0, architecture });
        }
        Ok(valid.0 as usize)
    }
}

pub const IMAGE_FILE_MACHINE_UNKNOWN: u16 = 0;
pub const IMAGE_FILE_MACHINE_I386: u16 = 0x014c;
pub const IMAGE_FILE_MACHINE_AMD64: u16 = 0x8664;
pub const IMAGE_FILE_MACHINE_ARM64: u16 = 0xaa64;

impl Architecture {
    /// The architecture that a machine type names.
    pub open spec fn of_machine(machine: u16) -> Architecture {
        if machine == IMAGE_FILE_MACHINE_I386 {
            Architecture::X86
        } else if machine == IMAGE_FILE_MACHINE_AMD64 {
            Architecture::X86_64
        } else if machine == IMAGE_FILE_MACHINE_ARM64 {
            Architecture::Arm64
        } else {
            Architecture::Unknown(machine)
        }
    }

    /// The architecture of a process from the machine types that the Windows
    /// WOW64 query gives: the process machine, unless it is unknown, in which case
    /// the process runs natively and the native machine counts.
    pub fn from_wow64_machines(process_machine: u16, native_machine: u16) -> (architecture:
        Architecture)
        ensures
            architecture == Architecture::of_machine(
                if process_machine == IMAGE_FILE_MACHINE_UNKNOWN {
                    native_machine
                } else {
                    process_machine
                },
            ),
    {
        let machine = if process_machine == IMAGE_FILE_MACHINE_UNKNOWN {
            native_machine
        } else {
            process_machine
        };
        if machine == IMAGE_FILE_MACHINE_I386 {
            Architecture::X86
        } else if machine == IMAGE_FILE_MACHINE_AMD64 {
            Architecture::X86_64
        } else if machine == IMAGE_FILE_MACHINE_ARM64 {
            Architecture::Arm64
        } else {
            Architecture::Unknown(machine)
        }
    }
}

/// An address fails validation only for an architecture with 32-bit pointers,
/// and there exactly when its value does not fit in 32 bits; a validated address
/// is the address itself.
pub proof fn lemma_validation_by_width(address: Address, architecture: Architecture)
    ensures
        address.spec_validate_for(architecture) is Ok <==> (architecture.spec_pointer_width()
            != Some(PointerWidth::Bits32) || address@ <= u32::MAX),
        address.spec_validate_for(architecture) matches Ok(valid) ==> valid == address,
{
}

/// An address resolves to the inspector's `usize` exactly when it passes
/// validation for the architecture and fits in a `usize`, and then to its value.
pub proof fn lemma_resolution_follows_validation(address: Address, architecture: Architecture)
    ensures
        address.spec_to_usize_for(architecture) is Ok <==> (address.spec_validate_for(
            architecture,
        ) is Ok && address@ <= usize::MAX),
        address.spec_to_usize_for(architecture) matches Ok(value) ==> value == address@,
{
}

/// Two addresses with the same value are the same address.
pub broadcast proof fn lemma_address_new_view(address: Address)
    ensures
        #[trigger] Address::spec_new(address@) == address,
{
}

/// The value of a constructed address is the value it was made from.
pub broadcast proof fn lemma_address_view_new(value: u64)
    ensures
        #[trigger] Address::spec_new(value)@ == value,
{
}

pub broadcast group group_address {
    lemma_address_new_view,
    lemma_address_view_new,
}

impl From<u32> for Address {
    fn from(value: u32) -> (address: Self) {
        Address(value as u64)
    }
}

impl vstd::std_specs::convert::FromSpecImpl<u32> for Address {
    open spec fn obeys_from_spec() -> bool {
        true
    }

    open spec fn from_spec(value: u32) -> Self {
        Address::spec_new(value as u64)
    }
}

/// A 32-bit pointer as stored in the memory of a 32-bit process.
#[derive(Clone, Copy, Debug, PartialEq, Eq, Structural)]
pub struct Pointer32(u32);

impl View for Pointer32 {
    type V = u32;

    closed spec fn view(&self) -> u32 {
        self.0
    }
}

impl Pointer32 {
    pub fn new(value: u32) -> (pointer: Self)
        ensures
            pointer@ == value,
    {
        Pointer32(value)
    }

    pub fn address(self) -> (address: Address)
        ensures
            address@ == self@ as u64,
    {
        Address::new(self.0 as u64)
    }
}

/// A 64-bit pointer as stored in the memory of a 64-bit process.
#[derive(Clone, Copy, Debug, PartialEq, Eq, Structural)]
pub struct Pointer64(u64);

impl View for Pointer64 {
    type V = u64;

    closed spec fn view(&self) -> u64 {
        self.0
    }
}

impl Pointer64 {
    pub fn new(value: u64) -> (pointer: Self)
        ensures
            pointer@ == value,
    {
        Pointer64(value)
    }

    pub fn address(self) -> (address: Address)
        ensures
            address@ == self@,
    {
        Address::new(self.0)
    }
}

} // verus!

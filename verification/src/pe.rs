use vstd::prelude::*;
use vstd::slice::slice_subrange;

use crate::error::{Cause, Error, PeDefect};
use crate::target::{group_address, Address, Architecture};

verus! {

broadcast use group_address;

pub const DOS_HEADER_SIZE: usize = 64;
pub const COFF_HEADER_SIZE: usize = 24;
pub const SECTION_HEADER_SIZE: usize = 40;
pub const PE32_MAGIC: u16 = 0x10b;
pub const IMAGE_SCN_MEM_EXECUTE: u32 = 0x2000_0000;
pub const IMAGE_SCN_MEM_READ: u32 = 0x4000_0000;
pub const IMAGE_SCN_MEM_WRITE: u32 = 0x8000_0000;

/// The identity of a PE32 image as it is mapped in a target process.
#[derive(Clone, Debug, Eq, PartialEq)]
pub struct PeIdentity {
    pub machine: u16,
    pub timestamp: u32,
    pub mapped_image_base: Address,
    pub preferred_image_base: u32,
    pub image_size: u32,
    pub checksum: u32,
    pub relocation_address: Address,
    pub relocation_size: u32,
    pub sections: Vec<PeSection>,
}

/// One section of a mapped PE image.
#[derive(Clone, Debug, Eq, PartialEq)]
pub struct PeSection {
    pub name: String,
    pub address: Address,
    pub virtual_size: u32,
    pub mapped_size: u32,
    pub readable: bool,
    pub writable: bool,
    pub executable: bool,
}

impl PeSection {
    /// A section is immutable when it can be read but not written.
    pub fn immutable(&self) -> (immutable: bool)
        ensures
            immutable == (self.readable && !self.writable),
    {
        self.readable && !self.writable
    }
}

/// The little-endian `u16` at `offset`, when two bytes are there.
pub open spec fn le16(bytes: Seq<u8>, offset: int) -> Option<u16> {
    if 0 <= offset && offset + 2 <= bytes.len() {
        Some((bytes[offset] + bytes[offset + 1] * 256) as u16)
    } else {
        None
    }
}

/// The little-endian `u32` at `offset`, when four bytes are there.
pub open spec fn le32(bytes: Seq<u8>, offset: int) -> Option<u32> {
    if 0 <= offset && offset + 4 <= bytes.len() {
        Some(
            (bytes[offset] + bytes[offset + 1] * 256 + bytes[offset + 2] * 65536 + bytes[offset
                + 3] * 16777216) as u32,
        )
    } else {
        None
    }
}

/// The error that reports malformed image data found at `address`.
pub open spec fn invalid(address: Address, defect: PeDefect) -> Error {
    Error::ReadFailed { address: address@, source: Cause::InvalidData(defect) }
}

pub fn u16_at(bytes: &[u8], offset: usize) -> (value: Option<u16>)
    ensures
        value == le16(bytes@, offset as int),
{
    if offset > bytes.len() || bytes.len() - offset < 2 {
        return None;
    }
    Some(bytes[offset] as u16 + bytes[offset + 1] as u16 * 256)
}

pub fn u32_at(bytes: &[u8], offset: usize) -> (value: Option<u32>)
    ensures
        value == le32(bytes@, offset as int),
{
    if offset > bytes.len() || bytes.len() - offset < 4 {
        return None;
    }
    Some(
        bytes[offset] as u32 + bytes[offset + 1] as u32 * 256 + bytes[offset + 2] as u32 * 65536
            + bytes[offset + 3] as u32 * 16777216,
    )
}

pub fn invalid_data(address: Address, defect: PeDefect) -> (error: Error)
    ensures
        error == invalid(address, defect),
{
    Error::ReadFailed { address: address.value(), source: Cause::InvalidData(defect) }
}


/// The bytes `[0x4d, 0x5a]` ("MZ") open the DOS header.
pub open spec fn has_mz_signature(dos: Seq<u8>) -> bool {
    dos.len() >= 2 && dos[0] == 0x4d && dos[1] == 0x5a
}

/// The bytes "PE\0\0" open the COFF header.
pub open spec fn has_pe_signature(coff: Seq<u8>) -> bool {
    coff.len() >= 4 && coff[0] == 0x50 && coff[1] == 0x45 && coff[2] == 0 && coff[3] == 0
}

/// The address of the COFF header named by a DOS header read at `base`.
pub open spec fn spec_dos_header(base: Address, dos: Seq<u8>) -> Result<Address, Error> {
    if !has_mz_signature(dos) {
        Err(invalid(base, PeDefect::MissingMzSignature))
    } else {
        match le32(dos, 0x3c) {
            None => Err(invalid(base, PeDefect::MissingPeOffset)),
            Some(offset) => base.spec_checked_add(offset as u64),
        }
    }
}

/// The fields of the COFF file header that the image identity uses.
#[derive(Clone, Copy, Debug, PartialEq, Eq, Structural)]
pub struct CoffHeader {
    pub machine: u16,
    pub section_count: u16,
    pub timestamp: u32,
    pub optional_size: u16,
}

/// The COFF header read at `pe_address`.
pub open spec fn spec_coff_header(pe_address: Address, coff: Seq<u8>) -> Result<CoffHeader, Error> {
    if !has_pe_signature(coff) {
        Err(invalid(pe_address, PeDefect::MissingPeSignature))
    } else if le16(coff, 4) is None {
        Err(invalid(pe_address, PeDefect::MissingMachine))
    } else if le16(coff, 6) is None {
        Err(invalid(pe_address, PeDefect::MissingSectionCount))
    } else if le32(coff, 8) is None {
        Err(invalid(pe_address, PeDefect::MissingTimestamp))
    } else if le16(coff, 20) is None {
        Err(invalid(pe_address, PeDefect::MissingOptionalSize))
    } else if le16(coff, 20).unwrap() < 68 {
        Err(invalid(pe_address, PeDefect::OptionalHeaderTooSmall))
    } else {
        Ok(
            CoffHeader {
                machine: le16(coff, 4).unwrap(),
                section_count: le16(coff, 6).unwrap(),
                timestamp: le32(coff, 8).unwrap(),
                optional_size: le16(coff, 20).unwrap(),
            },
        )
    }
}

/// The fields of the PE32 optional header that the image identity uses.
#[derive(Clone, Copy, Debug, PartialEq, Eq, Structural)]
pub struct OptionalHeader {
    pub preferred_image_base: u32,
    pub image_size: u32,
    pub checksum: u32,
    pub relocation_address: Address,
    pub relocation_size: u32,
}

/// The optional header of `optional_size` bytes read at `optional_address`,
/// for an image mapped at `base`.
pub open spec fn spec_optional_header(
    base: Address,
    optional_address: Address,
    optional_size: u16,
    optional: Seq<u8>,
) -> Result<OptionalHeader, Error> {
    if le16(optional, 0) != Some(PE32_MAGIC) {
        Err(invalid(optional_address, PeDefect::NotPe32))
    } else if le32(optional, 28) is None {
        Err(invalid(optional_address, PeDefect::MissingImageBase))
    } else if le32(optional, 56) is None {
        Err(invalid(optional_address, PeDefect::MissingImageSize))
    } else if le32(optional, 64) is None {
        Err(invalid(optional_address, PeDefect::MissingChecksum))
    } else if optional_size < 144 {
        Err(invalid(optional_address, PeDefect::NoRelocationDirectory))
    } else if le32(optional, 136) is None {
        Err(invalid(optional_address, PeDefect::MissingRelocationRva))
    } else if le32(optional, 140) is None {
        Err(invalid(optional_address, PeDefect::MissingRelocationSize))
    } else {
        match base.spec_checked_add(le32(optional, 136).unwrap() as u64) {
            Err(e) => Err(e),
            Ok(relocation_address) => Ok(
                OptionalHeader {
                    preferred_image_base: le32(optional, 28).unwrap(),
                    image_size: le32(optional, 56).unwrap(),
                    checksum: le32(optional, 64).unwrap(),
                    relocation_address,
                    relocation_size: le32(optional, 140).unwrap(),
                },
            ),
        }
    }
}

/// Reads the DOS header of an image mapped at `base` and gives the address of its COFF header.
pub fn parse_dos_header(base: Address, dos: &[u8]) -> (pe_address: Result<Address, Error>)
    ensures
        pe_address == spec_dos_header(base, dos@),
{
    if dos.len() < 2 || dos[0] != 0x4d || dos[1] != 0x5a {
        return Err(invalid_data(base, PeDefect::MissingMzSignature));
    }
    match u32_at(dos, 0x3c) {
        None => Err(invalid_data(base, PeDefect::MissingPeOffset)),
        Some(offset) => base.checked_add(offset as u64),
    }
}

/// Reads the COFF header found at `pe_address`.
pub fn parse_coff_header(pe_address: Address, coff: &[u8]) -> (header: Result<CoffHeader, Error>)
    ensures
        header == spec_coff_header(pe_address, coff@),
{
    if coff.len() < 4 || coff[0] != 0x50 || coff[1] != 0x45 || coff[2] != 0 || coff[3] != 0 {
        return Err(invalid_data(pe_address, PeDefect::MissingPeSignature));
    }
    let machine = match u16_at(coff, 4) {
        Some(value) => value,
        None => return Err(invalid_data(pe_address, PeDefect::MissingMachine)),
    };
    let section_count = match u16_at(coff, 6) {
        Some(value) => value,
        None => return Err(invalid_data(pe_address, PeDefect::MissingSectionCount)),
    };
    let timestamp = match u32_at(coff, 8) {
        Some(value) => value,
        None => return Err(invalid_data(pe_address, PeDefect::MissingTimestamp)),
    };
    let optional_size = match u16_at(coff, 20) {
        Some(value) => value,
        None => return Err(invalid_data(pe_address, PeDefect::MissingOptionalSize)),
    };
    if optional_size < 68 {
        return Err(invalid_data(pe_address, PeDefect::OptionalHeaderTooSmall));
    }
    Ok(CoffHeader { machine, section_count, timestamp, optional_size })
}

/// Reads the PE32 optional header of `optional_size` bytes found at
/// `optional_address`, for an image mapped at `base`.
pub fn parse_optional_header(
    base: Address,
    optional_address: Address,
    optional_size: u16,
    optional: &[u8],
) -> (header: Result<OptionalHeader, Error>)
    ensures
        header == spec_optional_header(base, optional_address, optional_size, optional@),
{
    match u16_at(optional, 0) {
        Some(magic) => {
            if magic != PE32_MAGIC {
                return Err(invalid_data(optional_address, PeDefect::NotPe32));
            }
        },
        None => return Err(invalid_data(optional_address, PeDefect::NotPe32)),
    }
    let preferred_image_base = match u32_at(optional, 28) {
        Some(value) => value,
        None => return Err(invalid_data(optional_address, PeDefect::MissingImageBase)),
    };
    let image_size = match u32_at(optional, 56) {
        Some(value) => value,
        None => return Err(invalid_data(optional_address, PeDefect::MissingImageSize)),
    };
    let checksum = match u32_at(optional, 64) {
        Some(value) => value,
        None => return Err(invalid_data(optional_address, PeDefect::MissingChecksum)),
    };
    if optional_size < 144 {
        return Err(invalid_data(optional_address, PeDefect::NoRelocationDirectory));
    }
    let relocation_rva = match u32_at(optional, 136) {
        Some(value) => value,
        None => return Err(invalid_data(optional_address, PeDefect::MissingRelocationRva)),
    };
    let relocation_size = match u32_at(optional, 140) {
        Some(value) => value,
        None => return Err(invalid_data(optional_address, PeDefect::MissingRelocationSize)),
    };
    let relocation_address = base.checked_add(relocation_rva as u64)?;
    Ok(OptionalHeader {
        preferred_image_base,
        image_size,
        checksum,
        relocation_address,
        relocation_size,
    })
}


/// What `String::from_utf8_lossy` makes of `bytes`: their UTF-8 decoding, with
/// each invalid sequence replaced by U+FFFD.
pub uninterp spec fn utf8_lossy(bytes: Seq<u8>) -> Seq<char>;

/// Calls `String::from_utf8_lossy` and takes ownership of the result.
/// The contract claims that the text is the named lossy decoding of the bytes,
/// and, as std documents, that bytes which are valid UTF-8 are decoded unchanged.
#[verifier::external_body]
pub(crate) fn decode_lossy(bytes: &[u8]) -> (text: String)
    ensures
        text@ == utf8_lossy(bytes@),
        vstd::utf8::valid_utf8(bytes@) ==> text@ == vstd::utf8::decode_utf8(bytes@),
{
    String::from_utf8_lossy(bytes).into_owned()
}

/// The index of the first NUL among the first eight bytes from `i` on, or 8.
pub open spec fn name_length_from(header: Seq<u8>, i: int) -> int
    decreases 8 - i,
{
    if i >= 8 {
        8
    } else if header[i] == 0 {
        i
    } else {
        name_length_from(header, i + 1)
    }
}

/// The length of the NUL-padded name at the start of a section header.
pub open spec fn name_length(header: Seq<u8>) -> int {
    name_length_from(header, 0)
}

/// The larger of a section's virtual size and raw size.
pub open spec fn spec_mapped_size(header: Seq<u8>) -> u32 {
    let virtual_size = le32(header, 8).unwrap();
    let raw_size = le32(header, 16).unwrap();
    if virtual_size >= raw_size {
        virtual_size
    } else {
        raw_size
    }
}

/// The offset of a section's last byte from its first (0 for an empty section).
pub open spec fn last_byte_offset(mapped_size: u32) -> u32 {
    if mapped_size == 0 {
        0
    } else {
        (mapped_size - 1) as u32
    }
}

/// Why a section header cannot be accepted for an image mapped at `base`
/// in a process of `architecture`, if it cannot.
pub open spec fn section_error(base: Address, architecture: Architecture, header: Seq<u8>) -> Option<
    Error,
> {
    match base.spec_checked_add(le32(header, 12).unwrap() as u64) {
        Err(e) => Some(e),
        Ok(address) => match address.spec_validate_for(architecture) {
            Err(e) => Some(e),
            Ok(_) => match address.spec_checked_add(
                last_byte_offset(spec_mapped_size(header)) as u64,
            ) {
                Err(e) => Some(e),
                Ok(last) => match last.spec_validate_for(architecture) {
                    Err(e) => Some(e),
                    Ok(_) => None,
                },
            },
        },
    }
}

/// `section` is what the section header `header` describes for an image mapped at `base`.
pub open spec fn section_from_header(section: PeSection, base: Address, header: Seq<u8>) -> bool {
    let characteristics = le32(header, 36).unwrap();
    &&& section.name@ == utf8_lossy(header.subrange(0, name_length(header)))
    &&& section.address@ == base@ + le32(header, 12).unwrap()
    &&& section.virtual_size == le32(header, 8).unwrap()
    &&& section.mapped_size == spec_mapped_size(header)
    &&& section.readable == (characteristics & IMAGE_SCN_MEM_READ != 0)
    &&& section.writable == (characteristics & IMAGE_SCN_MEM_WRITE != 0)
    &&& section.executable == (characteristics & IMAGE_SCN_MEM_EXECUTE != 0)
}

/// Reads one 40-byte section header of an image mapped at `base`, checking that the
/// whole section lies in the address range of `architecture`.
pub fn parse_section_header(base: Address, architecture: Architecture, header: &[u8]) -> (section:
    Result<PeSection, Error>)
    requires
        header@.len() == SECTION_HEADER_SIZE,
    ensures
        match section {
            Ok(section) => section_error(base, architecture, header@) is None
                && section_from_header(section, base, header@),
            Err(e) => section_error(base, architecture, header@) == Some(e),
        },
{
    let mut name_end: usize = 0;
    while name_end < 8 && header[name_end] != 0
        invariant
            name_end <= 8,
            header@.len() == SECTION_HEADER_SIZE,
            name_length(header@) == name_length_from(header@, name_end as int),
        decreases 8 - name_end,
    {
        name_end = name_end + 1;
    }
    let name = decode_lossy(slice_subrange(header, 0, name_end));
    let virtual_size = match u32_at(header, 8) {
        Some(value) => value,
        None => 0,
    };
    let virtual_address = match u32_at(header, 12) {
        Some(value) => value,
        None => 0,
    };
    let raw_size = match u32_at(header, 16) {
        Some(value) => value,
        None => 0,
    };
    let characteristics = match u32_at(header, 36) {
        Some(value) => value,
        None => 0,
    };
    let mapped_size = if virtual_size >= raw_size {
        virtual_size
    } else {
        raw_size
    };
    let address = base.checked_add(virtual_address as u64)?;
    address.validate_for(architecture)?;
    let last_offset = if mapped_size == 0 {
        0
    } else {
        mapped_size - 1
    };
    address.checked_add(last_offset as u64)?.validate_for(architecture)?;
    Ok(PeSection {
        name,
        address,
        virtual_size,
        mapped_size,
        readable: characteristics & IMAGE_SCN_MEM_READ != 0,
        writable: characteristics & IMAGE_SCN_MEM_WRITE != 0,
        executable: characteristics & IMAGE_SCN_MEM_EXECUTE != 0,
    })
}

/// The `k`-th 40-byte section header of a section table.
pub open spec fn section_header(table: Seq<u8>, k: int) -> Seq<u8> {
    table.subrange(k * 40, k * 40 + 40)
}

/// The number of whole section headers in a section table.
pub open spec fn header_count(table: Seq<u8>) -> int {
    (table.len() / 40) as int
}

/// Every whole header of the table is accepted.
pub open spec fn table_accepted(base: Address, architecture: Architecture, table: Seq<u8>) -> bool {
    forall|k: int|
        0 <= k < header_count(table) ==> #[trigger] section_error(
            base,
            architecture,
            section_header(table, k),
        ) is None
}

/// `e` is the error of the first header of the table that is not accepted.
pub open spec fn table_error(base: Address, architecture: Architecture, table: Seq<u8>, e: Error) -> bool {
    exists|k: int|
        0 <= k < header_count(table) && #[trigger] section_error(
            base,
            architecture,
            section_header(table, k),
        ) == Some(e) && forall|j: int|
            0 <= j < k ==> #[trigger] section_error(base, architecture, section_header(table, j))
                is None
}

/// `sections` are the sections that the whole headers of the table describe, in order.
pub open spec fn sections_from_table(sections: Seq<PeSection>, base: Address, table: Seq<u8>) -> bool {
    &&& sections.len() == header_count(table)
    &&& forall|k: int|
        0 <= k < sections.len() ==> #[trigger] section_from_header(
            sections[k],
            base,
            section_header(table, k),
        )
}

/// Reads the section table of an image mapped at `base`; trailing bytes that do
/// not make a whole header are ignored.
pub fn parse_section_table(base: Address, architecture: Architecture, table: &[u8]) -> (sections:
    Result<Vec<PeSection>, Error>)
    ensures
        match sections {
            Ok(sections) => table_accepted(base, architecture, table@) && sections_from_table(
                sections@,
                base,
                table@,
            ),
            Err(e) => table_error(base, architecture, table@, e),
        },
{
    let count = table.len() / 40;
    let mut sections: Vec<PeSection> = Vec::with_capacity(count);
    let mut i: usize = 0;
    assert(count * 40 <= table.len()) by (nonlinear_arith)
        requires
            count == table.len() / 40,
    ;
    while i < count
        invariant
            count == header_count(table@),
            count * 40 <= table.len(),
            i <= count,
            sections@.len() == i,
            forall|k: int|
                0 <= k < i ==> #[trigger] section_error(
                    base,
                    architecture,
                    section_header(table@, k),
                ) is None,
            forall|k: int|
                0 <= k < i ==> #[trigger] section_from_header(
                    sections@[k],
                    base,
                    section_header(table@, k),
                ),
        decreases count - i,
    {
        assert(i * 40 + 40 <= table.len()) by (nonlinear_arith)
            requires
                i < count,
                count * 40 <= table.len(),
        ;
        let start = i * 40;
        let header = slice_subrange(table, start, start + 40);
        assert(header@ == section_header(table@, i as int));
        let section = parse_section_header(base, architecture, header)?;
        sections.push(section);
        i = i + 1;
    }
    Ok(sections)
}


/// A read of `len` bytes of target memory at `address`.
#[derive(Clone, Copy, Debug, PartialEq, Eq, Structural)]
pub struct ReadRequest {
    pub address: Address,
    pub len: usize,
}

/// The header that a mapped-image reader waits for, with what it learned so far.
#[derive(Clone, Copy, Debug, PartialEq, Eq, Structural)]
pub enum PeStage {
    ReadingDos,
    ReadingCoff { pe_address: Address },
    ReadingOptional { coff: CoffHeader, optional_address: Address },
    ReadingSections { coff: CoffHeader, optional: OptionalHeader, section_address: Address },
}

/// The reading of a PE32 image mapped at `base` in a process of `architecture`,
/// one header at a time: the caller reads what `request` names and hands the
/// bytes to `advance`.
#[derive(Clone, Copy, Debug, PartialEq, Eq, Structural)]
pub struct PeReader {
    pub base: Address,
    pub architecture: Architecture,
    pub stage: PeStage,
}

/// What follows a header: another read, the finished identity, or an error.
#[derive(Clone, Debug)]
pub enum PeStep {
    Read(PeReader),
    Done(PeIdentity),
    Failed(Error),
}

/// `identity` is the image identity made of the given headers and sections.
pub open spec fn identity_from(
    identity: PeIdentity,
    base: Address,
    coff: CoffHeader,
    optional: OptionalHeader,
    table: Seq<u8>,
) -> bool {
    &&& identity.machine == coff.machine
    &&& identity.timestamp == coff.timestamp
    &&& identity.mapped_image_base == base
    &&& identity.preferred_image_base == optional.preferred_image_base
    &&& identity.image_size == optional.image_size
    &&& identity.checksum == optional.checksum
    &&& identity.relocation_address == optional.relocation_address
    &&& identity.relocation_size == optional.relocation_size
    &&& sections_from_table(identity.sections@, base, table)
}

impl PeReader {
    /// The read that the reader waits for.
    pub open spec fn spec_request(self) -> ReadRequest {
        match self.stage {
            PeStage::ReadingDos => ReadRequest { address: self.base, len: DOS_HEADER_SIZE },
            PeStage::ReadingCoff { pe_address } => ReadRequest {
                address: pe_address,
                len: COFF_HEADER_SIZE,
            },
            PeStage::ReadingOptional { coff, optional_address } => ReadRequest {
                address: optional_address,
                len: coff.optional_size as usize,
            },
            PeStage::ReadingSections { coff, section_address, .. } => ReadRequest {
                address: section_address,
                len: (coff.section_count * 40) as usize,
            },
        }
    }

    /// The reader that goes on in `stage`.
    pub open spec fn with_stage(self, stage: PeStage) -> PeReader {
        PeReader { base: self.base, architecture: self.architecture, stage }
    }

    /// What the reader does with the bytes that its request gave.
    pub open spec fn advances_to(self, bytes: Seq<u8>, step: PeStep) -> bool {
        match self.stage {
            PeStage::ReadingDos => match spec_dos_header(self.base, bytes) {
                Err(e) => step == PeStep::Failed(e),
                Ok(pe_address) => step == PeStep::Read(
                    self.with_stage(PeStage::ReadingCoff { pe_address }),
                ),
            },
            PeStage::ReadingCoff { pe_address } => match spec_coff_header(pe_address, bytes) {
                Err(e) => step == PeStep::Failed(e),
                Ok(coff) => match pe_address.spec_checked_add(COFF_HEADER_SIZE as u64) {
                    Err(e) => step == PeStep::Failed(e),
                    Ok(optional_address) => step == PeStep::Read(
                        self.with_stage(PeStage::ReadingOptional { coff, optional_address }),
                    ),
                },
            },
            PeStage::ReadingOptional { coff, optional_address } => match spec_optional_header(
                self.base,
                optional_address,
                coff.optional_size,
                bytes,
            ) {
                Err(e) => step == PeStep::Failed(e),
                Ok(optional) => match optional_address.spec_checked_add(coff.optional_size as u64) {
                    Err(e) => step == PeStep::Failed(e),
                    Ok(section_address) => step == PeStep::Read(
                        self.with_stage(
                            PeStage::ReadingSections { coff, optional, section_address },
                        ),
                    ),
                },
            },
            PeStage::ReadingSections { coff, optional, .. } => match step {
                PeStep::Done(identity) => table_accepted(self.base, self.architecture, bytes)
                    && identity_from(identity, self.base, coff, optional, bytes),
                PeStep::Failed(e) => table_error(self.base, self.architecture, bytes, e),
                PeStep::Read(_) => false,
            },
        }
    }

    /// Starts reading the image mapped at `base`; the first read is the DOS header.
    pub fn new(base: Address, architecture: Architecture) -> (reader: PeReader)
        ensures
            reader == (PeReader { base, architecture, stage: PeStage::ReadingDos }),
    {
        PeReader { base, architecture, stage: PeStage::ReadingDos }
    }

    /// The read that the reader waits for.
    pub fn request(&self) -> (request: ReadRequest)
        ensures
            request == self.spec_request(),
    {
        match self.stage {
            PeStage::ReadingDos => ReadRequest { address: self.base, len: DOS_HEADER_SIZE },
            PeStage::ReadingCoff { pe_address } => ReadRequest {
                address: pe_address,
                len: COFF_HEADER_SIZE,
            },
            PeStage::ReadingOptional { coff, optional_address } => ReadRequest {
                address: optional_address,
                len: coff.optional_size as usize,
            },
            PeStage::ReadingSections { coff, section_address, .. } => ReadRequest {
                address: section_address,
                len: coff.section_count as usize * 40,
            },
        }
    }

    /// Takes the bytes that the current request gave and decides what follows.
    pub fn advance(self, bytes: &[u8]) -> (step: PeStep)
        ensures
            self.advances_to(bytes@, step),
    {
        match self.stage {
            PeStage::ReadingDos => match parse_dos_header(self.base, bytes) {
                Err(e) => PeStep::Failed(e),
                Ok(pe_address) => PeStep::Read(
                    PeReader {
                        base: self.base,
                        architecture: self.architecture,
                        stage: PeStage::ReadingCoff { pe_address },
                    },
                ),
            },
            PeStage::ReadingCoff { pe_address } => match parse_coff_header(pe_address, bytes) {
                Err(e) => PeStep::Failed(e),
                Ok(coff) => match pe_address.checked_add(COFF_HEADER_SIZE as u64) {
                    Err(e) => PeStep::Failed(e),
                    Ok(optional_address) => PeStep::Read(
                        PeReader {
                            base: self.base,
                            architecture: self.architecture,
                            stage: PeStage::ReadingOptional { coff, optional_address },
                        },
                    ),
                },
            },
            PeStage::ReadingOptional { coff, optional_address } => match parse_optional_header(
                self.base,
                optional_address,
                coff.optional_size,
                bytes,
            ) {
                Err(e) => PeStep::Failed(e),
                Ok(optional) => match optional_address.checked_add(coff.optional_size as u64) {
                    Err(e) => PeStep::Failed(e),
                    Ok(section_address) => PeStep::Read(
                        PeReader {
                            base: self.base,
                            architecture: self.architecture,
                            stage: PeStage::ReadingSections { coff, optional, section_address },
                        },
                    ),
                },
            },
            PeStage::ReadingSections { coff, optional, .. } => match parse_section_table(
                self.base,
                self.architecture,
                bytes,
            ) {
                Err(e) => PeStep::Failed(e),
                Ok(sections) => PeStep::Done(
                    PeIdentity {
                        machine: coff.machine,
                        timestamp: coff.timestamp,
                        mapped_image_base: self.base,
                        preferred_image_base: optional.preferred_image_base,
                        image_size: optional.image_size,
                        checksum: optional.checksum,
                        relocation_address: optional.relocation_address,
                        relocation_size: optional.relocation_size,
                        sections,
                    },
                ),
            },
        }
    }
}


/// The whole of a section, from its first byte to its last, can be addressed in
/// a process of `architecture`.
pub open spec fn section_addressable(section: PeSection, architecture: Architecture) -> bool {
    let last = section.address@ + last_byte_offset(section.mapped_size);
    &&& section.address.valid_for(architecture)
    &&& last <= u64::MAX
    &&& Address::spec_new(last as u64).valid_for(architecture)
}

/// Every section of an image identity that a reader finishes lies, first byte to
/// last, in the address range of the target architecture: for a 32-bit target no
/// section reaches past 4 GiB.
pub proof fn lemma_identity_sections_addressable(
    reader: PeReader,
    bytes: Seq<u8>,
    identity: PeIdentity,
)
    requires
        reader.advances_to(bytes, PeStep::Done(identity)),
    ensures
        forall|k: int|
            0 <= k < identity.sections@.len() ==> section_addressable(
                #[trigger] identity.sections@[k],
                reader.architecture,
            ),
{
    assert forall|k: int| 0 <= k < identity.sections@.len() implies section_addressable(
        #[trigger] identity.sections@[k],
        reader.architecture,
    ) by {
        let header = section_header(bytes, k);
        assert(section_error(reader.base, reader.architecture, header) is None);
        assert(section_from_header(identity.sections@[k], reader.base, header));
    }
}


/// A mapped image is read header after header, each right behind the one before:
/// the optional header follows the 24-byte COFF header, and the section table
/// follows the optional header; both reads happen only after the header before
/// them was accepted.
pub proof fn lemma_headers_are_contiguous(reader: PeReader, bytes: Seq<u8>, next: PeReader)
    requires
        reader.advances_to(bytes, PeStep::Read(next)),
        !(reader.stage is ReadingDos),
    ensures
        next.spec_request().address@ == reader.spec_request().address@
            + reader.spec_request().len,
        next.base == reader.base,
        next.architecture == reader.architecture,
{
}

/// A reader starts with the 64-byte DOS header at the image base, and the DOS
/// header names where the COFF header is read.
pub proof fn lemma_reading_starts_at_base(base: Address, architecture: Architecture, dos: Seq<u8>)
    ensures
        (PeReader { base, architecture, stage: PeStage::ReadingDos }).spec_request() == (
        ReadRequest { address: base, len: DOS_HEADER_SIZE }),
        spec_dos_header(base, dos) matches Ok(pe_address) ==> pe_address@ == base@ + le32(
            dos,
            0x3c,
        ).unwrap(),
{
}


/// What a section read from a 40-byte header holds, field by field: its virtual
/// size is the u32 at offset 8; its mapped size is the larger of that and the raw
/// size, the u32 at offset 16; it starts the u32 at offset 12 past the image base;
/// and it is readable, writable or executable exactly when bit 0x4000_0000,
/// 0x8000_0000 or 0x2000_0000 of the characteristics, the u32 at offset 36, is set.
pub proof fn lemma_section_fields(section: PeSection, base: Address, header: Seq<u8>)
    requires
        section_from_header(section, base, header),
    ensures
        section.virtual_size == le32(header, 8).unwrap(),
        section.mapped_size >= le32(header, 8).unwrap(),
        section.mapped_size >= le32(header, 16).unwrap(),
        section.mapped_size == le32(header, 8).unwrap() || section.mapped_size == le32(
            header,
            16,
        ).unwrap(),
        section.address@ == base@ + le32(header, 12).unwrap(),
        section.readable == (le32(header, 36).unwrap() & 0x4000_0000u32 != 0),
        section.writable == (le32(header, 36).unwrap() & 0x8000_0000u32 != 0),
        section.executable == (le32(header, 36).unwrap() & 0x2000_0000u32 != 0),
{
}

/// Every section of an identity that a reader finishes is what the `k`-th 40-byte
/// header of the section table says: mapped size the larger of virtual and raw
/// size, and writable exactly when the header's IMAGE_SCN_MEM_WRITE bit is set, so
/// immutable exactly when it is readable and that bit is clear.
pub proof fn lemma_identity_section_fields(
    reader: PeReader,
    bytes: Seq<u8>,
    identity: PeIdentity,
    k: int,
)
    requires
        reader.advances_to(bytes, PeStep::Done(identity)),
        0 <= k < identity.sections@.len(),
    ensures
        identity.sections@[k].mapped_size >= le32(section_header(bytes, k), 8).unwrap(),
        identity.sections@[k].mapped_size >= le32(section_header(bytes, k), 16).unwrap(),
        identity.sections@[k].mapped_size == le32(section_header(bytes, k), 8).unwrap()
            || identity.sections@[k].mapped_size == le32(section_header(bytes, k), 16).unwrap(),
        identity.sections@[k].readable == (le32(section_header(bytes, k), 36).unwrap()
            & 0x4000_0000u32 != 0),
        identity.sections@[k].writable == (le32(section_header(bytes, k), 36).unwrap()
            & 0x8000_0000u32 != 0),
        identity.sections@[k].executable == (le32(section_header(bytes, k), 36).unwrap()
            & 0x2000_0000u32 != 0),
        identity.sections@.len() == bytes.len() / 40,
{
    lemma_section_fields(identity.sections@[k], reader.base, section_header(bytes, k));
}

} // verus!

use procmod_core::{
    parse_dos_header, u16_at, u32_at, Address, Architecture, Cause, Error, PeDefect, PeReader,
    PeStep,
};

fn put16(bytes: &mut [u8], at: usize, value: u16) {
    bytes[at..at + 2].copy_from_slice(&value.to_le_bytes());
}

fn put32(bytes: &mut [u8], at: usize, value: u32) {
    bytes[at..at + 4].copy_from_slice(&value.to_le_bytes());
}

fn dos_header(pe_offset: u32) -> Vec<u8> {
    let mut dos = vec![0u8; 64];
    dos[0] = b'M';
    dos[1] = b'Z';
    put32(&mut dos, 0x3c, pe_offset);
    dos
}

fn coff_header(section_count: u16, optional_size: u16) -> Vec<u8> {
    let mut coff = vec![0u8; 24];
    coff[..4].copy_from_slice(b"PE\0\0");
    put16(&mut coff, 4, 0x014c);
    put16(&mut coff, 6, section_count);
    put32(&mut coff, 8, 0x5f5e_1000);
    put16(&mut coff, 20, optional_size);
    coff
}

fn optional_header(size: usize) -> Vec<u8> {
    let mut optional = vec![0u8; size];
    put16(&mut optional, 0, 0x10b);
    put32(&mut optional, 28, 0x0040_0000);
    put32(&mut optional, 56, 0x3000);
    put32(&mut optional, 64, 0x1234);
    if size >= 144 {
        put32(&mut optional, 136, 0x2000);
        put32(&mut optional, 140, 0x40);
    }
    optional
}

fn section(name: &[u8], virtual_size: u32, address: u32, raw_size: u32, flags: u32) -> Vec<u8> {
    let mut header = vec![0u8; 40];
    header[..name.len()].copy_from_slice(name);
    put32(&mut header, 8, virtual_size);
    put32(&mut header, 12, address);
    put32(&mut header, 16, raw_size);
    put32(&mut header, 36, flags);
    header
}

fn expect_read(step: PeStep) -> PeReader {
    match step {
        PeStep::Read(reader) => reader,
        PeStep::Done(_) => panic!("finished too early"),
        PeStep::Failed(error) => panic!("failed: {:?}", error),
    }
}

#[test]
fn little_endian_fields_are_read_in_bounds() {
    let bytes = [0x34, 0x12, 0x78, 0x56];
    assert_eq!(u16_at(&bytes, 0), Some(0x1234));
    assert_eq!(u16_at(&bytes, 2), Some(0x5678));
    assert_eq!(u16_at(&bytes, 3), None);
    assert_eq!(u32_at(&bytes, 0), Some(0x5678_1234));
    assert_eq!(u32_at(&bytes, 1), None);
    assert_eq!(u32_at(&bytes, usize::MAX), None);
}

#[test]
fn reads_a_mapped_pe32_image() {
    let base = Address::new(0x1000_0000);
    let reader = PeReader::new(base, Architecture::X86);
    let request = reader.request();
    assert_eq!(request.address, base);
    assert_eq!(request.len, 64);

    let reader = expect_read(reader.advance(&dos_header(0x80)));
    let request = reader.request();
    assert_eq!(request.address.value(), 0x1000_0080);
    assert_eq!(request.len, 24);

    let reader = expect_read(reader.advance(&coff_header(2, 0xe0)));
    let request = reader.request();
    assert_eq!(request.address.value(), 0x1000_0098);
    assert_eq!(request.len, 0xe0);

    let reader = expect_read(reader.advance(&optional_header(0xe0)));
    let request = reader.request();
    assert_eq!(request.address.value(), 0x1000_0178);
    assert_eq!(request.len, 80);

    let mut table = section(b".text", 0x100, 0x1000, 0x200, 0x6000_0020);
    table.extend(section(b".data12345", 0x80, 0x2000, 0, 0xc000_0040));
    match reader.advance(&table) {
        PeStep::Done(identity) => {
            assert_eq!(identity.machine, 0x014c);
            assert_eq!(identity.timestamp, 0x5f5e_1000);
            assert_eq!(identity.mapped_image_base, base);
            assert_eq!(identity.preferred_image_base, 0x0040_0000);
            assert_eq!(identity.image_size, 0x3000);
            assert_eq!(identity.checksum, 0x1234);
            assert_eq!(identity.relocation_address.value(), 0x1000_2000);
            assert_eq!(identity.relocation_size, 0x40);
            assert_eq!(identity.sections.len(), 2);
            let text = &identity.sections[0];
            assert_eq!(text.name, ".text");
            assert_eq!(text.address.value(), 0x1000_1000);
            assert_eq!(text.virtual_size, 0x100);
            assert_eq!(text.mapped_size, 0x200);
            assert!(text.readable && !text.writable && text.executable);
            assert!(text.immutable());
            let data = &identity.sections[1];
            assert_eq!(data.name, ".data123");
            assert_eq!(data.mapped_size, 0x80);
            assert!(data.readable && data.writable && !data.executable);
            assert!(!data.immutable());
        }
        _ => panic!("expected the image identity"),
    }
}

#[test]
fn missing_signatures_are_invalid_data_at_the_header() {
    let base = Address::new(0x40_0000);
    let reader = PeReader::new(base, Architecture::X86_64);
    match reader.advance(&[b'Z', b'M']) {
        PeStep::Failed(Error::ReadFailed {
            address,
            source: Cause::InvalidData(PeDefect::MissingMzSignature),
        }) => assert_eq!(address, 0x40_0000),
        _ => panic!("expected a missing MZ signature"),
    }
    assert!(matches!(
        parse_dos_header(base, b"MZ"),
        Err(Error::ReadFailed { source: Cause::InvalidData(PeDefect::MissingPeOffset), .. })
    ));
    let reader = expect_read(PeReader::new(base, Architecture::X86_64).advance(&dos_header(0x40)));
    let mut coff = coff_header(1, 0xe0);
    coff[1] = b'X';
    match reader.advance(&coff) {
        PeStep::Failed(Error::ReadFailed {
            address,
            source: Cause::InvalidData(PeDefect::MissingPeSignature),
        }) => assert_eq!(address, 0x40_0040),
        _ => panic!("expected a missing PE signature"),
    }
}

#[test]
fn small_optional_headers_are_refused() {
    let base = Address::new(0x40_0000);
    let reader = expect_read(PeReader::new(base, Architecture::X86).advance(&dos_header(0x40)));
    assert!(matches!(
        reader.advance(&coff_header(1, 67)),
        PeStep::Failed(Error::ReadFailed {
            source: Cause::InvalidData(PeDefect::OptionalHeaderTooSmall),
            ..
        })
    ));
    let reader = expect_read(reader.advance(&coff_header(1, 100)));
    match reader.advance(&optional_header(100)) {
        PeStep::Failed(Error::ReadFailed {
            address,
            source: Cause::InvalidData(PeDefect::NoRelocationDirectory),
        }) => assert_eq!(address, 0x40_0058),
        _ => panic!("expected no relocation directory"),
    }
    let mut pe64 = optional_header(0xe0);
    pe64[1] = 0x02;
    let reader = expect_read(
        expect_read(PeReader::new(base, Architecture::X86).advance(&dos_header(0x40)))
            .advance(&coff_header(1, 0xe0)),
    );
    assert!(matches!(
        reader.advance(&pe64),
        PeStep::Failed(Error::ReadFailed { source: Cause::InvalidData(PeDefect::NotPe32), .. })
    ));
}

#[test]
fn sections_past_four_gigabytes_are_refused_for_x86() {
    let base = Address::new(0xffff_f000);
    let reader = expect_read(PeReader::new(base, Architecture::X86).advance(&dos_header(0x40)));
    let reader = expect_read(reader.advance(&coff_header(1, 0xe0)));
    let reader = expect_read(reader.advance(&optional_header(0xe0)));
    let table = section(b".text", 0x10, 0x0, 0x2000, 0x6000_0020);
    match reader.advance(&table) {
        PeStep::Failed(Error::AddressOutOfRange { address, architecture }) => {
            assert_eq!(address, 0x1_0000_0fff);
            assert_eq!(architecture, Architecture::X86);
        }
        _ => panic!("expected an out-of-range section"),
    }
}

#[test]
fn dos_header_offsets_that_overflow_are_refused() {
    let base = Address::new(u64::MAX - 0x10);
    assert!(matches!(parse_dos_header(base, &dos_header(0x20)), Err(Error::AddressOverflow)));
}

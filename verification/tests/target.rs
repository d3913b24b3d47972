use procmod_core::{Address, Architecture, Error, Pointer32, Pointer64, PointerWidth};

#[test]
fn pointer_widths_of_architectures() {
    assert_eq!(Architecture::X86.pointer_width(), Some(PointerWidth::Bits32));
    assert_eq!(Architecture::X86_64.pointer_width(), Some(PointerWidth::Bits64));
    assert_eq!(Architecture::Arm64.pointer_width(), Some(PointerWidth::Bits64));
    assert_eq!(Architecture::Unknown(7).pointer_width(), None);
}

#[test]
fn checked_add_adds_or_reports_overflow() {
    assert_eq!(Address::new(0x1000).checked_add(0x20).unwrap().value(), 0x1020);
    assert!(matches!(
        Address::new(u64::MAX).checked_add(1),
        Err(Error::AddressOverflow)
    ));
    assert_eq!(Address::new(u64::MAX - 1).checked_add(1).unwrap().value(), u64::MAX);
}

#[test]
fn validate_for_bounds_only_32_bit_targets() {
    let high = Address::new(0x1_0000_0000);
    match high.validate_for(Architecture::X86) {
        Err(Error::AddressOutOfRange { address, architecture }) => {
            assert_eq!(address, 0x1_0000_0000);
            assert_eq!(architecture, Architecture::X86);
        }
        _ => panic!("expected AddressOutOfRange"),
    }
    assert_eq!(high.validate_for(Architecture::X86_64).unwrap(), high);
    assert_eq!(high.validate_for(Architecture::Unknown(3)).unwrap(), high);
    assert!(Address::new(u32::MAX as u64).validate_for(Architecture::X86).is_ok());
}

#[test]
fn to_usize_for_resolves_valid_addresses() {
    assert_eq!(Address::new(0x1234).to_usize_for(Architecture::X86).unwrap(), 0x1234);
    assert!(matches!(
        Address::new(0x1_0000_0000).to_usize_for(Architecture::X86),
        Err(Error::AddressOutOfRange { address: 0x1_0000_0000, .. })
    ));
}

#[test]
fn pointers_convert_to_addresses() {
    assert_eq!(Pointer32::new(0xdead_beef).address(), Address::new(0xdead_beef));
    assert_eq!(Pointer64::new(0x7fff_0000_1000).address().value(), 0x7fff_0000_1000);
    assert_eq!(Address::from(0x5a17_c0de_u32), Address::new(0x5a17_c0de));
}

#[test]
fn addresses_are_ordered_by_value() {
    assert!(Address::new(1) < Address::new(2));
    assert!(Address::new(0x1_0000_0000) > Address::from(u32::MAX));
}

#[test]
fn wow64_machines_name_the_architecture() {
    assert_eq!(Architecture::from_wow64_machines(0x014c, 0x8664), Architecture::X86);
    assert_eq!(Architecture::from_wow64_machines(0, 0x8664), Architecture::X86_64);
    assert_eq!(Architecture::from_wow64_machines(0, 0xaa64), Architecture::Arm64);
    assert_eq!(Architecture::from_wow64_machines(0x1c4, 0x8664), Architecture::Unknown(0x1c4));
}

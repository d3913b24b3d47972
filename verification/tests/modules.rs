use procmod_core::{addressable_modules, is_addressable, Address, Architecture, Module};

fn module(base: u64, size: usize) -> Module {
    Module {
        name: format!("m{:x}", base),
        base: Address::new(base),
        size,
        path: format!("/m{:x}", base),
    }
}

#[test]
fn only_addressable_modules_are_kept_in_order() {
    let modules = vec![
        module(0x1000, 0x100),
        module(0xffff_f000, 0x2000),
        module(0x2000, 0),
        module(0xffff_f000, 0x1000),
        module(0x1_0000_0000, 0x10),
    ];
    let kept = addressable_modules(Architecture::X86, modules);
    assert_eq!(kept.len(), 2);
    assert_eq!(kept[0].base.value(), 0x1000);
    assert_eq!(kept[1].base.value(), 0xffff_f000);
    assert_eq!(kept[1].size, 0x1000);
    for kept_module in &kept {
        assert!(kept_module.base.value() <= u64::from(u32::MAX));
        assert!(kept_module.base.value() + kept_module.size as u64 - 1 <= u64::from(u32::MAX));
    }
}

#[test]
fn sixty_four_bit_targets_keep_all_nonempty_modules_that_fit() {
    assert!(is_addressable(&module(0x1_0000_0000, 0x10), Architecture::X86_64));
    assert!(!is_addressable(&module(u64::MAX, 2), Architecture::X86_64));
    assert!(is_addressable(&module(u64::MAX, 1), Architecture::Arm64));
    assert!(!is_addressable(&module(0x1000, 0), Architecture::Unknown(1)));
}

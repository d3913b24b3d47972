use procmod_core::{page_protection_to_flags, parse_protection, Protection};
use windows_sys::Win32::System::Memory::{
    PAGE_EXECUTE, PAGE_EXECUTE_READ, PAGE_EXECUTE_READWRITE, PAGE_EXECUTE_WRITECOPY, PAGE_GUARD,
    PAGE_NOACCESS, PAGE_READONLY, PAGE_READWRITE, PAGE_WRITECOPY,
};

fn flags(read: bool, write: bool, execute: bool) -> Protection {
    Protection { read, write, execute }
}

#[test]
fn permission_fields_grant_by_position() {
    assert_eq!(parse_protection(b"r-xp"), flags(true, false, true));
    assert_eq!(parse_protection(b"rw-p"), flags(true, true, false));
    assert_eq!(parse_protection(b"---p"), flags(false, false, false));
    assert_eq!(parse_protection(b"r"), flags(true, false, false));
    assert_eq!(parse_protection(b"wrx"), flags(false, false, true));
}

#[test]
fn page_protections_translate_exactly() {
    assert_eq!(page_protection_to_flags(0x02), flags(true, false, false));
    assert_eq!(page_protection_to_flags(0x04), flags(true, true, false));
    assert_eq!(page_protection_to_flags(0x08), flags(true, true, false));
    assert_eq!(page_protection_to_flags(0x10), flags(false, false, true));
    assert_eq!(page_protection_to_flags(0x20), flags(true, false, true));
    assert_eq!(page_protection_to_flags(0x40), flags(true, true, true));
    assert_eq!(page_protection_to_flags(0x80), flags(true, true, true));
    assert_eq!(page_protection_to_flags(0x01), flags(false, false, false));
    assert_eq!(page_protection_to_flags(0x104), flags(false, false, false));
}

#[test]
fn protection_labels_mix_flags() {
    assert_eq!(flags(false, true, true).to_string(), "-wx");
    assert_eq!(flags(true, false, true).to_string(), "r-x");
}

#[test]
fn page_protections_agree_with_the_windows_constants() {
    assert_eq!(page_protection_to_flags(PAGE_READONLY), flags(true, false, false));
    assert_eq!(page_protection_to_flags(PAGE_READWRITE), flags(true, true, false));
    assert_eq!(page_protection_to_flags(PAGE_WRITECOPY), flags(true, true, false));
    assert_eq!(page_protection_to_flags(PAGE_EXECUTE), flags(false, false, true));
    assert_eq!(page_protection_to_flags(PAGE_EXECUTE_READ), flags(true, false, true));
    assert_eq!(page_protection_to_flags(PAGE_EXECUTE_READWRITE), flags(true, true, true));
    assert_eq!(page_protection_to_flags(PAGE_EXECUTE_WRITECOPY), flags(true, true, true));
    assert_eq!(page_protection_to_flags(PAGE_NOACCESS), flags(false, false, false));
    assert_eq!(
        page_protection_to_flags(PAGE_READWRITE | PAGE_GUARD),
        flags(false, false, false)
    );
}

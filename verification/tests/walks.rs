use procmod_core::{
    committed_region, module_count, module_from_queries, queried_units, query_walk_step,
    region_walk_step, vm_protection_flags, Cause, Error, Protection, QueryWalk, RegionWalk,
    KERN_INVALID_ADDRESS, KERN_SUCCESS,
};
use windows_sys::Win32::System::Memory::{
    MEM_COMMIT, MEM_FREE, MEM_RESERVE, PAGE_EXECUTE_READ, PAGE_READWRITE,
};

fn flags(read: bool, write: bool, execute: bool) -> Protection {
    Protection { read, write, execute }
}

fn units(text: &str) -> Vec<u16> {
    text.encode_utf16().collect()
}

#[test]
fn vm_protection_bits_grant_one_access_each() {
    assert_eq!(vm_protection_flags(0), flags(false, false, false));
    assert_eq!(vm_protection_flags(1), flags(true, false, false));
    assert_eq!(vm_protection_flags(3), flags(true, true, false));
    assert_eq!(vm_protection_flags(5), flags(true, false, true));
    assert_eq!(vm_protection_flags(7), flags(true, true, true));
    assert_eq!(vm_protection_flags(0x18), flags(false, false, false));
    assert_eq!(vm_protection_flags(-1), flags(true, true, true));
}

#[test]
fn region_walk_stops_past_the_last_region() {
    assert!(matches!(
        region_walk_step(0x1000, KERN_INVALID_ADDRESS, 0, 0),
        RegionWalk::Stop
    ));
}

#[test]
fn region_walk_fails_on_other_errors() {
    match region_walk_step(0x1000, 5, 0x2000, 7) {
        RegionWalk::Failed(Error::RegionQueryFailed { source: Cause::Os(code) }) => {
            assert_eq!(code, 5)
        }
        other => panic!("unexpected step {:?}", other),
    }
}

#[test]
fn region_walk_finds_a_region_and_goes_on_at_its_end() {
    match region_walk_step(0x10_0000, KERN_SUCCESS, 0x4000, 5) {
        RegionWalk::Found { region, next } => {
            assert_eq!(region.base, 0x10_0000);
            assert_eq!(region.size, 0x4000);
            assert_eq!(region.protection, flags(true, false, true));
            assert_eq!(next, Some(0x10_4000));
        }
        other => panic!("unexpected step {:?}", other),
    }
}

#[test]
fn region_walk_has_no_next_address_past_the_end() {
    match region_walk_step(u64::MAX - 0xfff, KERN_SUCCESS, 0x2000, 1) {
        RegionWalk::Found { next, .. } => assert_eq!(next, None),
        other => panic!("unexpected step {:?}", other),
    }
}

#[test]
fn only_committed_ranges_are_regions() {
    let region = committed_region(MEM_COMMIT, 0x7000, 0x1000, PAGE_READWRITE).unwrap();
    assert_eq!(region.base, 0x7000);
    assert_eq!(region.size, 0x1000);
    assert_eq!(region.protection, flags(true, true, false));
    assert!(committed_region(MEM_FREE, 0x7000, 0x1000, PAGE_READWRITE).is_none());
    assert!(committed_region(MEM_RESERVE, 0x7000, 0x1000, PAGE_READWRITE).is_none());
}

#[test]
fn memory_query_walk_steps() {
    assert!(matches!(
        query_walk_step(0, MEM_COMMIT, 0, 0x1000, PAGE_READWRITE),
        QueryWalk::Stop
    ));
    match query_walk_step(48, MEM_COMMIT, 0x20_0000, 0x3000, PAGE_EXECUTE_READ) {
        QueryWalk::Visited { region, next } => {
            let region = region.unwrap();
            assert_eq!(region.base, 0x20_0000);
            assert_eq!(region.protection, flags(true, false, true));
            assert_eq!(next, Some(0x20_3000));
        }
        QueryWalk::Stop => panic!("the walk stopped"),
    }
    match query_walk_step(48, MEM_FREE, 0x30_0000, 0x1000, 0) {
        QueryWalk::Visited { region, next } => {
            assert!(region.is_none());
            assert_eq!(next, Some(0x30_1000));
        }
        QueryWalk::Stop => panic!("the walk stopped"),
    }
    match query_walk_step(48, MEM_FREE, usize::MAX, 1, 0) {
        QueryWalk::Visited { next, .. } => assert_eq!(next, None),
        QueryWalk::Stop => panic!("the walk stopped"),
    }
}

#[test]
fn module_count_is_bounded_by_the_buffer() {
    assert_eq!(module_count(0, 8, 1024), 0);
    assert_eq!(module_count(80, 8, 1024), 10);
    assert_eq!(module_count(84, 8, 1024), 10);
    assert_eq!(module_count(80, 4, 1024), 20);
    assert_eq!(module_count(16 * 1024, 8, 1024), 1024);
}

#[test]
fn queried_units_are_the_reported_prefix() {
    let buffer = [0x61u16, 0x62, 0x63, 0, 0];
    assert_eq!(queried_units(&buffer, 0), None);
    assert_eq!(queried_units(&buffer, 2), Some(&buffer[..2]));
    assert_eq!(queried_units(&buffer, 5), Some(&buffer[..]));
}

#[test]
fn module_from_all_queries() {
    let name = units("kernel32.dll");
    let path = units("C:\\Windows\\System32\\kernel32.dll");
    let module = module_from_queries(Some(&name), Some((0x7ff8_0000_0000, 0x9_2000)), Some(&path));
    assert_eq!(module.name, "kernel32.dll");
    assert_eq!(module.base.value(), 0x7ff8_0000_0000);
    assert_eq!(module.size, 0x9_2000);
    assert_eq!(module.path, "C:\\Windows\\System32\\kernel32.dll");
}

#[test]
fn failed_module_queries_leave_their_parts_empty() {
    let name = units("app.exe");
    let module = module_from_queries(Some(&name), None, None);
    assert_eq!(module.name, "app.exe");
    assert_eq!(module.base.value(), 0);
    assert_eq!(module.size, 0);
    assert_eq!(module.path, "app.exe");

    let module = module_from_queries(None, Some((0x40_0000, 0x1000)), None);
    assert_eq!(module.name, "");
    assert_eq!(module.path, "");
    assert_eq!(module.base.value(), 0x40_0000);
}

#[test]
fn unpaired_surrogates_in_module_names_are_replaced() {
    let name = [0x61u16, 0xD800, 0x62];
    let module = module_from_queries(Some(&name), None, None);
    assert_eq!(module.name, "a\u{fffd}b");
    let wide = units("\u{1F600}.dll");
    let module = module_from_queries(Some(&wide), None, None);
    assert_eq!(module.name, "\u{1F600}.dll");
}

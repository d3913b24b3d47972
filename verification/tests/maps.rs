use procmod_core::{
    file_name, maps_extents_ordered, maps_regions_ordered, parse_maps_modules, parse_maps_regions,
};

const MAPS: &str = "00400000-00452000 r-xp 00000000 08:02 173521      /usr/bin/dbus-daemon\n\
00651000-00652000 r--p 00051000 08:02 173521      /usr/bin/dbus-daemon\n\
00652000-00655000 rw-p 00052000 08:02 173521      /usr/bin/dbus-daemon\n\
00e03000-00e24000 rw-p 00000000 00:00 0           [heap]\n\
7f0000000000-7f0000001000 r-xp 00000000 08:02 1 /lib/libc.so.6\n\
7ffc1000-7ffc2000 ---p 00000000 00:00 0\n";

#[test]
fn regions_are_listed_in_line_order() {
    assert!(maps_regions_ordered(MAPS));
    let regions = parse_maps_regions(MAPS);
    assert_eq!(regions.len(), 6);
    assert_eq!(regions[0].base, 0x40_0000);
    assert_eq!(regions[0].size, 0x5_2000);
    assert_eq!(regions[0].protection.to_string(), "r-x");
    assert_eq!(regions[2].protection.to_string(), "rw-");
    assert_eq!(regions[3].base, 0xe0_3000);
    assert_eq!(regions[4].base, 0x7f00_0000_0000);
    assert_eq!(regions[4].size, 0x1000);
    assert_eq!(regions[5].protection.to_string(), "---");
}

#[test]
fn modules_group_mappings_by_path() {
    assert!(maps_extents_ordered(MAPS));
    let modules = parse_maps_modules(MAPS);
    assert_eq!(modules.len(), 2);
    assert_eq!(modules[0].path, "/usr/bin/dbus-daemon");
    assert_eq!(modules[0].name, "dbus-daemon");
    assert_eq!(modules[0].base.value(), 0x40_0000);
    assert_eq!(modules[0].size, 0x25_5000);
    assert_eq!(modules[1].path, "/lib/libc.so.6");
    assert_eq!(modules[1].name, "libc.so.6");
    assert_eq!(modules[1].base.value(), 0x7f00_0000_0000);
    assert_eq!(modules[1].size, 0x1000);
}

#[test]
fn modules_are_sorted_by_base() {
    let maps = "9000-a000 r-xp 0 0 0 /b\n1000-2000 r-xp 0 0 0 /a\n0800-0900 r--p 0 0 0 /b\n";
    let modules = parse_maps_modules(maps);
    assert_eq!(modules.len(), 2);
    assert_eq!(modules[0].path, "/b");
    assert_eq!(modules[0].base.value(), 0x800);
    assert_eq!(modules[0].size, 0x9800);
    assert_eq!(modules[1].path, "/a");
}

#[test]
fn malformed_lines_are_skipped_and_bad_numbers_read_as_zero() {
    let maps = "\n\nnot-hex r--p\nnorange rw-p\n+10-+20 r-xp\n   \r\n1000-2000\n";
    let regions = parse_maps_regions(maps);
    assert_eq!(regions.len(), 2);
    assert_eq!(regions[0].base, 0);
    assert_eq!(regions[0].size, 0);
    assert_eq!(regions[0].protection.read, true);
    assert_eq!(regions[1].base, 0x10);
    assert_eq!(regions[1].size, 0x10);
    assert!(maps_regions_ordered(maps));
    assert!(!maps_regions_ordered("+10-zz r-xp\n"));
}

#[test]
fn reversed_ranges_are_detected() {
    assert!(!maps_regions_ordered("2000-1000 r--p\n"));
    assert!(!maps_extents_ordered("2000-1000 r--p 0 0 0 /x\n"));
    assert!(maps_extents_ordered("2000-1000 r--p 0 0 0 /x\n0-3000 r--p 0 0 0 /x\n"));
    assert!(maps_regions_ordered(""));
}

#[test]
fn paths_with_non_ascii_text_are_kept_whole() {
    let maps = "1000-2000 r--p 0 0 0 /tmp/données/é.so\n";
    let modules = parse_maps_modules(maps);
    assert_eq!(modules[0].path, "/tmp/données/é.so");
    assert_eq!(modules[0].name, "é.so");
}

#[test]
fn file_names_follow_the_last_slash() {
    assert_eq!(file_name("/usr/lib/libz.so.1"), "libz.so.1");
    assert_eq!(file_name("plain"), "plain");
    assert_eq!(file_name("/dir/"), "");
    assert_eq!(file_name(""), "");
}

#[test]
fn hex_overflow_reads_as_zero() {
    let maps = "10000000000000000-1 r--p\n";
    let regions = parse_maps_regions(maps);
    assert_eq!(regions[0].base, 0);
    assert_eq!(regions[0].size, 1);
}

#[test]
fn unicode_whitespace_separates_fields() {
    let maps = "1000-2000\u{2003}r-xp 0 0 0\u{3000}/opt/a\u{a0}b.so\n";
    let regions = parse_maps_regions(maps);
    assert_eq!(regions.len(), 1);
    assert_eq!(regions[0].protection.to_string(), "r-x");
    let modules = parse_maps_modules(maps);
    assert_eq!(modules.len(), 1);
    assert_eq!(modules[0].path, "/opt/a");
    assert_eq!(modules[0].name, "a");
    let no_break = "1000-2000 r-xp 0 0 0 /opt/a\u{2060}b\n";
    assert_eq!(parse_maps_modules(no_break)[0].path, "/opt/a\u{2060}b");
}

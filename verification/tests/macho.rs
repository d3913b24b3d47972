use procmod_core::{c_string, image_entries, load_commands, segments_span};

fn segment(vmaddr: u64, vmsize: u64) -> Vec<u8> {
    let mut command = vec![0u8; 72];
    command[0..4].copy_from_slice(&0x19u32.to_le_bytes());
    command[4..8].copy_from_slice(&72u32.to_le_bytes());
    command[24..32].copy_from_slice(&vmaddr.to_le_bytes());
    command[32..40].copy_from_slice(&vmsize.to_le_bytes());
    command
}

fn other_command(size: u32) -> Vec<u8> {
    let mut command = vec![0u8; size as usize];
    command[0..4].copy_from_slice(&0x2u32.to_le_bytes());
    command[4..8].copy_from_slice(&size.to_le_bytes());
    command
}

#[test]
fn headers_announce_load_commands() {
    let mut header = vec![0u8; 32];
    header[0..4].copy_from_slice(&0xFEEDFACFu32.to_le_bytes());
    header[16..20].copy_from_slice(&3u32.to_le_bytes());
    header[20..24].copy_from_slice(&200u32.to_le_bytes());
    assert_eq!(load_commands(&header), Some((3, 200)));
    header[0] = 0xCE;
    assert_eq!(load_commands(&header), None);
}

#[test]
fn image_size_spans_its_segments() {
    let mut commands = segment(0x1_0000_0000, 0x4000);
    commands.extend(other_command(16));
    commands.extend(segment(0x1_0000_4000, 0x2000));
    commands.extend(segment(0x5000, 0));
    assert_eq!(segments_span(4, &commands), Some(0x6000));
    assert_eq!(segments_span(1, &commands), Some(0x4000));
    assert_eq!(segments_span(0, &commands), Some(0));
    assert_eq!(segments_span(9, &commands), Some(0x6000));
}

#[test]
fn a_zero_sized_command_ends_the_walk() {
    let mut commands = segment(0x1000, 0x1000);
    commands.extend(other_command(16));
    commands[72 + 4..72 + 8].copy_from_slice(&0u32.to_le_bytes());
    commands.extend(segment(0x9000, 0x1000));
    assert_eq!(segments_span(3, &commands), Some(0x1000));
}

#[test]
fn overflowing_segments_are_reported() {
    let commands = segment(u64::MAX - 1, 2);
    assert_eq!(segments_span(1, &commands), None);
}

#[test]
fn image_entries_are_read_in_order() {
    let mut array = Vec::new();
    for (load, path) in [(0x1000u64, 0x2000u64), (0x3000, 0x4000)] {
        array.extend(load.to_le_bytes());
        array.extend(path.to_le_bytes());
        array.extend(0u64.to_le_bytes());
    }
    assert_eq!(image_entries(&array, 2), vec![(0x1000, 0x2000), (0x3000, 0x4000)]);
    assert_eq!(image_entries(&array, 1), vec![(0x1000, 0x2000)]);
}

#[test]
fn c_strings_stop_at_the_first_nul() {
    assert_eq!(c_string(b"/usr/lib/dyld\0garbage"), "/usr/lib/dyld");
    assert_eq!(c_string(b"no terminator"), "no terminator");
    assert_eq!(c_string(b"bad \xff byte\0"), "bad \u{fffd} byte");
}

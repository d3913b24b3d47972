use vstd::prelude::*;
use vstd::slice::slice_subrange;

use crate::pe::{decode_lossy, le32, u32_at, utf8_lossy};

verus! {

// Loaded Mach-O images are read from the memory of a 64-bit macOS process,
// whose byte order is little-endian.

pub const MH_MAGIC_64: u32 = 0xFEEDFACF;
pub const LC_SEGMENT_64: u32 = 0x19;

/// The little-endian `u64` at `offset`, when eight bytes are there.
pub open spec fn le64(bytes: Seq<u8>, offset: int) -> Option<u64> {
    if 0 <= offset && offset + 8 <= bytes.len() {
        Some(
            (bytes[offset] + bytes[offset + 1] * 0x100 + bytes[offset + 2] * 0x1_0000 + bytes[offset
                + 3] * 0x100_0000 + bytes[offset + 4] * 0x1_0000_0000 + bytes[offset + 5]
                * 0x100_0000_0000 + bytes[offset + 6] * 0x1_0000_0000_0000 + bytes[offset + 7]
                * 0x100_0000_0000_0000) as u64,
        )
    } else {
        None
    }
}

pub fn u64_at(bytes: &[u8], offset: usize) -> (value: Option<u64>)
    ensures
        value == le64(bytes@, offset as int),
{
    if offset > bytes.len() || bytes.len() - offset < 8 {
        return None;
    }
    Some(
        bytes[offset] as u64 + bytes[offset + 1] as u64 * 0x100 + bytes[offset + 2] as u64
            * 0x1_0000 + bytes[offset + 3] as u64 * 0x100_0000 + bytes[offset + 4] as u64
            * 0x1_0000_0000 + bytes[offset + 5] as u64 * 0x100_0000_0000 + bytes[offset + 6] as u64
            * 0x1_0000_0000_0000 + bytes[offset + 7] as u64 * 0x100_0000_0000_0000,
    )
}

/// The number and total size of the load commands that a 64-bit Mach-O header
/// announces, or `None` when the header does not start with the 64-bit magic.
pub open spec fn spec_load_commands(header: Seq<u8>) -> Option<(u32, u32)> {
    if le32(header, 0) != Some(MH_MAGIC_64) {
        None
    } else {
        Some((le32(header, 16).unwrap(), le32(header, 20).unwrap()))
    }
}

/// Reads a 32-byte `mach_header_64`: the number and total size of its load
/// commands, or `None` when it is not a 64-bit Mach-O header.
pub fn load_commands(header: &[u8]) -> (commands: Option<(u32, u32)>)
    requires
        header@.len() == 32,
    ensures
        commands == spec_load_commands(header@),
{
    match u32_at(header, 0) {
        Some(magic) => {
            if magic != MH_MAGIC_64 {
                return None;
            }
        },
        None => return None,
    }
    let count = match u32_at(header, 16) {
        Some(value) => value,
        None => 0,
    };
    let size = match u32_at(header, 20) {
        Some(value) => value,
        None => 0,
    };
    Some((count, size))
}

/// The lowest start and highest end of the nonempty segments among the next
/// `remaining` load commands from `offset` on, starting from `low` and `high`;
/// the walk stops at a command that does not fit or that has size 0, and fails
/// where a segment's end overflows 64 bits.
pub open spec fn segments_walk(
    commands: Seq<u8>,
    offset: int,
    remaining: int,
    low: u64,
    high: u64,
) -> Option<(u64, u64)>
    decreases remaining,
{
    if remaining <= 0 || offset < 0 || offset + 8 > commands.len() {
        Some((low, high))
    } else {
        let command = le32(commands, offset).unwrap();
        let size = le32(commands, offset + 4).unwrap();
        if size == 0 {
            Some((low, high))
        } else if command == LC_SEGMENT_64 && offset + 48 <= commands.len() && le64(
            commands,
            offset + 32,
        ).unwrap() > 0 {
            let vmaddr = le64(commands, offset + 24).unwrap();
            let vmsize = le64(commands, offset + 32).unwrap();
            if vmaddr + vmsize > u64::MAX {
                None
            } else {
                segments_walk(
                    commands,
                    offset + size,
                    remaining - 1,
                    if low <= vmaddr {
                        low
                    } else {
                        vmaddr
                    },
                    if high >= vmaddr + vmsize {
                        high
                    } else {
                        (vmaddr + vmsize) as u64
                    },
                )
            }
        } else {
            segments_walk(commands, offset + size, remaining - 1, low, high)
        }
    }
}

/// The span of the segments that the first `count` load commands map: from the
/// lowest segment start to the highest segment end, or 0 when there is none;
/// `None` when a segment's end overflows 64 bits.
pub open spec fn spec_segments_span(count: u32, commands: Seq<u8>) -> Option<u64> {
    match segments_walk(commands, 0, count as int, u64::MAX, 0) {
        None => None,
        Some(bounds) => Some(
            if bounds.1 > bounds.0 {
                (bounds.1 - bounds.0) as u64
            } else {
                0
            },
        ),
    }
}

/// One step of the walk over load commands.
enum WalkStep {
    Stop,
    Overflow,
    Next(u128, u64, u64),
}

/// Reads the load command at `offset` and decides where the walk goes next.
fn walk_step(commands: &[u8], offset: u128, low: u64, high: u64) -> (step: WalkStep)
    requires
        offset + 8 <= commands.len(),
    ensures
        forall|remaining: int|
            remaining > 0 ==> #[trigger] segments_walk(
                commands@,
                offset as int,
                remaining,
                low,
                high,
            ) == match step {
                WalkStep::Stop => Some((low, high)),
                WalkStep::Overflow => None,
                WalkStep::Next(next, next_low, next_high) => segments_walk(
                    commands@,
                    next as int,
                    remaining - 1,
                    next_low,
                    next_high,
                ),
            },
        step matches WalkStep::Next(next, _, _) ==> next <= commands@.len() + 0x1_0000_0000,
{
    let at = offset as usize;
    assert(at == offset);
    let command = match u32_at(commands, at) {
        Some(value) => value,
        None => 0,
    };
    let size = match u32_at(commands, at + 4) {
        Some(value) => value,
        None => 0,
    };
    if size == 0 {
        return WalkStep::Stop;
    }
    let next = offset + size as u128;
    if command == LC_SEGMENT_64 && at <= commands.len() && commands.len() - at >= 48 {
        let vmaddr = match u64_at(commands, at + 24) {
            Some(value) => value,
            None => 0,
        };
        let vmsize = match u64_at(commands, at + 32) {
            Some(value) => value,
            None => 0,
        };
        if vmsize > 0 {
            if vmaddr > u64::MAX - vmsize {
                return WalkStep::Overflow;
            }
            let end = vmaddr + vmsize;
            return WalkStep::Next(
                next,
                if low <= vmaddr {
                    low
                } else {
                    vmaddr
                },
                if high >= end {
                    high
                } else {
                    end
                },
            );
        }
    }
    WalkStep::Next(next, low, high)
}

/// The size in memory of a loaded image, from its first `count` load commands;
/// `None` where a segment's end overflows 64 bits.
pub fn segments_span(count: u32, commands: &[u8]) -> (span: Option<u64>)
    ensures
        span == spec_segments_span(count, commands@),
{
    let mut low: u64 = u64::MAX;
    let mut high: u64 = 0;
    let mut offset: u128 = 0;
    let mut remaining: u32 = count;
    let len = commands.len() as u128;
    while remaining > 0
        invariant
            len == commands.len(),
            offset <= len + 0x1_0000_0000,
            segments_walk(commands@, 0, count as int, u64::MAX, 0) == segments_walk(
                commands@,
                offset as int,
                remaining as int,
                low,
                high,
            ),
        decreases remaining,
    {
        if offset + 8 > len {
            return Some(
                if high > low {
                    high - low
                } else {
                    0
                },
            );
        }
        match walk_step(commands, offset, low, high) {
            WalkStep::Stop => {
                return Some(
                    if high > low {
                        high - low
                    } else {
                        0
                    },
                );
            },
            WalkStep::Overflow => {
                return None;
            },
            WalkStep::Next(next, next_low, next_high) => {
                offset = next;
                low = next_low;
                high = next_high;
            },
        }
        remaining = remaining - 1;
    }
    if high > low {
        Some(high - low)
    } else {
        Some(0)
    }
}

/// The entries of the image array that `dyld_all_image_infos` points to: the load
/// address and path address of each of the first `count` 24-byte entries.
pub open spec fn spec_image_entries(array: Seq<u8>, count: int) -> Seq<(u64, u64)> {
    Seq::new(
        count as nat,
        |i: int| (le64(array, i * 24).unwrap(), le64(array, i * 24 + 8).unwrap()),
    )
}

/// Reads the first `count` entries of a `dyld_image_info` array.
pub fn image_entries(array: &[u8], count: usize) -> (entries: Vec<(u64, u64)>)
    requires
        count * 24 <= array@.len(),
    ensures
        entries@ == spec_image_entries(array@, count as int),
{
    let mut entries: Vec<(u64, u64)> = Vec::with_capacity(count);
    let mut i: usize = 0;
    while i < count
        invariant
            i <= count,
            count * 24 <= array.len(),
            entries@ =~= spec_image_entries(array@, i as int),
        decreases count - i,
    {
        assert(i * 24 + 24 <= array.len()) by (nonlinear_arith)
            requires
                i < count,
                count * 24 <= array.len(),
        ;
        let load_address = match u64_at(array, i * 24) {
            Some(value) => value,
            None => 0,
        };
        let path_address = match u64_at(array, i * 24 + 8) {
            Some(value) => value,
            None => 0,
        };
        entries.push((load_address, path_address));
        i = i + 1;
    }
    entries
}

/// The index of the first NUL byte from `i` on, or the length of the bytes.
pub open spec fn nul_from(bytes: Seq<u8>, i: int) -> int
    decreases bytes.len() - i,
{
    if i < 0 || i >= bytes.len() {
        bytes.len() as int
    } else if bytes[i] == 0 {
        i
    } else {
        nul_from(bytes, i + 1)
    }
}

/// The text of a NUL-terminated string read into `buffer`: the bytes before the
/// first NUL, or all of them, decoded with invalid UTF-8 replaced.
pub fn c_string(buffer: &[u8]) -> (text: String)
    ensures
        text@ == utf8_lossy(buffer@.subrange(0, nul_from(buffer@, 0))),
{
    let mut end: usize = 0;
    while end < buffer.len() && buffer[end] != 0
        invariant
            end <= buffer@.len(),
            nul_from(buffer@, 0) == nul_from(buffer@, end as int),
        decreases buffer@.len() - end,
    {
        end = end + 1;
    }
    decode_lossy(slice_subrange(buffer, 0, end))
}


/// The start and size of the nonempty 64-bit segment whose load command is at
/// `at`, if one is there.
pub open spec fn segment_at(commands: Seq<u8>, at: int) -> Option<(u64, u64)> {
    if 0 <= at && at + 48 <= commands.len() && le32(commands, at) == Some(LC_SEGMENT_64)
        && le64(commands, at + 32).unwrap() > 0 {
        Some((le64(commands, at + 24).unwrap(), le64(commands, at + 32).unwrap()))
    } else {
        None
    }
}

/// Whether a walk over the next `remaining` load commands from `offset` on reads
/// the command at `target`: each command is read where the one before it ends, and
/// the walk ends at a command of size 0 or one whose header does not fit.
pub open spec fn command_reached(commands: Seq<u8>, offset: int, remaining: int, target: int) -> bool
    decreases remaining,
{
    if remaining <= 0 || offset < 0 || offset + 8 > commands.len() {
        false
    } else if le32(commands, offset + 4).unwrap() == 0 {
        false
    } else if offset == target {
        true
    } else {
        command_reached(
            commands,
            offset + le32(commands, offset + 4).unwrap(),
            remaining - 1,
            target,
        )
    }
}

/// A segment of a reached command, with its start and end.
pub open spec fn reached_segment(commands: Seq<u8>, count: u32, at: int) -> bool {
    command_reached(commands, 0, count as int, at) && segment_at(commands, at) is Some
}

/// The bounds `l` and `h` that a walk from `offset` over `remaining` commands,
/// begun with `low` and `high`, gives lie around every segment it reads, and each
/// is either where it began or a bound of one of those segments.
#[verifier::opaque]
spec fn walk_covers(
    commands: Seq<u8>,
    offset: int,
    remaining: int,
    low: u64,
    high: u64,
    l: u64,
    h: u64,
) -> bool {
    &&& l <= low
    &&& h >= high
    &&& forall|t: int|
        #![trigger command_reached(commands, offset, remaining, t)]
        command_reached(commands, offset, remaining, t) && segment_at(commands, t) is Some ==> l
            <= segment_at(commands, t).unwrap().0 && segment_at(commands, t).unwrap().0
            + segment_at(commands, t).unwrap().1 <= h
    &&& l == low || exists|t: int|
        #![trigger command_reached(commands, offset, remaining, t)]
        command_reached(commands, offset, remaining, t) && segment_at(commands, t) is Some
            && segment_at(commands, t).unwrap().0 == l
    &&& h == high || exists|t: int|
        #![trigger command_reached(commands, offset, remaining, t)]
        command_reached(commands, offset, remaining, t) && segment_at(commands, t) is Some
            && segment_at(commands, t).unwrap().0 + segment_at(commands, t).unwrap().1 == h
}

/// The bounds that a walk gives lie around every segment it reads, and each is
/// either where it began or a bound of one of those segments.
proof fn lemma_walk_bounds(commands: Seq<u8>, offset: int, remaining: int, low: u64, high: u64)
    ensures
        segments_walk(commands, offset, remaining, low, high) matches Some((l, h)) ==> walk_covers(
            commands,
            offset,
            remaining,
            low,
            high,
            l,
            h,
        ),
    decreases remaining,
{
    reveal(walk_covers);
    if remaining <= 0 || offset < 0 || offset + 8 > commands.len() {
    } else {
        let size = le32(commands, offset + 4).unwrap();
        if size == 0 {
        } else {
            let next = offset + size;
            let seg = segment_at(commands, offset);
            let (nlow, nhigh) = match seg {
                Some((vmaddr, vmsize)) => if vmaddr + vmsize > u64::MAX {
                    (low, high)
                } else {
                    (
                        if low <= vmaddr {
                            low
                        } else {
                            vmaddr
                        },
                        if high >= vmaddr + vmsize {
                            high
                        } else {
                            (vmaddr + vmsize) as u64
                        },
                    )
                },
                None => (low, high),
            };
            lemma_walk_bounds(commands, next, remaining - 1, nlow, nhigh);
            assert forall|t: int| #[trigger]
                command_reached(commands, offset, remaining, t) implies t == offset
                || command_reached(commands, next, remaining - 1, t) by {}
            assert(command_reached(commands, offset, remaining, offset));
            assert forall|t: int| #[trigger]
                command_reached(commands, next, remaining - 1, t) implies command_reached(
                commands,
                offset,
                remaining,
                t,
            ) by {
                if t == offset {
                }
            }
            if let Some((l, h)) = segments_walk(commands, offset, remaining, low, high) {
                if l != low && l != nlow {
                    let t = choose|t: int|
                        #![trigger command_reached(commands, next, remaining - 1, t)]
                        command_reached(commands, next, remaining - 1, t) && segment_at(
                            commands,
                            t,
                        ) is Some && segment_at(commands, t).unwrap().0 == l;
                    assert(command_reached(commands, offset, remaining, t));
                }
                if l != low && l == nlow {
                    assert(command_reached(commands, offset, remaining, offset));
                }
                if h != high && h != nhigh {
                    let t = choose|t: int|
                        #![trigger command_reached(commands, next, remaining - 1, t)]
                        command_reached(commands, next, remaining - 1, t) && segment_at(
                            commands,
                            t,
                        ) is Some && segment_at(commands, t).unwrap().0 + segment_at(
                            commands,
                            t,
                        ).unwrap().1 == h;
                    assert(command_reached(commands, offset, remaining, t));
                }
            }
        }
    }
}

/// The start of the segment at `at`.
pub open spec fn segment_start(commands: Seq<u8>, at: int) -> int {
    segment_at(commands, at).unwrap().0 as int
}

/// The end of the segment at `at`: its start plus its size.
pub open spec fn segment_end(commands: Seq<u8>, at: int) -> int {
    segment_at(commands, at).unwrap().0 + segment_at(commands, at).unwrap().1
}

/// The size in memory of an image is the distance from the lowest start to the
/// highest end of the nonempty segments that its first `count` load commands
/// map: every such segment lies within the span, one of them starts where the
/// span starts and one ends where it ends; with no such segment the size is 0.
pub proof fn lemma_span_of_segments(count: u32, commands: Seq<u8>)
    ensures
        spec_segments_span(count, commands) matches Some(span) ==> {
            ||| (span == 0 && forall|t: int| !#[trigger] reached_segment(commands, count, t))
            ||| exists|first: int, last: int|
                {
                    &&& #[trigger] reached_segment(commands, count, first)
                    &&& #[trigger] reached_segment(commands, count, last)
                    &&& segment_end(commands, last) == segment_start(commands, first) + span
                    &&& forall|t: int|
                        #[trigger] reached_segment(commands, count, t) ==> segment_start(
                            commands,
                            first,
                        ) <= segment_start(commands, t) && segment_end(commands, t)
                            <= segment_start(commands, first) + span
                }
        },
{
    lemma_walk_bounds(commands, 0, count as int, u64::MAX, 0);
    let walk = segments_walk(commands, 0, count as int, u64::MAX, 0);
    if let Some((l, h)) = walk {
        let span: u64 = if h > l {
            (h - l) as u64
        } else {
            0
        };
        assert(spec_segments_span(count, commands) == Some(span));
        assert(walk_covers(commands, 0, count as int, u64::MAX, 0, l, h));
        if exists|t: int| #[trigger] reached_segment(commands, count, t) {
            let t0 = choose|t: int| #[trigger] reached_segment(commands, count, t);
            let (first, last) = {
                reveal(walk_covers);
                assert(command_reached(commands, 0, count as int, t0));
                let first = choose|t: int|
                    #![trigger command_reached(commands, 0, count as int, t)]
                    command_reached(commands, 0, count as int, t) && segment_at(commands, t) is Some
                        && segment_at(commands, t).unwrap().0 == l;
                let last = choose|t: int|
                    #![trigger command_reached(commands, 0, count as int, t)]
                    command_reached(commands, 0, count as int, t) && segment_at(commands, t) is Some
                        && segment_at(commands, t).unwrap().0 + segment_at(commands, t).unwrap().1
                        == h;
                assert(segment_start(commands, first) == l);
                assert(segment_end(commands, last) == h);
                assert forall|t: int| #[trigger] reached_segment(commands, count, t) implies l
                    <= segment_start(commands, t) && segment_end(commands, t) <= h by {
                    assert(command_reached(commands, 0, count as int, t));
                }
                (first, last)
            };
            assert(reached_segment(commands, count, first));
            assert(reached_segment(commands, count, last));
            assert(h > l);
            assert({
                &&& reached_segment(commands, count, first)
                &&& reached_segment(commands, count, last)
                &&& segment_end(commands, last) == segment_start(commands, first) + span
                &&& forall|t: int|
                    #[trigger] reached_segment(commands, count, t) ==> segment_start(
                        commands,
                        first,
                    ) <= segment_start(commands, t) && segment_end(commands, t)
                        <= segment_start(commands, first) + span
            });
        } else {
            reveal(walk_covers);
            if h != 0 {
                let t = choose|t: int|
                    #![trigger command_reached(commands, 0, count as int, t)]
                    command_reached(commands, 0, count as int, t) && segment_at(commands, t) is Some
                        && segment_at(commands, t).unwrap().0 + segment_at(commands, t).unwrap().1
                        == h;
                assert(reached_segment(commands, count, t));
            }
            assert(span == 0);
        }
    }
}


/// Where the first NUL from `i` on is: no NUL before it, and a NUL there unless it
/// is the end of the bytes.
proof fn lemma_nul_from(bytes: Seq<u8>, i: int)
    requires
        0 <= i <= bytes.len(),
    ensures
        i <= nul_from(bytes, i) <= bytes.len(),
        nul_from(bytes, i) < bytes.len() ==> bytes[nul_from(bytes, i)] == 0,
        forall|j: int| i <= j < nul_from(bytes, i) ==> bytes[j] != 0,
    decreases bytes.len() - i,
{
    if i < bytes.len() && bytes[i] != 0 {
        lemma_nul_from(bytes, i + 1);
    }
}

/// The text of a NUL-terminated string is decoded from exactly the bytes before
/// its first NUL: none of them is NUL, and a NUL follows them unless the buffer ends.
pub proof fn lemma_c_string_stops_at_first_nul(buffer: Seq<u8>)
    ensures
        0 <= nul_from(buffer, 0) <= buffer.len(),
        forall|j: int| 0 <= j < nul_from(buffer, 0) ==> #[trigger] buffer[j] != 0,
        nul_from(buffer, 0) < buffer.len() ==> buffer[nul_from(buffer, 0)] == 0,
{
    lemma_nul_from(buffer, 0);
}

/// The entries of the image array are read in 24-byte steps: entry `k` holds the
/// little-endian u64 at `24 * k` as its load address and the one at `24 * k + 8`
/// as its path address.
pub proof fn lemma_image_entry_layout(array: Seq<u8>, count: int, k: int)
    requires
        0 <= k < count,
        count * 24 <= array.len(),
    ensures
        spec_image_entries(array, count).len() == count,
        spec_image_entries(array, count)[k].0 == le64(array, 24 * k).unwrap(),
        spec_image_entries(array, count)[k].1 == le64(array, 24 * k + 8).unwrap(),
        le64(array, 24 * k) is Some && le64(array, 24 * k + 8) is Some,
{
    assert(24 * k + 24 <= array.len()) by (nonlinear_arith)
        requires
            0 <= k < count,
            count * 24 <= array.len(),
    ;
    assert(k * 24 == 24 * k);
}

} // verus!

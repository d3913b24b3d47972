use vstd::prelude::*;
use vstd::string::*;

use crate::error::{Cause, Error};

verus! {

/// Memory protection flags for a region.
#[derive(Clone, Copy, Debug, PartialEq, Eq, Structural)]
pub struct Protection {
    pub read: bool,
    pub write: bool,
    pub execute: bool,
}

/// A contiguous region of virtual memory in a process.
#[derive(Clone, Copy, Debug)]
pub struct MemoryRegion {
    /// Base address of the region.
    pub base: usize,
    /// Size of the region in bytes.
    pub size: usize,
    /// Memory protection flags.
    pub protection: Protection,
}

impl Protection {
    /// The three-letter form `rwx`, with `-` for each flag that is not set.
    pub open spec fn label(self) -> Seq<char> {
        seq![
            if self.read { 'r' } else { '-' },
            if self.write { 'w' } else { '-' },
            if self.execute { 'x' } else { '-' },
        ]
    }

    /// The three-letter form `rwx`, with `-` for each flag that is not set.
    pub fn to_string(&self) -> (text: String)
        ensures
            text@ == self.label(),
    {
        proof {
            reveal_strlit("r");
            reveal_strlit("w");
            reveal_strlit("x");
            reveal_strlit("-");
        }
        let mut text = String::new();
        text.append(if self.read { "r" } else { "-" });
        text.append(if self.write { "w" } else { "-" });
        text.append(if self.execute { "x" } else { "-" });
        assert(text@ =~= self.label());
        text
    }
}

/// The protection that a permission field such as `r-xp` names: each of its first
/// three characters grants one access.
pub open spec fn protection_of(perms: Seq<u8>) -> Protection {
    Protection {
        read: perms.len() >= 1 && perms[0] == 0x72,
        write: perms.len() >= 2 && perms[1] == 0x77,
        execute: perms.len() >= 3 && perms[2] == 0x78,
    }
}

/// Reads a permission field such as `r-xp`.
pub fn parse_protection(perms: &[u8]) -> (protection: Protection)
    ensures
        protection == protection_of(perms@),
{
    Protection {
        read: perms.len() >= 1 && perms[0] == 0x72,
        write: perms.len() >= 2 && perms[1] == 0x77,
        execute: perms.len() >= 3 && perms[2] == 0x78,
    }
}

pub const PAGE_READONLY: u32 = 0x02;
pub const PAGE_READWRITE: u32 = 0x04;
pub const PAGE_WRITECOPY: u32 = 0x08;
pub const PAGE_EXECUTE: u32 = 0x10;
pub const PAGE_EXECUTE_READ: u32 = 0x20;
pub const PAGE_EXECUTE_READWRITE: u32 = 0x40;
pub const PAGE_EXECUTE_WRITECOPY: u32 = 0x80;

/// The flags of a Windows page-protection value; a value with modifier bits or
/// any other value grants nothing.
pub open spec fn spec_page_protection(protect: u32) -> Protection {
    if protect == PAGE_READONLY {
        Protection { read: true, write: false, execute: false }
    } else if protect == PAGE_READWRITE || protect == PAGE_WRITECOPY {
        Protection { read: true, write: true, execute: false }
    } else if protect == PAGE_EXECUTE {
        Protection { read: false, write: false, execute: true }
    } else if protect == PAGE_EXECUTE_READ {
        Protection { read: true, write: false, execute: true }
    } else if protect == PAGE_EXECUTE_READWRITE || protect == PAGE_EXECUTE_WRITECOPY {
        Protection { read: true, write: true, execute: true }
    } else {
        Protection { read: false, write: false, execute: false }
    }
}

/// Translates a Windows page-protection value into protection flags.
pub fn page_protection_to_flags(protect: u32) -> (protection: Protection)
    ensures
        protection == spec_page_protection(protect),
{
    if protect == PAGE_READONLY {
        Protection { read: true, write: false, execute: false }
    } else if protect == PAGE_READWRITE || protect == PAGE_WRITECOPY {
        Protection { read: true, write: true, execute: false }
    } else if protect == PAGE_EXECUTE {
        Protection { read: false, write: false, execute: true }
    } else if protect == PAGE_EXECUTE_READ {
        Protection { read: true, write: false, execute: true }
    } else if protect == PAGE_EXECUTE_READWRITE || protect == PAGE_EXECUTE_WRITECOPY {
        Protection { read: true, write: true, execute: true }
    } else {
        Protection { read: false, write: false, execute: false }
    }
}


/// The Mach status of a region query that found a region.
pub const KERN_SUCCESS: i32 = 0;
/// The Mach status of a region query that asked past the last region.
pub const KERN_INVALID_ADDRESS: i32 = 1;
pub const VM_PROT_READ: i32 = 1;
pub const VM_PROT_WRITE: i32 = 2;
pub const VM_PROT_EXECUTE: i32 = 4;

/// The flags of a Mach `vm_prot_t`: one bit for each access.
pub open spec fn spec_vm_protection(protection: i32) -> Protection {
    Protection {
        read: protection & VM_PROT_READ != 0,
        write: protection & VM_PROT_WRITE != 0,
        execute: protection & VM_PROT_EXECUTE != 0,
    }
}

/// Translates a Mach `vm_prot_t` into protection flags.
pub fn vm_protection_flags(protection: i32) -> (flags: Protection)
    ensures
        flags == spec_vm_protection(protection),
{
    Protection {
        read: protection & VM_PROT_READ != 0,
        write: protection & VM_PROT_WRITE != 0,
        execute: protection & VM_PROT_EXECUTE != 0,
    }
}

/// What a walk over the regions of a Mach task does after one region query.
#[derive(Clone, Debug)]
pub enum RegionWalk {
    /// The query asked past the last region: the walk is over.
    Stop,
    /// The query failed: the walk ends with this error.
    Failed(Error),
    /// The query found `region`; the next query starts at `next`, or there is no
    /// next address because the region reaches the end of the address space.
    Found { region: MemoryRegion, next: Option<u64> },
}

/// The step of a Mach region walk for a query at `address` that answered `status`,
/// `size` and `protection`.
pub open spec fn spec_region_walk_step(address: u64, status: i32, size: u64, protection: i32) -> RegionWalk {
    if status == KERN_INVALID_ADDRESS {
        RegionWalk::Stop
    } else if status != KERN_SUCCESS {
        RegionWalk::Failed(Error::RegionQueryFailed { source: Cause::Os(status) })
    } else {
        RegionWalk::Found {
            region: MemoryRegion {
                base: address as usize,
                size: size as usize,
                protection: spec_vm_protection(protection),
            },
            next: if address + size <= u64::MAX {
                Some((address + size) as u64)
            } else {
                None
            },
        }
    }
}

/// Decides what a Mach region walk does with the answer to a query: `address` is
/// where the found region starts, `status` the query's status, and `size` and
/// `protection` what it reported of the region.
pub fn region_walk_step(address: u64, status: i32, size: u64, protection: i32) -> (step: RegionWalk)
    ensures
        step == spec_region_walk_step(address, status, size, protection),
        status == KERN_INVALID_ADDRESS ==> step is Stop,
        status != KERN_SUCCESS && status != KERN_INVALID_ADDRESS ==> step == RegionWalk::Failed(
            Error::RegionQueryFailed { source: Cause::Os(status) },
        ),
        status == KERN_SUCCESS ==> step is Found,
{
    if status == KERN_INVALID_ADDRESS {
        return RegionWalk::Stop;
    }
    if status != KERN_SUCCESS {
        return RegionWalk::Failed(Error::RegionQueryFailed { source: Cause::Os(status) });
    }
    let region = MemoryRegion {
        base: address as usize,
        size: size as usize,
        protection: vm_protection_flags(protection),
    };
    RegionWalk::Found { region, next: address.checked_add(size) }
}

/// The memory state of committed pages.
pub const MEM_COMMIT: u32 = 0x1000;

/// The region that a Windows memory query describes, when its pages are committed.
pub open spec fn spec_committed_region(state: u32, base: usize, size: usize, protect: u32) -> Option<
    MemoryRegion,
> {
    if state == MEM_COMMIT {
        Some(MemoryRegion { base, size, protection: spec_page_protection(protect) })
    } else {
        None
    }
}

/// The region that a Windows memory query describes, when its pages are committed;
/// free and reserved ranges are not regions.
pub fn committed_region(state: u32, base: usize, size: usize, protect: u32) -> (region: Option<
    MemoryRegion,
>)
    ensures
        region == spec_committed_region(state, base, size, protect),
{
    if state == MEM_COMMIT {
        Some(MemoryRegion { base, size, protection: page_protection_to_flags(protect) })
    } else {
        None
    }
}

/// What a walk over the regions of a Windows process does after one memory query.
#[derive(Clone, Debug)]
pub enum QueryWalk {
    /// The query described nothing: the walk is over.
    Stop,
    /// The query described a range from `base` on: `region` is its region, when it
    /// is committed, and the next query asks at `next`, the end of the range, or
    /// there is no next address because the range reaches the end of the address space.
    Visited { region: Option<MemoryRegion>, next: Option<usize> },
}

/// The step of a Windows region walk for a query that wrote `written` bytes of
/// information, describing a range of `size` bytes at `base` in `state` with `protect`.
pub open spec fn spec_query_walk_step(
    written: usize,
    state: u32,
    base: usize,
    size: usize,
    protect: u32,
) -> QueryWalk {
    if written == 0 {
        QueryWalk::Stop
    } else {
        QueryWalk::Visited {
            region: spec_committed_region(state, base, size, protect),
            next: if base + size <= usize::MAX {
                Some((base + size) as usize)
            } else {
                None
            },
        }
    }
}

/// Decides what a Windows region walk does with the answer to a memory query.
pub fn query_walk_step(written: usize, state: u32, base: usize, size: usize, protect: u32) -> (step:
    QueryWalk)
    ensures
        step == spec_query_walk_step(written, state, base, size, protect),
{
    if written == 0 {
        return QueryWalk::Stop;
    }
    QueryWalk::Visited {
        region: committed_region(state, base, size, protect),
        next: base.checked_add(size),
    }
}


/// A permission field grants each access by one position alone: read by an `r`
/// first, write by a `w` second, execute by an `x` third; nothing after the third
/// byte (such as the `p` or `s` of a private or shared mapping) changes the flags.
pub proof fn lemma_protection_by_position(perms: Seq<u8>, other: Seq<u8>)
    ensures
        protection_of(perms).read == (perms.len() >= 1 && perms[0] == 0x72u8),
        protection_of(perms).write == (perms.len() >= 2 && perms[1] == 0x77u8),
        protection_of(perms).execute == (perms.len() >= 3 && perms[2] == 0x78u8),
        perms.len() >= 3 && other.len() >= 3 && perms.take(3) == other.take(3) ==> protection_of(
            perms,
        ) == protection_of(other),
{
    if perms.len() >= 3 && other.len() >= 3 && perms.take(3) == other.take(3) {
        assert(perms[0] == perms.take(3)[0]);
        assert(perms[1] == perms.take(3)[1]);
        assert(perms[2] == perms.take(3)[2]);
        assert(other[0] == other.take(3)[0]);
        assert(other[1] == other.take(3)[1]);
        assert(other[2] == other.take(3)[2]);
    }
}


/// A Mach protection grants read for bit 1, write for bit 2 and execute for bit 4,
/// each independently of the other bits.
pub proof fn lemma_vm_protection_bits(protection: i32)
    ensures
        spec_vm_protection(protection).read == (protection & 1i32 != 0),
        spec_vm_protection(protection).write == (protection & 2i32 != 0),
        spec_vm_protection(protection).execute == (protection & 4i32 != 0),
{
}

/// A Mach region walk stops on `KERN_INVALID_ADDRESS` (1), fails with the status
/// on any other error, and on success (0) reports the region at `address` of
/// `size` bytes and goes on exactly where that region ends.
pub proof fn lemma_region_walk(address: u64, status: i32, size: u64, protection: i32)
    ensures
        status == 1 ==> spec_region_walk_step(address, status, size, protection) is Stop,
        status != 0 && status != 1 ==> spec_region_walk_step(address, status, size, protection)
            == RegionWalk::Failed(Error::RegionQueryFailed { source: Cause::Os(status) }),
        status == 0 ==> (spec_region_walk_step(address, status, size, protection) matches RegionWalk::Found {
            region,
            next,
        } && region.base == address as usize && region.size == size as usize && region.protection
            == spec_vm_protection(protection) && (next matches Some(n) ==> n == address + size) && (
        next is None ==> address + size > u64::MAX)),
{
}

/// A Windows memory query describes a region exactly when its state is MEM_COMMIT
/// (0x1000), and then the region is the queried range with its page protection;
/// the walk stops when the query wrote nothing and otherwise goes on where the
/// range ends.
pub proof fn lemma_query_walk(written: usize, state: u32, base: usize, size: usize, protect: u32)
    ensures
        spec_committed_region(state, base, size, protect) is Some <==> state == 0x1000u32,
        spec_committed_region(state, base, size, protect) matches Some(region) ==> region.base
            == base && region.size == size && region.protection == spec_page_protection(protect),
        written == 0 <==> spec_query_walk_step(written, state, base, size, protect) is Stop,
        spec_query_walk_step(written, state, base, size, protect) matches QueryWalk::Visited {
            region,
            next,
        } ==> region == spec_committed_region(state, base, size, protect) && (next matches Some(n)
            ==> n == base + size) && (next is None ==> base + size > usize::MAX),
{
}

/// A Windows page protection grants read, write and execute only for the seven
/// plain protection values: read for 0x02, 0x04, 0x08, 0x20, 0x40, 0x80; write for
/// 0x04, 0x08, 0x40, 0x80; execute for 0x10, 0x20, 0x40, 0x80.
pub proof fn lemma_page_protection_values(protect: u32)
    ensures
        spec_page_protection(protect).read == (protect == 0x02u32 || protect == 0x04u32 || protect
            == 0x08u32 || protect == 0x20u32 || protect == 0x40u32 || protect == 0x80u32),
        spec_page_protection(protect).write == (protect == 0x04u32 || protect == 0x08u32 || protect
            == 0x40u32 || protect == 0x80u32),
        spec_page_protection(protect).execute == (protect == 0x10u32 || protect == 0x20u32
            || protect == 0x40u32 || protect == 0x80u32),
{
}

} // verus!

//! Target-process addresses and architectures, memory-map parsing, loaded-image
//! parsing (PE32 and Mach-O) and the checks that a process-memory inspector makes
//! before it reads, each stated as a contract and proved.

mod error;
mod macho;
mod maps;
mod module;
mod pe;
mod process;
mod region;
mod sealed;
mod target;

pub use error::{Cause, Error, PeDefect};
pub use macho::{c_string, image_entries, load_commands, segments_span, u64_at};
pub use maps::{
    file_name, maps_extents_ordered, maps_regions_ordered, parse_maps_modules, parse_maps_regions,
};
pub use module::{
    addressable_modules, is_addressable, module_count, module_from_queries, queried_units, Module,
};
pub use pe::{
    invalid_data, parse_coff_header, parse_dos_header, parse_optional_header,
    parse_section_header, parse_section_table, u16_at, u32_at, CoffHeader, OptionalHeader,
    PeIdentity, PeReader, PeSection, PeStage, PeStep, ReadRequest,
};
pub use process::{Access, Capability, ReadOnly, ReadWrite};
pub use region::{
    committed_region, page_protection_to_flags, parse_protection, query_walk_step,
    region_walk_step, vm_protection_flags, MemoryRegion, Protection, QueryWalk, RegionWalk,
    KERN_INVALID_ADDRESS, KERN_SUCCESS,
};
pub use target::{Address, Architecture, Pointer32, Pointer64, PointerWidth};

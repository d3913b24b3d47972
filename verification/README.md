# procmod-core

Process memory inspection for Rust: attaching to a process, reading and writing
its memory, and listing its loaded modules and memory regions on Linux, macOS and
Windows.

## Layout

- `src/` is the verified library. Every function there carries a `requires` /
  `ensures` contract that Verus proves. It holds what the inspector decides on
  plain values:
  - `target.rs`: target addresses and architectures, and the checks an address
    passes before it is read;
  - `pe.rs`: the PE32 header chain of an image mapped in a target, as a reader
    that names each read and decides what follows from the bytes it gets;
  - `macho.rs`: Mach-O headers, load commands and the dyld image list;
  - `maps.rs`: the Linux memory map, parsed into regions and modules;
  - `region.rs`: protection flags, and the steps of the macOS and Windows region
    walks;
  - `module.rs`: modules, the addressable-module filter, and the steps of the
    Windows module enumeration;
  - `process.rs`, `sealed.rs`: the access capabilities.
- `app/` is the unverified shell around it: the system calls of each platform,
  the `Process` handle, the loops that perform each requested read or query and
  hand the answer back to the library, and the error type with its `Display`.
- `tests/` runs the library on concrete inputs.

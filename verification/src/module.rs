use vstd::prelude::*;

use vstd::slice::slice_subrange;

use crate::target::{group_address, Address, Architecture};

verus! {

broadcast use group_address;

/// A loaded module (shared library, executable, or dylib) in a process.
#[derive(Clone, Debug)]
pub struct Module {
    /// Module file name (e.g., "libfoo.so").
    pub name: String,
    /// Base address where the module is loaded.
    pub base: Address,
    /// Size of the module in memory (bytes).
    pub size: usize,
    /// Full file path on disk.
    pub path: String,
}

/// The address of the last byte of a module of nonzero size, if it exists.
pub open spec fn last_byte(module: Module) -> int {
    module.base@ + module.size - 1
}

/// A module is addressable in a process of `architecture` when it is not empty
/// and its first and last bytes both have addresses valid for the architecture.
pub open spec fn module_addressable(module: Module, architecture: Architecture) -> bool {
    &&& module.size > 0
    &&& module.base.valid_for(architecture)
    &&& last_byte(module) <= u64::MAX
    &&& Address::spec_new(last_byte(module) as u64).valid_for(architecture)
}

/// Whether the whole of `module` can be addressed in a process of `architecture`.
pub fn is_addressable(module: &Module, architecture: Architecture) -> (addressable: bool)
    ensures
        addressable == module_addressable(*module, architecture),
{
    if module.size == 0 {
        return false;
    }
    let last_offset = (module.size - 1) as u64;
    if module.base.validate_for(architecture).is_err() {
        return false;
    }
    match module.base.checked_add(last_offset) {
        Ok(last) => last.validate_for(architecture).is_ok(),
        Err(_) => false,
    }
}

/// The modules, in order, whose whole range can be addressed in a process of
/// `architecture`; the others are dropped.
pub fn addressable_modules(architecture: Architecture, modules: Vec<Module>) -> (kept: Vec<Module>)
    ensures
        kept@ == modules@.filter(|module: Module| module_addressable(module, architecture)),
        forall|i: int| 0 <= i < kept@.len() ==> module_addressable(#[trigger] kept@[i], architecture),
{
    let ghost pred = |module: Module| module_addressable(module, architecture);
    let ghost all = modules@;
    let mut kept: Vec<Module> = Vec::new();
    for module in it: modules
        invariant
            it.seq() == all,
            pred == (|module: Module| module_addressable(module, architecture)),
            kept@ == all.take(it.index() as int).filter(pred),
    {
        let ghost idx = it.index() as int;
        let ghost before = kept@;
        assert(module == all[idx]);
        let keep = is_addressable(&module, architecture);
        if keep {
            kept.push(module);
        }
        proof {
            reveal_with_fuel(Seq::<_>::filter, 1);
            let prefix = all.take(idx + 1);
            assert(prefix.drop_last() =~= all.take(idx));
            assert(prefix.last() == all[idx]);
            assert(pred(all[idx]) == keep);
            assert(prefix.filter(pred) == if keep {
                before.push(all[idx])
            } else {
                before
            });
        }
    }
    proof {
        assert(all.take(all.len() as int) =~= all);
        let kept_seq = kept@;
        assert forall|i: int| 0 <= i < kept_seq.len() implies module_addressable(
            #[trigger] kept_seq[i],
            architecture,
        ) by {
            all.lemma_filter_pred(pred, i);
        }
    }
    kept
}


/// How many module handles a process enumeration visits: the handles that the
/// `needed` bytes hold, `handle_size` bytes each, but no more than the `capacity`
/// of the buffer that received them.
pub fn module_count(needed: u32, handle_size: usize, capacity: usize) -> (count: usize)
    requires
        handle_size > 0,
    ensures
        count == if needed as usize / handle_size <= capacity {
            needed as usize / handle_size
        } else {
            capacity
        },
{
    let held = needed as usize / handle_size;
    if held <= capacity {
        held
    } else {
        capacity
    }
}

/// What `String::from_utf16_lossy` makes of `units`: their UTF-16 decoding, with
/// each unpaired surrogate replaced by U+FFFD.
pub uninterp spec fn utf16_lossy(units: Seq<u16>) -> Seq<char>;

/// Whether no unit is a surrogate, so that each unit is a character of its own.
pub open spec fn no_surrogates(units: Seq<u16>) -> bool {
    forall|i: int| 0 <= i < units.len() ==> #[trigger] units[i] < 0xD800 || units[i] >= 0xE000
}

/// Calls `String::from_utf16_lossy`. The contract claims that the text is the named
/// lossy decoding of the units, and, as UTF-16 defines, that units none of which is
/// a surrogate decode one character each, to the character of the same value.
#[verifier::external_body]
pub(crate) fn decode_utf16_lossy(units: &[u16]) -> (text: String)
    ensures
        text@ == utf16_lossy(units@),
        no_surrogates(units@) ==> text@ == units@.map_values(|unit: u16| unit as char),
{
    String::from_utf16_lossy(units)
}

/// The units that a text query wrote into `buffer`: none when it reported no
/// length (it failed), else the first `len` of them.
pub fn queried_units(buffer: &[u16], len: u32) -> (units: Option<&[u16]>)
    requires
        len <= buffer@.len(),
    ensures
        len == 0 ==> units is None,
        len != 0 ==> (units matches Some(u) && u@ == buffer@.take(len as int)),
{
    if len == 0 {
        None
    } else {
        let taken = slice_subrange(buffer, 0, len as usize);
        assert(taken@ =~= buffer@.take(len as int));
        Some(taken)
    }
}

/// The module that the three queries about one module handle describe; a failed
/// query leaves its part empty: no name, base and size 0, and the name as the path.
pub fn module_from_queries(name: Option<&[u16]>, info: Option<(u64, usize)>, path: Option<&[u16]>) -> (module: Module)
    ensures
        module.name@ == match name {
            Some(units) => utf16_lossy(units@),
            None => Seq::<char>::empty(),
        },
        module.base@ == match info {
            Some(info) => info.0,
            None => 0,
        },
        module.size == match info {
            Some(info) => info.1,
            None => 0,
        },
        module.path@ == match path {
            Some(units) => utf16_lossy(units@),
            None => module.name@,
        },
{
    let name_text = match name {
        Some(units) => decode_utf16_lossy(units),
        None => String::new(),
    };
    let (base, size) = match info {
        Some(info) => info,
        None => (0, 0),
    };
    let path_text = match path {
        Some(units) => decode_utf16_lossy(units),
        None => name_text.clone(),
    };
    Module { name: name_text, base: Address::new(base), size, path: path_text }
}

} // verus!

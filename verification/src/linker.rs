//! Linker script memory regions, written with the `ld_memory` crate.
pub use ld_memory::Memory as LinkerMemory;
use vstd::prelude::*;

verus! {

/// A memory region of a linker script, from `ld_memory`.
#[verifier::external_type_specification]
#[verifier::external_body]
pub struct ExMemorySection(ld_memory::MemorySection);

/// A linker script `MEMORY` block, from `ld_memory`.
#[verifier::external_type_specification]
#[verifier::external_body]
pub struct ExLdMemory(LinkerMemory);

/// What an `ld_memory::MemorySection` holds: name, origin, length, page size and attributes.
pub uninterp spec fn memory_section_entry(section: ld_memory::MemorySection) -> (
    Seq<char>,
    u64,
    u64,
    u64,
    Option<Seq<char>>,
);

/// The regions an `ld_memory::Memory` holds, in order.
pub uninterp spec fn memory_entries(memory: LinkerMemory) -> Seq<
    (Seq<char>, u64, u64, u64, Option<Seq<char>>),
>;

/// The entry of a region created with a name, an origin and a length.
pub open spec fn plain_entry(name: Seq<char>, origin: u64, length: u64) -> (
    Seq<char>,
    u64,
    u64,
    u64,
    Option<Seq<char>>,
) {
    (name, origin, length, 1, None)
}

/// Calls `ld_memory::MemorySection::new`, which stores the name, origin and length given,
/// with page size 1 and no attributes.
#[verifier::external_body]
pub(crate) fn memory_section_new(name: &str, origin: u64, length: u64) -> (r:
    ld_memory::MemorySection)
    ensures
        memory_section_entry(r) == plain_entry(name@, origin, length),
{
    ld_memory::MemorySection::new(name, origin, length)
}

/// Calls `ld_memory::Memory::new`, which holds no region.
#[verifier::external_body]
pub(crate) fn ld_memory_new() -> (r: LinkerMemory)
    ensures
        memory_entries(r) == Seq::<(Seq<char>, u64, u64, u64, Option<Seq<char>>)>::empty(),
{
    LinkerMemory::new()
}

/// Calls `ld_memory::Memory::add_section`, which appends the region to those held.
#[verifier::external_body]
pub(crate) fn ld_memory_add_section(
    memory: LinkerMemory,
    section: ld_memory::MemorySection,
) -> (r: LinkerMemory)
    ensures
        memory_entries(r) == memory_entries(memory).push(memory_section_entry(section)),
{
    memory.add_section(section)
}

} // verus!

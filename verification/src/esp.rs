//! Support for ESP32 partition table generation.
use crate::layout::{Layout, ResolvedLayout};
use crate::section::{ResolvedSection, Section};
use crate::Memory;
use esp_idf_part::{Flags, Partition, PartitionTable, SubType, Type};
use vstd::prelude::*;

verus! {

/// An ESP32 partition type, from `esp_idf_part`.
#[verifier::external_type_specification]
#[verifier::external_body]
pub struct ExEspType(esp_idf_part::Type);

/// An ESP32 partition subtype, from `esp_idf_part`.
#[verifier::external_type_specification]
#[verifier::external_body]
pub struct ExEspSubType(esp_idf_part::SubType);

/// ESP32 partition flags, from `esp_idf_part`.
#[verifier::external_type_specification]
#[verifier::external_body]
pub struct ExEspFlags(esp_idf_part::Flags);

/// An ESP32 partition, from `esp_idf_part`.
#[verifier::external_type_specification]
#[verifier::external_body]
pub struct ExEspPartition(esp_idf_part::Partition);

/// An ESP32 partition table, from `esp_idf_part`.
#[verifier::external_type_specification]
#[verifier::external_body]
pub struct ExEspPartitionTable(esp_idf_part::PartitionTable);

/// What an `esp_idf_part::Partition` holds: name, type, subtype, offset, size and flags.
pub uninterp spec fn partition_entry(p: esp_idf_part::Partition) -> (
    Seq<char>,
    esp_idf_part::Type,
    esp_idf_part::SubType,
    u32,
    u32,
    esp_idf_part::Flags,
);

/// The partitions an `esp_idf_part::PartitionTable` holds, in order.
pub uninterp spec fn table_entries(t: esp_idf_part::PartitionTable) -> Seq<
    (Seq<char>, esp_idf_part::Type, esp_idf_part::SubType, u32, u32, esp_idf_part::Flags),
>;

/// The bits of a set of ESP32 partition flags.
pub uninterp spec fn flag_bits(f: esp_idf_part::Flags) -> u32;

/// Calls `esp_idf_part::Flags::empty`, the flags with no bit set.
#[verifier::external_body]
fn flags_empty() -> (r: esp_idf_part::Flags)
    ensures
        flag_bits(r) == 0,
{
    esp_idf_part::Flags::empty()
}

/// Calls `esp_idf_part::Partition::new`, which stores the name, type, subtype, offset, size
/// and flags given.
#[verifier::external_body]
fn partition_new(
    name: &str,
    ty: esp_idf_part::Type,
    subtype: esp_idf_part::SubType,
    offset: u32,
    size: u32,
    flags: esp_idf_part::Flags,
) -> (r: esp_idf_part::Partition)
    ensures
        partition_entry(r) == (name@, ty, subtype, offset, size, flags),
{
    esp_idf_part::Partition::new(name, ty, subtype, offset, size, flags)
}

/// Calls `esp_idf_part::PartitionTable::new`, which holds the partitions given, in order.
#[verifier::external_body]
fn partition_table_new(partitions: Vec<esp_idf_part::Partition>) -> (r:
    esp_idf_part::PartitionTable)
    ensures
        table_entries(r) == partitions@.map_values(|p: esp_idf_part::Partition| partition_entry(p)),
{
    esp_idf_part::PartitionTable::new(partitions)
}

/// A section with ESP32 metadata.
pub type EspSection = Section<EspMetaData>;

/// A layout with ESP32 metadata in the sections.
pub type EspLayout = Layout<EspMetaData>;

/// A memory with ESP32 metadata in the sections.
pub type EspMemory = Memory<EspMetaData>;

/// ESP32 partition metadata.
#[derive(Clone, Copy, Debug)]
pub struct EspMetaData {
    /// The ESP32 partition type.
    pub partition_type: Type,
    /// The ESP32 partition subtype.
    pub partition_subtype: SubType,
    /// The ESP32 partition flags.
    pub flags: Flags,
}

impl EspMetaData {
    /// Creates new partition metadata.
    pub fn new(partition_type: Type, partition_subtype: SubType, flags: Flags) -> (r: Self)
        ensures
            r.partition_type == partition_type,
            r.partition_subtype == partition_subtype,
            r.flags == flags,
    {
        EspMetaData { partition_type, partition_subtype, flags }
    }

    /// Set the flags on the metadata.
    pub fn set_flags(self, flags: Flags) -> (r: Self)
        ensures
            r.partition_type == self.partition_type,
            r.partition_subtype == self.partition_subtype,
            r.flags == flags,
    {
        let mut m = self;
        m.flags = flags;
        m
    }
}

impl Section<()> {
    /// Add ESP partition data to this section, with no flag set.
    pub fn add_esp_metadata(self, partition_type: Type, subtype: SubType) -> (r: EspSection)
        ensures
            r@ == self@,
            r.spec_metadata().partition_type == partition_type,
            r.spec_metadata().partition_subtype == subtype,
            flag_bits(r.spec_metadata().flags) == 0,
    {
        let metadata = EspMetaData::new(partition_type, subtype, flags_empty());
        self.replace_metadata(metadata)
    }
}

impl Memory<()> {
    /// Converts a memory with an empty layout to use [`EspMetaData`].
    pub fn with_esp_metadata(self) -> (r: EspMemory)
        requires
            self.spec_layout().spec_sections().len() == 0,
        ensures
            r.spec_chip() == self.spec_chip(),
            r.spec_layout().spec_sections().len() == 0,
    {
        Memory { chip: self.chip, layout: self.layout.with_esp_metadata() }
    }
}

impl Layout<()> {
    /// Converts an empty layout to use [`EspMetaData`].
    pub fn with_esp_metadata(self) -> (r: EspLayout)
        requires
            self.spec_sections().len() == 0,
        ensures
            r.spec_sections().len() == 0,
    {
        Layout::empty()
    }
}

impl Section<EspMetaData> {
    /// Set ESP partition flags on this section.
    pub fn set_esp_flags(self, flags: Flags) -> (r: Section<EspMetaData>)
        ensures
            r@ == self@,
            r.spec_metadata().partition_type == self.spec_metadata().partition_type,
            r.spec_metadata().partition_subtype == self.spec_metadata().partition_subtype,
            r.spec_metadata().flags == flags,
    {
        let metadata = self.metadata().set_flags(flags);
        self.replace_metadata(metadata)
    }
}

/// The partition of a resolved section: its linker name, its partition type and subtype, its
/// address and size cut to 32 bits, and its flags.
pub open spec fn section_partition(s: ResolvedSection<EspMetaData>) -> (
    Seq<char>,
    Type,
    SubType,
    u32,
    u32,
    Flags,
) {
    (
        s.linker_name@,
        s.metadata.partition_type,
        s.metadata.partition_subtype,
        s.address as u32,
        s.size as u32,
        s.metadata.flags,
    )
}

impl ResolvedSection<EspMetaData> {
    /// Generate a [`esp_idf_part::Partition`] from this section.
    pub fn as_esp_partition(&self) -> (r: Partition)
        ensures
            partition_entry(r) == section_partition(*self),
    {
        partition_new(
            self.linker_name.as_str(),
            self.metadata.partition_type,
            self.metadata.partition_subtype,
            self.address as u32,
            self.size as u32,
            self.metadata.flags,
        )
    }
}

impl ResolvedLayout<EspMetaData> {
    /// Generate a [`esp_idf_part::PartitionTable`] from this layout.
    pub fn into_esp_partition(&self) -> (r: PartitionTable)
        ensures
            table_entries(r) == self@.map_values(
                |s: ResolvedSection<EspMetaData>| section_partition(s),
            ),
    {
        let mut partitions: Vec<Partition> = Vec::new();
        let n = self.sections.len();
        for i in 0..n
            invariant
                n == self@.len(),
                partitions@.map_values(|p: Partition| partition_entry(p)) == self@.take(
                    i as int,
                ).map_values(|s: ResolvedSection<EspMetaData>| section_partition(s)),
        {
            let p = self.sections[i].as_esp_partition();
            let ghost before = partitions@;
            partitions.push(p);
            proof {
                assert(partitions@.map_values(|p: Partition| partition_entry(p)) =~= before.map_values(
                    |p: Partition| partition_entry(p),
                ).push(partition_entry(p)));
                assert(self@.take(i + 1).map_values(
                    |s: ResolvedSection<EspMetaData>| section_partition(s),
                ) =~= self@.take(i as int).map_values(
                    |s: ResolvedSection<EspMetaData>| section_partition(s),
                ).push(section_partition(self@[i as int])));
            }
        }
        proof {
            assert(self@.take(n as int) =~= self@);
        }
        partition_table_new(partitions)
    }
}


/// The partition of a resolved section, as [`ResolvedSection::as_esp_partition`] makes it and
/// as each entry of [`ResolvedLayout::into_esp_partition`]'s table holds it: named by the
/// linker name of the section (the section name when no linker name was set), with the
/// section's partition type and subtype, its address and size cut to 32 bits, and its flags.
pub proof fn lemma_partition_of_section(s: ResolvedSection<EspMetaData>)
    ensures
        section_partition(s).0 == s.linker_name@,
        section_partition(s).1 == s.metadata.partition_type,
        section_partition(s).2 == s.metadata.partition_subtype,
        section_partition(s).3 as int == (s.address as int) % 0x1_0000_0000,
        section_partition(s).4 as int == (s.size as int) % 0x1_0000_0000,
        section_partition(s).5 == s.metadata.flags,
{
    let a = s.address;
    let z = s.size;
    assert((a as u32) as int == (a as int) % 0x1_0000_0000) by (bit_vector);
    assert((z as u32) as int == (z as int) % 0x1_0000_0000) by (bit_vector);
}

} // verus!

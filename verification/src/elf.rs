//! The parts of a 64-bit ELF image that the layout engine reads, held as
//! plain values.

use vstd::prelude::*;

verus! {

/// Class byte of the ELF identification.
#[derive(Debug, Clone, Copy, PartialEq, Eq)]
pub enum ElfClass {
    Unspecified,
    ThirtyTwo,
    SixtyFour,
    Other(u8),
}

/// Kind of a program header, as far as the engine tells kinds apart.
#[derive(Debug, Clone, Copy, PartialEq, Eq)]
pub enum SegmentKind {
    Load,
    Dynamic,
    Other,
}

/// Tag of a dynamic entry.
#[derive(Debug, Clone, Copy, PartialEq, Eq)]
pub enum DynTag {
    Null,
    Needed,
    PltRelSize,
    Pltgot,
    Hash,
    StrTab,
    SymTab,
    Rela,
    RelaSize,
    RelaEnt,
    StrSize,
    SymEnt,
    Init,
    Fini,
    SoName,
    RPath,
    Symbolic,
    Rel,
    RelSize,
    RelEnt,
    PltRel,
    Debug,
    TextRel,
    JmpRel,
    BindNow,
    InitArray,
    FiniArray,
    InitArraySize,
    FiniArraySize,
    RunPath,
    Flags,
    PreInitArray,
    PreInitArraySize,
    SymTabShIndex,
    RelrSize,
    Relr,
    RelrEnt,
    Flags1,
    OsSpecific(u64),
    ProcessorSpecific(u64),
    /// A tag value that stands for no known tag.
    Invalid,
}

/// One entry of the dynamic section: its tag and its value or address.
#[derive(Debug, Clone, Copy, PartialEq, Eq)]
pub struct DynEntry {
    pub tag: DynTag,
    pub value: u64,
}

/// What a program header's bytes in the file are.
#[derive(Debug, PartialEq, Eq)]
pub enum SegmentData {
    /// Bytes without structure, as a loadable segment has them.
    Undefined(Vec<u8>),
    /// A 64-bit dynamic section.
    Dynamic64(Vec<DynEntry>),
    Other,
}

/// One program header.
#[derive(Debug, PartialEq, Eq)]
pub struct ProgramHeader {
    pub kind: SegmentKind,
    /// Permission bits as the file has them.
    pub flags: u32,
    pub virtual_addr: u64,
    pub mem_size: u64,
    pub data: SegmentData,
}

/// One entry of a dynamic symbol table.
#[derive(Debug, PartialEq, Eq)]
pub struct DynSymbol {
    pub name: String,
    /// Index of the defining section; zero where the symbol is undefined.
    pub shndx: u16,
    pub value: u64,
    pub size: u64,
}

/// One relocation with explicit addend.
#[derive(Debug, Clone, Copy, PartialEq, Eq)]
pub struct Rela {
    pub offset: u64,
    pub symbol_table_index: u32,
    pub rtype: u32,
}

/// What a section holds.
#[derive(Debug, PartialEq, Eq)]
pub enum SectionData {
    /// A 64-bit dynamic symbol table, the reserved first entry included.
    DynSymbolTable64(Vec<DynSymbol>),
    /// A 64-bit table of relocations with explicit addends.
    Rela64(Vec<Rela>),
    Other,
}

/// One section: its name, where it has one, and its contents.
#[derive(Debug, PartialEq, Eq)]
pub struct Section {
    pub name: Option<String>,
    pub data: SectionData,
}

/// An ELF image: sections and program headers in file order.
#[derive(Debug, PartialEq, Eq)]
pub struct ElfImage {
    pub class: ElfClass,
    pub sections: Vec<Section>,
    pub program_headers: Vec<ProgramHeader>,
}

/// Section index that marks a symbol as undefined.
pub const SHN_UNDEF: u16 = 0;

/// `xmas_elf::sections::SHN_UNDEF`: the section index of an undefined
/// symbol, which is zero.
#[verifier::external_body]
pub(crate) fn undefined_index() -> (r: u16)
    ensures
        r == SHN_UNDEF,
{
    xmas_elf::sections::SHN_UNDEF
}

/// The read bit is set in a program header's permission bits.
pub open spec fn flags_readable(flags: u32) -> bool {
    flags & 0x4 == 0x4
}

/// The write bit is set in a program header's permission bits.
pub open spec fn flags_writable(flags: u32) -> bool {
    flags & 0x2 == 0x2
}

/// The execute bit is set in a program header's permission bits.
pub open spec fn flags_executable(flags: u32) -> bool {
    flags & 0x1 == 0x1
}

/// `xmas_elf::program::Flags::is_read` on the given bits: the result says
/// whether bit 2 (value 4) is set.
#[verifier::external_body]
pub(crate) fn is_read(flags: u32) -> (r: bool)
    ensures
        r == flags_readable(flags),
{
    xmas_elf::program::Flags(flags).is_read()
}

/// `xmas_elf::program::Flags::is_write` on the given bits: the result says
/// whether bit 1 (value 2) is set.
#[verifier::external_body]
pub(crate) fn is_write(flags: u32) -> (r: bool)
    ensures
        r == flags_writable(flags),
{
    xmas_elf::program::Flags(flags).is_write()
}

/// `xmas_elf::program::Flags::is_execute` on the given bits: the result says
/// whether bit 0 (value 1) is set.
#[verifier::external_body]
pub(crate) fn is_execute(flags: u32) -> (r: bool)
    ensures
        r == flags_executable(flags),
{
    xmas_elf::program::Flags(flags).is_execute()
}

impl DynSymbol {
    /// The symbol has no defining section.
    pub open spec fn is_undefined(&self) -> bool {
        self.shndx == SHN_UNDEF
    }

    /// Says whether the symbol has no defining section.
    pub fn undefined(&self) -> (r: bool)
        ensures
            r == self.is_undefined(),
    {
        self.shndx == undefined_index()
    }
}

impl ProgramHeader {
    /// The header describes a loadable segment.
    pub open spec fn is_load(&self) -> bool {
        self.kind == SegmentKind::Load
    }

    /// First address after the segment in memory.
    pub open spec fn end(&self) -> int {
        self.virtual_addr + self.mem_size
    }

    /// The segment's bytes in the file; none where it has no plain bytes.
    pub open spec fn bytes(&self) -> Seq<u8> {
        match self.data {
            SegmentData::Undefined(b) => b@,
            _ => Seq::empty(),
        }
    }

    /// Says whether the header describes a loadable segment.
    pub fn loadable(&self) -> (r: bool)
        ensures
            r == self.is_load(),
    {
        match self.kind {
            SegmentKind::Load => true,
            _ => false,
        }
    }

    /// Says whether the segment may be read.
    pub fn readable(&self) -> (r: bool)
        ensures
            r == flags_readable(self.flags),
    {
        is_read(self.flags)
    }

    /// Says whether the segment may be written.
    pub fn writable(&self) -> (r: bool)
        ensures
            r == flags_writable(self.flags),
    {
        is_write(self.flags)
    }

    /// Says whether the segment may be executed.
    pub fn executable(&self) -> (r: bool)
        ensures
            r == flags_executable(self.flags),
    {
        is_execute(self.flags)
    }
}

/// Says whether a name equals a literal.
pub fn name_is(name: &String, literal: &str) -> (r: bool)
    ensures
        r == (name@ == literal@),
{
    let owned = literal.to_owned();
    *name == owned
}

} // verus!

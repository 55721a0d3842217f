use elf2sgxs::dynamic::{check_dynamic, scan_dynamic, tag_class, Dynamic, TagClass};
use elf2sgxs::elf::{
    DynEntry, DynSymbol, DynTag, ElfClass, ElfImage, ProgramHeader, Rela, Section, SectionData,
    SegmentData, SegmentKind,
};
use elf2sgxs::error::Error;
use elf2sgxs::layout::LayoutInfo;
use elf2sgxs::relocs::{check_relocs, offset_is_writable};
use elf2sgxs::symbols::{check_symbols, find_section_by_name, required_index, scan_symbols};

fn sym(name: &str, shndx: u16, value: u64, size: u64) -> DynSymbol {
    DynSymbol { name: name.to_string(), shndx, value, size }
}

fn good_symbols() -> Vec<DynSymbol> {
    vec![
        sym("", 0, 0, 0),
        sym("sgx_entry", 1, 0x400100, 0),
        sym("HEAP_BASE", 2, 0x600000, 8),
        sym("HEAP_SIZE", 2, 0x600008, 8),
        sym("RELA", 2, 0x600010, 8),
        sym("RELACOUNT", 2, 0x600018, 8),
        sym("ENCLAVE_SIZE", 2, 0x600020, 8),
    ]
}

fn load(flags: u32, addr: u64, size: u64, data: Vec<u8>) -> ProgramHeader {
    ProgramHeader {
        kind: SegmentKind::Load,
        flags,
        virtual_addr: addr,
        mem_size: size,
        data: SegmentData::Undefined(data),
    }
}

fn dynamic(entries: Vec<DynEntry>) -> ProgramHeader {
    ProgramHeader {
        kind: SegmentKind::Dynamic,
        flags: 6,
        virtual_addr: 0x600800,
        mem_size: 0x100,
        data: SegmentData::Dynamic64(entries),
    }
}

fn entry(tag: DynTag, value: u64) -> DynEntry {
    DynEntry { tag, value }
}

fn image(symbols: Vec<DynSymbol>, entries: Vec<DynEntry>, relas: Vec<Rela>) -> ElfImage {
    ElfImage {
        class: ElfClass::SixtyFour,
        sections: vec![
            Section { name: None, data: SectionData::Other },
            Section { name: Some(".text".to_string()), data: SectionData::Other },
            Section { name: Some(".dynsym".to_string()), data: SectionData::DynSymbolTable64(symbols) },
            Section { name: Some(".rela.dyn".to_string()), data: SectionData::Rela64(relas) },
        ],
        program_headers: vec![
            load(5, 0x400000, 0x1000, vec![0x90; 0x1000]),
            load(6, 0x600000, 0x1000, vec![0x11; 0x1000]),
            dynamic(entries),
        ],
    }
}

const RELACOUNT: u64 = 0x6ffffff9;
const RELCOUNT: u64 = 0x6ffffffa;

fn relative(offset: u64) -> Rela {
    Rela { offset, symbol_table_index: 0, rtype: 8 }
}

#[test]
fn required_names_are_told_apart() {
    assert_eq!(required_index(&"sgx_entry".to_string()), Some(0));
    assert_eq!(required_index(&"HEAP_BASE".to_string()), Some(1));
    assert_eq!(required_index(&"HEAP_SIZE".to_string()), Some(2));
    assert_eq!(required_index(&"RELA".to_string()), Some(3));
    assert_eq!(required_index(&"RELACOUNT".to_string()), Some(4));
    assert_eq!(required_index(&"ENCLAVE_SIZE".to_string()), Some(5));
    assert_eq!(required_index(&"heap_base".to_string()), None);
    assert_eq!(required_index(&"".to_string()), None);
}

#[test]
fn first_section_of_a_name_is_found() {
    let mut elf = image(good_symbols(), vec![], vec![]);
    assert_eq!(find_section_by_name(&elf, ".dynsym"), Some(2));
    assert_eq!(find_section_by_name(&elf, ".missing"), None);
    elf.sections.insert(1, Section { name: Some(".dynsym".to_string()), data: SectionData::Other });
    assert_eq!(find_section_by_name(&elf, ".dynsym"), Some(1));
}

#[test]
fn symbols_are_collected() {
    let s = check_symbols(&image(good_symbols(), vec![], vec![])).unwrap();
    assert_eq!(s.sgx_entry.value, 0x400100);
    assert_eq!(s.heap_base.value, 0x600000);
    assert_eq!(s.heap_size.value, 0x600008);
    assert_eq!(s.rela.value, 0x600010);
    assert_eq!(s.relacount.value, 0x600018);
    assert_eq!(s.enclave_size.value, 0x600020);
    assert_eq!(s.enclave_size.size, 8);
    assert_eq!(s.info(3), s.rela);
}

#[test]
fn reserved_first_symbol_is_skipped() {
    let mut symbols = good_symbols();
    symbols[0] = sym("HEAP_BASE", 0, 0, 0);
    assert!(scan_symbols(&symbols).is_ok());
}

#[test]
fn missing_dynsym_section() {
    let mut elf = image(good_symbols(), vec![], vec![]);
    elf.sections[2].name = Some(".symtab".to_string());
    assert_eq!(check_symbols(&elf), Err(Error::DynamicSymbolTableNotFound));
}

#[test]
fn dynsym_section_of_another_kind() {
    let mut elf = image(good_symbols(), vec![], vec![]);
    elf.sections[2].data = SectionData::Other;
    assert_eq!(check_symbols(&elf), Err(Error::DynamicSymbolTableNotInDynsymSection));
}

#[test]
fn undefined_symbol_is_refused() {
    let mut symbols = good_symbols();
    symbols.insert(3, sym("memcpy", 0, 0, 0));
    assert_eq!(scan_symbols(&symbols), Err(Error::DynamicSymbolUndefined("memcpy".to_string())));
}

#[test]
fn undefined_comes_before_duplicate_in_file_order() {
    let mut symbols = good_symbols();
    symbols.push(sym("puts", 0, 0, 0));
    symbols.push(sym("RELA", 2, 0x600100, 8));
    assert_eq!(scan_symbols(&symbols), Err(Error::DynamicSymbolUndefined("puts".to_string())));
}

#[test]
fn duplicate_symbol_is_refused() {
    let mut symbols = good_symbols();
    symbols.push(sym("RELA", 2, 0x600100, 8));
    assert_eq!(scan_symbols(&symbols), Err(Error::DynamicSymbolDuplicate("RELA")));
}

#[test]
fn other_symbols_may_repeat() {
    let mut symbols = good_symbols();
    symbols.push(sym("helper", 1, 0x400200, 4));
    symbols.push(sym("helper", 1, 0x400300, 4));
    assert!(scan_symbols(&symbols).is_ok());
}

#[test]
fn missing_heap_size_symbol() {
    let mut symbols = good_symbols();
    symbols.remove(3);
    let elf = image(symbols, vec![], vec![]);
    assert_eq!(
        LayoutInfo::new(elf, 1, 0x10000, 0x10000, false).err(),
        Some(Error::DynamicSymbolMissing(vec!["HEAP_SIZE"]))
    );
}

#[test]
fn all_missing_symbols_are_listed_in_order() {
    let symbols = vec![sym("", 0, 0, 0), sym("RELA", 2, 0x600010, 8)];
    assert_eq!(
        scan_symbols(&symbols),
        Err(Error::DynamicSymbolMissing(vec![
            "sgx_entry",
            "HEAP_BASE",
            "HEAP_SIZE",
            "RELACOUNT",
            "ENCLAVE_SIZE"
        ]))
    );
    assert_eq!(
        scan_symbols(&vec![]),
        Err(Error::DynamicSymbolMissing(vec![
            "sgx_entry",
            "HEAP_BASE",
            "HEAP_SIZE",
            "RELA",
            "RELACOUNT",
            "ENCLAVE_SIZE"
        ]))
    );
}

#[test]
fn wrong_symbol_size_is_refused() {
    let mut symbols = good_symbols();
    symbols[4].size = 4;
    symbols[6].size = 16;
    assert_eq!(
        scan_symbols(&symbols),
        Err(Error::DynamicSymbolIncorrectSize { name: "RELA", expected: 8, actual: 4 })
    );
}

#[test]
fn entry_symbol_may_have_any_size() {
    let mut symbols = good_symbols();
    symbols[1].size = 123;
    assert!(scan_symbols(&symbols).is_ok());
}

#[test]
fn tags_are_classified() {
    assert_eq!(tag_class(DynTag::PltRelSize), TagClass::PltGot);
    assert_eq!(tag_class(DynTag::PltRel), TagClass::PltGot);
    assert_eq!(tag_class(DynTag::JmpRel), TagClass::PltGot);
    assert_eq!(tag_class(DynTag::Init), TagClass::Init);
    assert_eq!(tag_class(DynTag::InitArray), TagClass::Init);
    assert_eq!(tag_class(DynTag::InitArraySize), TagClass::Init);
    assert_eq!(tag_class(DynTag::Fini), TagClass::Fini);
    assert_eq!(tag_class(DynTag::FiniArray), TagClass::Fini);
    assert_eq!(tag_class(DynTag::FiniArraySize), TagClass::Fini);
    assert_eq!(tag_class(DynTag::Rel), TagClass::ImplicitReloc);
    assert_eq!(tag_class(DynTag::RelSize), TagClass::ImplicitReloc);
    assert_eq!(tag_class(DynTag::RelEnt), TagClass::ImplicitReloc);
    assert_eq!(tag_class(DynTag::OsSpecific(RELCOUNT)), TagClass::ImplicitReloc);
    assert_eq!(tag_class(DynTag::Rela), TagClass::Rela);
    assert_eq!(tag_class(DynTag::OsSpecific(RELACOUNT)), TagClass::RelaCount);
    assert_eq!(tag_class(DynTag::OsSpecific(0x6ffffef5)), TagClass::Ignored);
    assert_eq!(tag_class(DynTag::Pltgot), TagClass::Ignored);
    assert_eq!(tag_class(DynTag::RelaSize), TagClass::Ignored);
    assert_eq!(tag_class(DynTag::Null), TagClass::Ignored);
    assert_eq!(tag_class(DynTag::Invalid), TagClass::Ignored);
}

#[test]
fn dynamic_without_relocation_entries() {
    let entries = vec![entry(DynTag::Hash, 1), entry(DynTag::StrTab, 2), entry(DynTag::Null, 0)];
    assert_eq!(scan_dynamic(&entries), Ok(None));
    assert_eq!(scan_dynamic(&vec![]), Ok(None));
}

#[test]
fn dynamic_with_both_relocation_entries() {
    let entries = vec![
        entry(DynTag::OsSpecific(RELACOUNT), 3),
        entry(DynTag::RelaSize, 72),
        entry(DynTag::Rela, 0x600900),
    ];
    assert_eq!(scan_dynamic(&entries), Ok(Some(Dynamic { rela: 0x600900, relacount: 3 })));
}

#[test]
fn jmprel_entry_is_refused() {
    let elf = image(good_symbols(), vec![entry(DynTag::Hash, 1), entry(DynTag::JmpRel, 0x1000)], vec![]);
    assert_eq!(
        LayoutInfo::new(elf, 1, 0x10000, 0x10000, false).err(),
        Some(Error::DynEntryUnsupportedPLTGOT)
    );
}

#[test]
fn unsupported_entries_are_refused() {
    assert_eq!(scan_dynamic(&vec![entry(DynTag::PltRel, 7)]), Err(Error::DynEntryUnsupportedPLTGOT));
    assert_eq!(scan_dynamic(&vec![entry(DynTag::InitArray, 7)]), Err(Error::DynEntryUnsupportedInitFunction));
    assert_eq!(scan_dynamic(&vec![entry(DynTag::FiniArraySize, 7)]), Err(Error::DynEntryUnsupportedFiniFunction));
    assert_eq!(scan_dynamic(&vec![entry(DynTag::RelEnt, 7)]), Err(Error::DynEntryUnsupportedImplicitReloc));
    assert_eq!(
        scan_dynamic(&vec![entry(DynTag::OsSpecific(RELCOUNT), 7)]),
        Err(Error::DynEntryUnsupportedImplicitReloc)
    );
}

#[test]
fn first_refused_entry_decides() {
    let entries = vec![entry(DynTag::Rela, 1), entry(DynTag::Fini, 2), entry(DynTag::Rela, 3), entry(DynTag::Init, 4)];
    assert_eq!(scan_dynamic(&entries), Err(Error::DynEntryUnsupportedFiniFunction));
}

#[test]
fn duplicate_relocation_entries_are_refused() {
    assert_eq!(
        scan_dynamic(&vec![entry(DynTag::Rela, 1), entry(DynTag::Rela, 1)]),
        Err(Error::DynEntryDuplicateDtRela)
    );
    assert_eq!(
        scan_dynamic(&vec![entry(DynTag::OsSpecific(RELACOUNT), 1), entry(DynTag::OsSpecific(RELACOUNT), 2)]),
        Err(Error::DynEntryDuplicateDtRelacount)
    );
}

#[test]
fn one_relocation_entry_without_the_other() {
    assert_eq!(scan_dynamic(&vec![entry(DynTag::Rela, 1)]), Err(Error::DynEntryFoundDtRelaButNotDtRelacount));
    assert_eq!(
        scan_dynamic(&vec![entry(DynTag::OsSpecific(RELACOUNT), 1)]),
        Err(Error::DynEntryFoundDtRelacountButNotDtRela)
    );
}

#[test]
fn missing_dynamic_segment() {
    let mut elf = image(good_symbols(), vec![], vec![]);
    elf.program_headers.pop();
    assert_eq!(check_dynamic(&elf), Err(Error::DynamicSectionNotFound));
}

#[test]
fn dynamic_segment_of_another_kind() {
    let mut elf = image(good_symbols(), vec![], vec![]);
    elf.program_headers[2].data = SegmentData::Other;
    assert_eq!(check_dynamic(&elf), Err(Error::DynamicSectionNotInPtDynamicSegment));
}

#[test]
fn writable_range_is_exact() {
    let elf = image(good_symbols(), vec![], vec![]);
    assert!(offset_is_writable(&elf, 0x600000));
    assert!(offset_is_writable(&elf, 0x600ff8));
    assert!(!offset_is_writable(&elf, 0x600ff9));
    assert!(!offset_is_writable(&elf, 0x5ffff8));
    assert!(!offset_is_writable(&elf, 0x400000));
    assert!(!offset_is_writable(&elf, u64::MAX));
}

#[test]
fn relocations_are_counted() {
    let elf = image(good_symbols(), vec![], vec![relative(0x600100), relative(0x600108)]);
    let d = Dynamic { rela: 0x600900, relacount: 2 };
    assert_eq!(check_relocs(&elf, Some(&d)), Ok(()));
    assert_eq!(
        check_relocs(&elf, None),
        Err(Error::RelocationInvalidCount { expected: 0, actual: 2 })
    );
    let none = image(good_symbols(), vec![], vec![]);
    assert_eq!(check_relocs(&none, None), Ok(()));
}

#[test]
fn relocations_of_all_sections_count() {
    let mut elf = image(good_symbols(), vec![], vec![relative(0x600100)]);
    elf.sections.push(Section { name: Some(".rela.plt".to_string()), data: SectionData::Rela64(vec![relative(0x600200)]) });
    let d = Dynamic { rela: 0x600900, relacount: 2 };
    assert_eq!(check_relocs(&elf, Some(&d)), Ok(()));
}

#[test]
fn relocation_count_mismatch() {
    let elf = image(
        good_symbols(),
        vec![entry(DynTag::Rela, 0x600900), entry(DynTag::OsSpecific(RELACOUNT), 2)],
        vec![relative(0x600100)],
    );
    assert_eq!(
        LayoutInfo::new(elf, 1, 0x10000, 0x10000, false).err(),
        Some(Error::RelocationInvalidCount { expected: 2, actual: 1 })
    );
}

#[test]
fn relocation_with_symbol_or_other_type_is_refused() {
    let elf = image(good_symbols(), vec![], vec![Rela { offset: 0x600100, symbol_table_index: 3, rtype: 8 }]);
    assert_eq!(check_relocs(&elf, None), Err(Error::RelocationInvalid { section: 3, rtype: 8 }));
    let elf = image(good_symbols(), vec![], vec![relative(0x600100), Rela { offset: 0x600100, symbol_table_index: 0, rtype: 1 }]);
    assert_eq!(check_relocs(&elf, None), Err(Error::RelocationInvalid { section: 0, rtype: 1 }));
}

#[test]
fn relocation_outside_writable_segment_is_refused() {
    let elf = image(good_symbols(), vec![], vec![relative(0x400010)]);
    assert_eq!(check_relocs(&elf, None), Err(Error::RelocationOutsideWritableSegment(0x400010)));
    let elf = image(good_symbols(), vec![], vec![relative(0x600ffc)]);
    assert_eq!(check_relocs(&elf, None), Err(Error::RelocationOutsideWritableSegment(0x600ffc)));
}

#[test]
fn class_must_be_sixty_four() {
    let mut elf = image(good_symbols(), vec![], vec![]);
    elf.class = ElfClass::ThirtyTwo;
    elf.sections.clear();
    assert_eq!(LayoutInfo::new(elf, 1, 0x10000, 0x10000, false).err(), Some(Error::ElfClassNot64));
}

#[test]
fn symbols_are_checked_before_dynamic_entries_and_relocations() {
    let mut symbols = good_symbols();
    symbols.remove(1);
    let elf = image(symbols, vec![entry(DynTag::JmpRel, 1)], vec![relative(0)]);
    assert_eq!(
        LayoutInfo::new(elf, 1, 0x10000, 0x10000, false).err(),
        Some(Error::DynamicSymbolMissing(vec!["sgx_entry"]))
    );
    let elf = image(good_symbols(), vec![entry(DynTag::JmpRel, 1)], vec![relative(0)]);
    assert_eq!(
        LayoutInfo::new(elf, 1, 0x10000, 0x10000, false).err(),
        Some(Error::DynEntryUnsupportedPLTGOT)
    );
}

#[test]
fn valid_image_is_accepted() {
    let elf = image(
        good_symbols(),
        vec![entry(DynTag::Rela, 0x600900), entry(DynTag::OsSpecific(RELACOUNT), 1)],
        vec![relative(0x600100)],
    );
    let l = LayoutInfo::new(elf, 1, 0x10000, 0x10000, false).unwrap();
    assert_eq!(l.dynamic_entries(), Some(Dynamic { rela: 0x600900, relacount: 1 }));
    assert_eq!(l.required_symbols().sgx_entry.value, 0x400100);
    assert_eq!(l.elf().sections.len(), 4);
}

#[test]
fn symbol_without_section_is_undefined() {
    assert!(sym("f", 0, 0, 0).undefined());
    assert!(!sym("f", 1, 0, 0).undefined());
    assert!(!sym("f", 0xfff1, 0, 0).undefined());
}

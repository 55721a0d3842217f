use elf2sgxs::elf::{
    DynEntry, DynSymbol, DynTag, ElfClass, ElfImage, ProgramHeader, Rela, Section, SectionData,
    SegmentData, SegmentKind,
};
use elf2sgxs::error::{Error, SgxsError};
use elf2sgxs::layout::{Layout, LayoutInfo};
use elf2sgxs::sgx::{secinfo_for_data, secinfo_for_segment, secinfo_for_tcs, tcs_bytes};
use elf2sgxs::splice::{sort_splices, splice_segment, Splice, SpliceQueue};
use elf2sgxs::stream::{write_runs, CanonicalWriter, PageRun};

const RELACOUNT: u64 = 0x6ffffff9;
const ECREATE: u64 = 0x0045544145524345;
const EADD: u64 = 0x0000000044444145;
const EEXTEND: u64 = 0x00444E4554584545;

fn sym(name: &str, shndx: u16, value: u64, size: u64) -> DynSymbol {
    DynSymbol { name: name.to_string(), shndx, value, size }
}

fn symbols_at(base: u64) -> Vec<DynSymbol> {
    vec![
        sym("", 0, 0, 0),
        sym("sgx_entry", 1, 0x400100, 0),
        sym("HEAP_BASE", 2, base, 8),
        sym("HEAP_SIZE", 2, base + 8, 8),
        sym("RELA", 2, base + 16, 8),
        sym("RELACOUNT", 2, base + 24, 8),
        sym("ENCLAVE_SIZE", 2, base + 32, 8),
    ]
}

fn load(flags: u32, addr: u64, size: u64, data: Vec<u8>) -> ProgramHeader {
    ProgramHeader {
        kind: SegmentKind::Load,
        flags,
        virtual_addr: addr,
        mem_size: size,
        data: SegmentData::Undefined(data),
    }
}

fn text() -> Vec<u8> {
    (0..0x1000u32).map(|i| (i % 253) as u8 | 1).collect()
}

fn data() -> Vec<u8> {
    (0..0x1000u32).map(|i| (i % 241) as u8 | 0x80).collect()
}

fn image(entries: Vec<DynEntry>, relas: Vec<Rela>) -> ElfImage {
    ElfImage {
        class: ElfClass::SixtyFour,
        sections: vec![
            Section { name: None, data: SectionData::Other },
            Section { name: Some(".dynsym".to_string()), data: SectionData::DynSymbolTable64(symbols_at(0x600040)) },
            Section { name: Some(".rela.dyn".to_string()), data: SectionData::Rela64(relas) },
        ],
        program_headers: vec![
            load(5, 0x400000, 0x1000, text()),
            load(6, 0x600000, 0x1000, data()),
            ProgramHeader {
                kind: SegmentKind::Dynamic,
                flags: 6,
                virtual_addr: 0x600800,
                mem_size: 0x40,
                data: SegmentData::Dynamic64(entries),
            },
        ],
    }
}

fn minimal() -> LayoutInfo {
    LayoutInfo::new(image(vec![DynEntry { tag: DynTag::Null, value: 0 }], vec![]), 1, 0x10000, 0x10000, false).unwrap()
}

fn relocated() -> LayoutInfo {
    LayoutInfo::new(
        image(
            vec![
                DynEntry { tag: DynTag::Rela, value: 0x600900 },
                DynEntry { tag: DynTag::OsSpecific(RELACOUNT), value: 1 },
            ],
            vec![Rela { offset: 0x600100, symbol_table_index: 0, rtype: 8 }],
        ),
        1,
        0x10000,
        0x10000,
        false,
    )
    .unwrap()
}

fn le64(x: u64) -> Vec<u8> {
    x.to_le_bytes().to_vec()
}

fn u64_at(bytes: &[u8], at: usize) -> u64 {
    let mut b = [0u8; 8];
    b.copy_from_slice(&bytes[at..at + 8]);
    u64::from_le_bytes(b)
}

fn u32_at(bytes: &[u8], at: usize) -> u32 {
    let mut b = [0u8; 4];
    b.copy_from_slice(&bytes[at..at + 4]);
    u32::from_le_bytes(b)
}

/// Reads a stream back: the opening record's size and frame size, and each
/// page's address, attributes and contents (none for a page without any).
fn parse(stream: &[u8]) -> ((u64, u32), Vec<(u64, u64, Option<Vec<u8>>)>) {
    assert_eq!(u64_at(stream, 0), ECREATE);
    let create = (u64_at(stream, 12), u32_at(stream, 8));
    let mut pages: Vec<(u64, u64, Option<Vec<u8>>)> = Vec::new();
    let mut at = 64;
    while at < stream.len() {
        let tag = u64_at(stream, at);
        if tag == EADD {
            pages.push((u64_at(stream, at + 8), u64_at(stream, at + 16), None));
            at += 64;
        } else {
            assert_eq!(tag, EEXTEND);
            let offset = u64_at(stream, at + 8);
            let page = pages.last_mut().unwrap();
            assert_eq!(offset & !0xfff, page.0);
            let chunk = &stream[at + 64..at + 64 + 256];
            let contents = page.2.get_or_insert_with(Vec::new);
            assert_eq!(contents.len() as u64, offset & 0xfff);
            contents.extend_from_slice(chunk);
            at += 64 + 256;
        }
    }
    (create, pages)
}

#[test]
fn minimal_image_address_map() {
    let l = minimal().layout().unwrap();
    assert_eq!(
        l,
        Layout {
            heap_addr: 0x601000,
            stack_addr: 0x621000,
            stack_tos: 0x631000,
            tls_addr: 0x631000,
            tcs_addr: 0x632000,
            ssa_addr: 0x633000,
            enclave_size: 0x800000,
        }
    );
}

#[test]
fn minimal_image_plan_lists_all_runs() {
    let (l, runs) = minimal().plan().unwrap();
    assert_eq!(l.enclave_size, 0x800000);
    assert_eq!(runs.len(), 7);
    let shape: Vec<(Option<u64>, usize, u64, bool, bool)> =
        runs.iter().map(|r| (r.address, r.pages, r.secinfo, r.single, r.data.is_some())).collect();
    assert_eq!(
        shape,
        vec![
            (Some(0x400000), 1, 0x205, false, true),
            (Some(0x600000), 1, 0x203, false, true),
            (Some(0x601000), 16, 0x203, false, false),
            (Some(0x621000), 16, 0x203, false, false),
            (Some(0x631000), 1, 0x203, false, true),
            (Some(0x632000), 1, 0x100, true, true),
            (None, 2, 0x203, false, false),
        ]
    );
    assert_eq!(runs[0].data, Some(text()));
    let mut tls = le64(0x631000);
    tls.resize(4096, 0);
    assert_eq!(runs[4].data, Some(tls));
}

#[test]
fn minimal_image_stream() {
    let mut out = Vec::new();
    minimal().write(&mut out).unwrap();
    let (create, pages) = parse(&out);
    assert_eq!(create, (0x800000, 1));
    let addresses: Vec<u64> = pages.iter().map(|p| p.0).collect();
    let mut expected = vec![0x400000u64, 0x600000];
    expected.extend((0..16).map(|i| 0x601000 + 0x1000 * i));
    expected.extend((0..16).map(|i| 0x621000 + 0x1000 * i));
    expected.extend([0x631000, 0x632000, 0x633000, 0x634000]);
    assert_eq!(addresses, expected);
    assert_eq!(pages[0].1, 0x205);
    assert_eq!(pages[0].2, Some(text()));
    assert_eq!(pages[1].1, 0x203);
    for p in &pages[2..34] {
        assert_eq!((p.1, &p.2), (0x203, &None));
    }
    let tls = pages[34].2.as_ref().unwrap();
    assert_eq!(pages[34].1, 0x203);
    assert_eq!(u64_at(tls, 0), 0x631000);
    assert!(tls[8..].iter().all(|b| *b == 0));
    assert_eq!(pages[35].1, 0x100);
    assert_eq!(pages[36], (0x633000, 0x203, None));
    assert_eq!(pages[37], (0x634000, 0x203, None));
}

#[test]
fn canonical_order_of_the_stream() {
    let mut out = Vec::new();
    relocated().write(&mut out).unwrap();
    let (_, pages) = parse(&out);
    for pair in pages.windows(2) {
        assert!(pair[0].0 < pair[1].0);
    }
    assert_eq!(pages[0].0, 0x400000);
}

#[test]
fn splices_without_relocations() {
    let mut out = Vec::new();
    minimal().write(&mut out).unwrap();
    let (_, pages) = parse(&out);
    let page = pages[1].2.as_ref().unwrap();
    assert_eq!(u64_at(page, 0x40), 0x601000);
    assert_eq!(u64_at(page, 0x48), 0x10000);
    assert_eq!(u64_at(page, 0x50), 0);
    assert_eq!(u64_at(page, 0x58), 0);
    assert_eq!(u64_at(page, 0x60), 0x800000);
    let plain = data();
    assert_eq!(&page[..0x40], &plain[..0x40]);
    assert_eq!(&page[0x68..], &plain[0x68..]);
}

#[test]
fn relocation_table_is_spliced() {
    let mut out = Vec::new();
    relocated().write(&mut out).unwrap();
    let (_, pages) = parse(&out);
    let page = pages[1].2.as_ref().unwrap();
    assert_eq!(u64_at(page, 0x50), 0x600900);
    assert_eq!(u64_at(page, 0x58), 1);
    assert_eq!(u64_at(page, 0x40), 0x601000);
    assert_eq!(u64_at(page, 0x48), 0x10000);
    assert_eq!(u64_at(page, 0x60), 0x800000);
}

#[test]
fn writing_twice_gives_the_same_bytes() {
    let mut a = Vec::new();
    let mut b = Vec::new();
    relocated().write(&mut a).unwrap();
    relocated().write(&mut b).unwrap();
    assert_eq!(a, b);
    let l = relocated();
    let mut c = Vec::new();
    l.write(&mut c).unwrap();
    let mut d = Vec::new();
    l.write(&mut d).unwrap();
    assert_eq!(c, d);
    assert_eq!(a, c);
}

#[test]
fn stream_follows_what_the_sink_holds() {
    let mut out = vec![1, 2, 3];
    minimal().write(&mut out).unwrap();
    let mut fresh = Vec::new();
    minimal().write(&mut fresh).unwrap();
    assert_eq!(&out[..3], &[1, 2, 3]);
    assert_eq!(&out[3..], &fresh[..]);
}

#[test]
fn stream_is_the_plan_handed_to_a_writer() {
    let l = relocated();
    let (map, runs) = l.plan().unwrap();
    let mut w = CanonicalWriter::new(Vec::new(), map.enclave_size, 1).unwrap();
    write_runs(&mut w, &runs).unwrap();
    assert_eq!(w.offset(), 0x635000);
    let mut out = Vec::new();
    l.write(&mut out).unwrap();
    assert_eq!(w.into_sink(), out);
}

#[test]
fn tcs_page_holds_the_thread_fields() {
    let mut out = Vec::new();
    minimal().write(&mut out).unwrap();
    let (_, pages) = parse(&out);
    let tcs = pages[35].2.as_ref().unwrap();
    assert_eq!(tcs.len(), 4096);
    assert_eq!(u64_at(tcs, 0), 0);
    assert_eq!(u64_at(tcs, 8), 0);
    assert_eq!(u64_at(tcs, 16), 0x633000);
    assert_eq!(u32_at(tcs, 24), 0);
    assert_eq!(u32_at(tcs, 28), 1);
    assert_eq!(u64_at(tcs, 32), 0x400100);
    assert_eq!(u64_at(tcs, 40), 0);
    assert_eq!(u64_at(tcs, 48), 0x631000);
    assert_eq!(u64_at(tcs, 56), 0x631000);
    assert_eq!(u32_at(tcs, 64), 0xfff);
    assert_eq!(u32_at(tcs, 68), 0xfff);
    assert!(tcs[72..].iter().all(|b| *b == 0));
}

#[test]
fn debug_asks_for_two_state_save_slots() {
    let l = LayoutInfo::new(image(vec![], vec![]), 1, 0x10000, 0x10000, true).unwrap();
    let (_, runs) = l.plan().unwrap();
    let tcs = runs[5].data.as_ref().unwrap();
    assert_eq!(u32_at(tcs, 28), 2);
    assert_eq!(runs[6].pages, 2);
}

#[test]
fn tcs_bytes_layout() {
    let tcs = tcs_bytes(0x1122334455667788, 0xa1b2c3d4, 0x0102030405060708, 0x1111, 0x2222, 0x33, 0x44);
    let mut expected = vec![0u8; 16];
    expected.extend(le64(0x1122334455667788));
    expected.extend([0u8; 4]);
    expected.extend(0xa1b2c3d4u32.to_le_bytes());
    expected.extend(le64(0x0102030405060708));
    expected.extend([0u8; 8]);
    expected.extend(le64(0x1111));
    expected.extend(le64(0x2222));
    expected.extend(0x33u32.to_le_bytes());
    expected.extend(0x44u32.to_le_bytes());
    expected.resize(4096, 0);
    assert_eq!(tcs, expected);
}

#[test]
fn page_attributes() {
    assert_eq!(secinfo_for_data(), 0x203);
    assert_eq!(secinfo_for_tcs(), 0x100);
    assert_eq!(secinfo_for_segment(0), 0x200);
    assert_eq!(secinfo_for_segment(4), 0x201);
    assert_eq!(secinfo_for_segment(2), 0x202);
    assert_eq!(secinfo_for_segment(1), 0x204);
    assert_eq!(secinfo_for_segment(5), 0x205);
    assert_eq!(secinfo_for_segment(6), 0x203);
    assert_eq!(secinfo_for_segment(7), 0x207);
    assert_eq!(secinfo_for_segment(0xfff0_0007), 0x207);
}

#[test]
fn frame_size_scales_the_state_save_area() {
    let l = LayoutInfo::new(image(vec![], vec![]), 3, 0x2000, 0x1000, false).unwrap();
    let (map, runs) = l.plan().unwrap();
    assert_eq!(map.heap_addr, 0x601000);
    assert_eq!(map.stack_addr, 0x601000 + 0x2000 + 0x10000);
    assert_eq!(map.stack_tos, map.stack_addr + 0x1000);
    assert_eq!(map.tcs_addr, map.tls_addr + 0x1000);
    assert_eq!(map.ssa_addr, map.tcs_addr + 0x1000);
    assert_eq!(runs[2].pages, 2);
    assert_eq!(runs[3].pages, 1);
    assert_eq!(runs[6].pages, 6);
    assert_eq!(map.enclave_size, 0x800000);
    let mut out = Vec::new();
    l.write(&mut out).unwrap();
    let (create, pages) = parse(&out);
    assert_eq!(create, (0x800000, 3));
    assert_eq!(pages.last().unwrap().0, map.ssa_addr + 5 * 0x1000);
}

#[test]
fn no_loadable_segment() {
    let mut elf = image(vec![], vec![]);
    elf.program_headers.remove(0);
    elf.program_headers.remove(0);
    elf.sections[1].data = SectionData::DynSymbolTable64(symbols_at(0x600040));
    let l = LayoutInfo::new(elf, 1, 0x1000, 0x1000, false).unwrap();
    assert_eq!(l.layout(), Err(Error::NoLoadableSegments));
    assert_eq!(l.plan().err(), Some(Error::NoLoadableSegments));
    let mut out = vec![9];
    assert_eq!(l.write(&mut out), Err(Error::NoLoadableSegments));
    assert_eq!(out, vec![9]);
}

#[test]
fn enclave_end_at_two_to_the_53_is_too_big() {
    let mut elf = image(vec![], vec![]);
    // The last page ends exactly at 2^53.
    let heap = (1u64 << 53) - 0x601000 - 0x10000 - 0x1000 - 0x4000;
    let l = LayoutInfo::new(elf, 1, heap, 0x1000, false).unwrap();
    assert_eq!(l.layout(), Err(Error::EnclaveSizeTooBig));
    let mut out = Vec::new();
    assert_eq!(l.write(&mut out), Err(Error::EnclaveSizeTooBig));
    assert!(out.is_empty());
    elf = image(vec![], vec![]);
    let l = LayoutInfo::new(elf, 1, heap - 0x1000, 0x1000, false).unwrap();
    assert_eq!(l.layout().unwrap().enclave_size, 1 << 53);
}

#[test]
fn segments_out_of_address_order_are_refused_by_the_stream() {
    let mut elf = image(vec![], vec![]);
    elf.program_headers.swap(0, 1);
    let l = LayoutInfo::new(elf, 1, 0x1000, 0x1000, false).unwrap();
    let mut out = Vec::new();
    assert_eq!(l.write(&mut out), Err(Error::Sgxs(SgxsError::StreamNotCanonical)));
    let (_, pages) = parse(&out);
    assert_eq!(pages.len(), 1);
    assert_eq!(pages[0].0, 0x600000);
}

#[test]
fn segment_that_starts_inside_a_page_is_zero_filled() {
    let mut queue = SpliceQueue::new(&vec![Splice { addr: 0x400808, value: 0x0807060504030201 }]);
    let image = splice_segment(0x400800, 0x900, &vec![0xEE; 0x20], &mut queue);
    assert_eq!(image.len(), 0x2000);
    assert!(image[..0x800].iter().all(|b| *b == 0));
    assert_eq!(&image[0x800..0x808], &[0xEE; 8]);
    assert_eq!(&image[0x808..0x810], &[1, 2, 3, 4, 5, 6, 7, 8]);
    assert_eq!(&image[0x810..0x820], &[0xEE; 16]);
    assert!(image[0x820..].iter().all(|b| *b == 0));
    assert_eq!(queue.peek(), None);
}

#[test]
fn splice_in_the_zero_fill_before_the_segment() {
    let mut queue = SpliceQueue::new(&vec![Splice { addr: 0x400000, value: 0xAABB }]);
    let image = splice_segment(0x400010, 0x10, &vec![7; 0x10], &mut queue);
    assert_eq!(image.len(), 0x1000);
    assert_eq!(&image[..8], &[0xBB, 0xAA, 0, 0, 0, 0, 0, 0]);
    assert_eq!(&image[8..0x10], &[0; 8]);
    assert_eq!(&image[0x10..0x20], &[7; 0x10]);
}

#[test]
fn splice_must_end_inside_the_segment() {
    let list = vec![Splice { addr: 0x400ff8, value: 1 }, Splice { addr: 0x400ff9, value: 2 }];
    let mut queue = SpliceQueue::new(&list);
    let image = splice_segment(0x400000, 0x1000, &vec![0xCC; 0x1000], &mut queue);
    assert_eq!(&image[0xff8..], &[1, 0, 0, 0, 0, 0, 0, 0]);
    assert_eq!(queue.peek().map(|s| s.addr), Some(0x400ff9));
}

#[test]
fn splice_below_the_segment_blocks_the_queue() {
    let list = vec![Splice { addr: 0x400010, value: 1 }, Splice { addr: 0x300000, value: 2 }];
    let mut queue = SpliceQueue::new(&list);
    let image = splice_segment(0x400000, 0x1000, &vec![0xCC; 0x1000], &mut queue);
    assert!(image.iter().all(|b| *b == 0xCC));
    assert_eq!(queue.peek().map(|s| s.addr), Some(0x300000));
}

#[test]
fn splices_are_sorted_by_address() {
    let list = vec![
        Splice { addr: 30, value: 1 },
        Splice { addr: 10, value: 2 },
        Splice { addr: 20, value: 3 },
        Splice { addr: 10, value: 4 },
        Splice { addr: 5, value: 5 },
    ];
    let sorted = sort_splices(&list);
    let pairs: Vec<(u64, u64)> = sorted.iter().map(|s| (s.addr, s.value)).collect();
    assert_eq!(pairs, vec![(5, 5), (10, 2), (10, 4), (20, 3), (30, 1)]);
}

#[test]
fn splices_are_equal_by_address() {
    assert_eq!(Splice { addr: 8, value: 1 }, Splice { addr: 8, value: 2 });
    assert_ne!(Splice { addr: 8, value: 1 }, Splice { addr: 16, value: 1 });
}

#[test]
fn queue_moves_forward_only() {
    let mut queue = SpliceQueue::new(&vec![Splice { addr: 2, value: 20 }, Splice { addr: 1, value: 10 }]);
    assert_eq!(queue.peek().map(|s| (s.addr, s.value)), Some((1, 10)));
    assert_eq!(queue.peek().map(|s| (s.addr, s.value)), Some((1, 10)));
    queue.advance();
    assert_eq!(queue.peek().map(|s| (s.addr, s.value)), Some((2, 20)));
    queue.advance();
    assert_eq!(queue.peek(), None);
}

#[test]
fn segment_bytes_beyond_memory_size_fill_the_last_page() {
    let mut queue = SpliceQueue::new(&vec![]);
    let image = splice_segment(0x1000, 0x10, &vec![5; 0x1800], &mut queue);
    assert_eq!(image.len(), 0x1000);
    assert!(image.iter().all(|b| *b == 5));
}

#[test]
fn write_elf_segments_writes_only_the_segments() {
    let l = minimal();
    let mut w = CanonicalWriter::new(Vec::new(), 0x800000, 1).unwrap();
    l.write_elf_segments(&mut w, 0x601000, 0x800000).unwrap();
    assert_eq!(w.offset(), 0x601000);
    let runs = l.segment_page_runs(0x601000, 0x800000);
    assert_eq!(runs.len(), 2);
    let (_, pages) = parse(&w.into_sink());
    assert_eq!(pages.len(), 2);
    assert_eq!(pages[1].2.as_ref(), runs[1].data.as_ref());
    assert_eq!(u64_at(pages[1].2.as_ref().unwrap(), 0x40), 0x601000);
}

#[test]
fn runs_refused_by_the_stream_leave_earlier_runs_written() {
    let runs = vec![
        PageRun { data: None, pages: 2, address: Some(0x2000), secinfo: 0x203, single: false },
        PageRun { data: None, pages: 1, address: Some(0x3000), secinfo: 0x203, single: false },
        PageRun { data: None, pages: 1, address: Some(0x9000), secinfo: 0x203, single: false },
    ];
    let mut w = CanonicalWriter::new(Vec::new(), 0x10000, 1).unwrap();
    assert_eq!(write_runs(&mut w, &runs), Err(SgxsError::StreamNotCanonical));
    assert_eq!(w.offset(), 0x4000);
    assert_eq!(w.into_sink().len(), 64 * 3);
    let runs = vec![PageRun { data: None, pages: 1, address: Some(0x2100), secinfo: 0x203, single: true }];
    let mut w = CanonicalWriter::new(Vec::new(), 0x10000, 1).unwrap();
    assert_eq!(write_runs(&mut w, &runs), Err(SgxsError::InvalidPageOffset));
}

#[test]
fn splices_are_ordered_by_address() {
    assert!(Splice { addr: 8, value: 9 } < Splice { addr: 16, value: 1 });
    assert!(Splice { addr: 16, value: 1 } > Splice { addr: 8, value: 9 });
    assert!(Splice { addr: 8, value: 1 } <= Splice { addr: 8, value: 2 });
    assert!(Splice { addr: 8, value: 2 } >= Splice { addr: 8, value: 1 });
}

#[test]
fn every_splice_is_taken_where_symbols_lie_in_segments() {
    assert_eq!(minimal().all_spliced(), Ok(true));
    assert_eq!(relocated().all_spliced(), Ok(true));
}

#[test]
fn splice_outside_every_segment_is_left_over() {
    let mut elf = image(vec![], vec![]);
    let mut symbols = symbols_at(0x600040);
    symbols[4].value = 0x700000;
    elf.sections[1].data = SectionData::DynSymbolTable64(symbols);
    let l = LayoutInfo::new(elf, 1, 0x1000, 0x1000, false).unwrap();
    assert_eq!(l.all_spliced(), Ok(false));
    let mut out = Vec::new();
    l.write(&mut out).unwrap();
    let (_, pages) = parse(&out);
    let page = pages[1].2.as_ref().unwrap();
    assert_eq!(u64_at(page, 0x40), 0x601000);
    assert_eq!(u64_at(page, 0x48), 0x1000);
    assert_eq!(u64_at(page, 0x58), 0);
    assert_eq!(&page[0x50..0x58], &data()[0x50..0x58]);
}

#[test]
fn splice_below_a_later_segment_blocks_the_rest() {
    let mut elf = image(vec![], vec![]);
    let mut symbols = symbols_at(0x600040);
    symbols[2].value = 0x400800;
    elf.sections[1].data = SectionData::DynSymbolTable64(symbols);
    elf.program_headers.swap(0, 1);
    let l = LayoutInfo::new(elf, 1, 0x1000, 0x1000, false).unwrap();
    assert_eq!(l.all_spliced(), Ok(false));
    let runs = l.segment_page_runs(0x601000, 0x800000);
    assert_eq!(runs[0].data, Some(data()));
    let spliced = runs[1].data.as_ref().unwrap();
    assert_eq!(u64_at(spliced, 0x800), 0x601000);
    assert_eq!(&spliced[..0x800], &text()[..0x800]);
    assert_eq!(&spliced[0x808..], &text()[0x808..]);
    let mut elf = image(vec![], vec![]);
    elf.program_headers.remove(0);
    elf.program_headers.remove(0);
    let l = LayoutInfo::new(elf, 1, 0x1000, 0x1000, false).unwrap();
    assert_eq!(l.all_spliced(), Err(Error::NoLoadableSegments));
}

#[test]
fn permissions_of_a_program_header() {
    let h = load(5, 0x1000, 0x10, vec![]);
    assert!(h.loadable() && h.readable() && h.executable() && !h.writable());
    let h = load(2, 0x1000, 0x10, vec![]);
    assert!(!h.readable() && !h.executable() && h.writable());
    let h = ProgramHeader {
        kind: SegmentKind::Other,
        flags: 7,
        virtual_addr: 0,
        mem_size: 0,
        data: SegmentData::Other,
    };
    assert!(!h.loadable() && h.readable() && h.executable() && h.writable());
}

#[test]
fn tcs_bytes_are_those_of_the_hardware_structure() {
    let tcs = sgx_isa::Tcs {
        ossa: 0x633000,
        nssa: 2,
        oentry: 0x400100,
        ofsbasgx: 0x631000,
        ogsbasgx: 0x631000,
        fslimit: 0xfff,
        gslimit: 0xfff,
        ..Default::default()
    };
    let expected: &[u8] = tcs.as_ref();
    assert_eq!(tcs_bytes(0x633000, 2, 0x400100, 0x631000, 0x631000, 0xfff, 0xfff), expected);
}

#[test]
fn spliced_values_stand_at_their_places_in_the_stream() {
    let mut out = Vec::new();
    minimal().write(&mut out).unwrap();
    // The opening record, the records of the first segment's one page, the
    // record that adds the second segment's page and the head of its first
    // chunk stand before the bytes of that page.
    let page = 64 + 5184 + 64 + 64;
    assert_eq!(u64_at(&out, page + 0x40), 0x601000);
    assert_eq!(u64_at(&out, page + 0x48), 0x10000);
    assert_eq!(&out[page + 0x50..page + 0x60], &[0u8; 16]);
    assert_eq!(u64_at(&out, page + 0x60), 0x800000);
    // Bytes of the second chunk stand behind the head of its record.
    assert_eq!(out[page + 256 + 64], data()[256]);
}

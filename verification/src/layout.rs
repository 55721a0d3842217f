//! The enclave's address map and the pages that make up its image.

use vstd::prelude::*;
use vstd::bytes::{spec_u64_to_le_bytes, u64_to_le_bytes};
use crate::addr::{
    align_page, enclave_size, is_power_of_two, lemma_enclave_size_law, next_power_of_two,
    page_base, size_align_page_size, ENCLAVE_SIZE_LIMIT,
};
use crate::dynamic::{check_dynamic, dynamic_outcome, lemma_dynamic_outcome_unique, Dynamic};
use crate::elf::{
    flags_executable, flags_readable, flags_writable, ElfClass, ElfImage, ProgramHeader,
    SegmentData,
};
use crate::error::{same_error, same_result, Error, SgxsError};
use crate::relocs::{
    all_relas, announced, check_relocs, lemma_relocs_outcome_unique, relocs_outcome,
};
use crate::sgx::{
    data_secinfo, lemma_fixed_secinfo, lemma_segment_secinfo, push_zeros, secinfo_executable,
    secinfo_for_data, secinfo_for_segment, secinfo_for_tcs, secinfo_page_type, secinfo_readable,
    secinfo_writable, segment_secinfo, tcs_bytes, tcs_layout, zeros, SECINFO_TCS,
};
use crate::splice::{
    apart, lemma_sorted_apart, lemma_sorted_members, lemma_splice_fidelity, lemma_stable_sorted,
    lemma_spliced_len, lemma_taken_end, plain_image, segment_image,
    skip_segment, sorted, splice_segment, stable_sorted, taken_end, takes, Splice, SpliceQueue,
};
use crate::stream::{
    canonical, cursor_after, ecreate_record, lemma_canonical_order, lemma_cursor_ascends,
    lemma_ecreate_record_len, lemma_run_data_in_stream, lemma_run_fits, lemma_runs_concat,
    page_address, place_in_records, runs_fit, stream_of, views, write_runs,
    CanonicalWriter, PageRun, RunView,
};
use crate::symbols::{check_symbols, lemma_symbols_outcome_unique, symbols_outcome, Symbols};

verus! {

/// Bytes left unmapped between heap and stack.
pub const STACK_GUARD: u64 = 0x10000;

/// Limit of the two segment registers that the thread control structure sets.
pub const SEGMENT_LIMIT: u32 = 0xfff;

/// The addresses of an enclave's parts.
#[derive(Debug, Clone, Copy, PartialEq, Eq)]
pub struct Layout {
    pub heap_addr: u64,
    pub stack_addr: u64,
    pub stack_tos: u64,
    pub tls_addr: u64,
    pub tcs_addr: u64,
    pub ssa_addr: u64,
    pub enclave_size: u64,
}

/// Some program header is loadable.
pub open spec fn has_load(headers: Seq<ProgramHeader>) -> bool {
    exists|i: int| 0 <= i < headers.len() && (#[trigger] headers[i]).is_load()
}

/// `m` is the highest end of a loadable segment.
pub open spec fn is_load_end(headers: Seq<ProgramHeader>, m: int) -> bool {
    &&& exists|i: int|
        0 <= i < headers.len() && (#[trigger] headers[i]).is_load() && headers[i].end() == m
    &&& forall|i: int|
        0 <= i < headers.len() && (#[trigger] headers[i]).is_load() ==> headers[i].end() <= m
}

/// Where the enclave ends, if its loadable segments end at `load_end`: behind
/// the heap, the guard, the stack, one page for thread-local data, one for
/// the thread control structure and two state-save-area frames.
pub open spec fn enclave_end(load_end: int, heap_size: int, stack_size: int, ssaframesize: int) -> int {
    align_page(load_end) + heap_size + STACK_GUARD + stack_size + 0x1000 + 0x1000 + 2
        * ssaframesize * 0x1000
}

/// An enclave that ends at `end` is refused: it reaches 2^53, or its bytes
/// cannot be counted on this machine.
pub open spec fn too_big(end: int) -> bool {
    end >= ENCLAVE_SIZE_LIMIT || end > usize::MAX
}

/// The highest end of a loadable segment.
pub open spec fn load_end(headers: Seq<ProgramHeader>) -> int {
    choose|m: int| is_load_end(headers, m)
}

/// `m` is the highest end of a loadable segment among the first `n` program
/// headers.
pub open spec fn is_load_end_upto(headers: Seq<ProgramHeader>, n: int, m: int) -> bool {
    &&& exists|i: int| 0 <= i < n && (#[trigger] headers[i]).is_load() && headers[i].end() == m
    &&& forall|i: int| 0 <= i < n && (#[trigger] headers[i]).is_load() ==> headers[i].end() <= m
}

/// Where one of the first `n` program headers is loadable, there is a
/// highest end among them.
pub proof fn lemma_load_end_upto(headers: Seq<ProgramHeader>, n: int) -> (m: int)
    requires
        0 <= n <= headers.len(),
        exists|i: int| 0 <= i < n && (#[trigger] headers[i]).is_load(),
    ensures
        is_load_end_upto(headers, n, m),
    decreases n,
{
    let last = headers[n - 1];
    if exists|i: int| 0 <= i < n - 1 && (#[trigger] headers[i]).is_load() {
        let before = lemma_load_end_upto(headers, n - 1);
        let at = choose|i: int|
            0 <= i < n - 1 && (#[trigger] headers[i]).is_load() && headers[i].end() == before;
        if last.is_load() && last.end() > before {
            assert(headers[n - 1].is_load() && headers[n - 1].end() == last.end());
            last.end()
        } else {
            assert(headers[at].is_load() && headers[at].end() == before);
            before
        }
    } else {
        assert(headers[n - 1].is_load() && headers[n - 1].end() == last.end());
        last.end()
    }
}

/// Where a program header is loadable, `load_end` is the highest end of the
/// loadable segments.
pub proof fn lemma_load_end(headers: Seq<ProgramHeader>)
    requires
        has_load(headers),
    ensures
        is_load_end(headers, load_end(headers)),
{
    let m = lemma_load_end_upto(headers, headers.len() as int);
    assert(is_load_end(headers, m));
}

/// There is one highest end of the loadable segments.
pub proof fn lemma_load_end_unique(headers: Seq<ProgramHeader>, m: int)
    requires
        is_load_end(headers, m),
    ensures
        load_end(headers) == m,
{
    let n = load_end(headers);
    assert(is_load_end(headers, n));
}

/// The address map of an enclave whose loadable segments end at `load_end`:
/// the heap on the next page, the stack behind heap and guard, the page for
/// thread-local data at the top of the stack, then the thread control
/// structure and the state-save area; its size is the least power of two
/// that holds all of them.
pub open spec fn map_for(load_end: int, heap_size: int, stack_size: int, ssaframesize: int) -> Layout {
    let heap_addr = align_page(load_end);
    let stack_addr = heap_addr + heap_size + STACK_GUARD;
    let stack_tos = stack_addr + stack_size;
    Layout {
        heap_addr: heap_addr as u64,
        stack_addr: stack_addr as u64,
        stack_tos: stack_tos as u64,
        tls_addr: stack_tos as u64,
        tcs_addr: (stack_tos + 0x1000) as u64,
        ssa_addr: (stack_tos + 0x2000) as u64,
        enclave_size: next_power_of_two(
            enclave_end(load_end, heap_size, stack_size, ssaframesize) as nat,
        ) as u64,
    }
}

/// What the computation of the address map yields.
///
/// Without a loadable segment it is `NoLoadableSegments`; where the enclave
/// would be too big it is `EnclaveSizeTooBig`; otherwise it is the map.
pub open spec fn layout_outcome(
    headers: Seq<ProgramHeader>,
    heap_size: int,
    stack_size: int,
    ssaframesize: int,
    r: Result<Layout, Error>,
) -> bool {
    let end = enclave_end(load_end(headers), heap_size, stack_size, ssaframesize);
    if !has_load(headers) {
        r == Err::<Layout, Error>(Error::NoLoadableSegments)
    } else if too_big(end) {
        r == Err::<Layout, Error>(Error::EnclaveSizeTooBig)
    } else {
        r == Ok::<Layout, Error>(map_for(load_end(headers), heap_size, stack_size, ssaframesize))
    }
}

/// The sizes are such as an enclave can have: heap and stack are whole
/// pages, at least one each, and a state-save-area frame has a page or more.
pub open spec fn config_ok(ssaframesize: u32, heap_size: u64, stack_size: u64) -> bool {
    &&& ssaframesize > 0
    &&& heap_size > 0
    &&& heap_size % 0x1000 == 0
    &&& stack_size > 0
    &&& stack_size % 0x1000 == 0
}

/// The image is refused with error `e`.
///
/// An image of another class than the 64-bit one gives `ElfClassNot64`. Then
/// the symbols decide, then the dynamic section, then the relocations; the
/// first of them that fails gives the error.
pub open spec fn refusal(elf: &ElfImage, e: Error) -> bool {
    if elf.class != ElfClass::SixtyFour {
        e == Error::ElfClassNot64
    } else {
        ||| symbols_outcome(elf, Err(e))
        ||| exists|s: Symbols| #[trigger]
            symbols_outcome(elf, Ok(s)) && dynamic_outcome(elf, Err(e))
        ||| exists|s: Symbols, d: Option<Dynamic>| #[trigger]
            symbols_outcome(elf, Ok(s)) && #[trigger] dynamic_outcome(elf, Ok(d)) && relocs_outcome(
                elf,
                d,
                Err(e),
            )
    }
}

/// The five splices of an enclave, in the order of their symbols: start and
/// size of the heap, address and number of the relocations, size of the
/// enclave.
pub open spec fn splice_list(
    sym: Symbols,
    dynamic: Option<Dynamic>,
    heap_addr: u64,
    heap_size: u64,
    enclave_size: u64,
) -> Seq<Splice> {
    seq![
        Splice { addr: sym.heap_base.value, value: heap_addr },
        Splice { addr: sym.heap_size.value, value: heap_size },
        Splice {
            addr: sym.rela.value,
            value: match dynamic {
                Some(d) => d.rela,
                None => 0,
            },
        },
        Splice { addr: sym.relacount.value, value: announced(dynamic) },
        Splice { addr: sym.enclave_size.value, value: enclave_size },
    ]
}

/// Every loadable segment ends where this machine can still count bytes.
pub open spec fn segments_fit(headers: Seq<ProgramHeader>) -> bool {
    forall|i: int|
        0 <= i < headers.len() && (#[trigger] headers[i]).is_load() ==> headers[i].end() + 0xfff
            <= usize::MAX
}

/// How many splices have left the queue `q` when the first `n` program
/// headers are done: each loadable segment takes splices from where the one
/// before it has stopped.
pub open spec fn queue_after(headers: Seq<ProgramHeader>, q: Seq<Splice>, n: int) -> int
    decreases n,
{
    if n <= 0 {
        0
    } else {
        let before = queue_after(headers, q, n - 1);
        let h = headers[n - 1];
        if h.is_load() {
            taken_end(q, before, page_base(h.virtual_addr as int), h.end())
        } else {
            before
        }
    }
}

/// The pages of a loadable segment: from the page that holds its start to
/// the page that holds its end, with the segment's permissions, and with the
/// splices that it takes from splice `from` on.
pub open spec fn segment_run(h: ProgramHeader, q: Seq<Splice>, from: int) -> RunView {
    RunView {
        data: Some(
            segment_image(h.virtual_addr as int, h.mem_size as int, h.bytes(), q, from),
        ),
        pages: (align_page(h.end() - page_base(h.virtual_addr as int)) / 0x1000) as usize,
        address: Some(page_base(h.virtual_addr as int) as u64),
        secinfo: segment_secinfo(h.flags),
        single: false,
    }
}

/// The pages of the loadable segments among the first `n` program headers,
/// in file order.
pub open spec fn segment_runs_upto(headers: Seq<ProgramHeader>, q: Seq<Splice>, n: int) -> Seq<RunView>
    decreases n,
{
    if n <= 0 {
        Seq::empty()
    } else {
        let before = segment_runs_upto(headers, q, n - 1);
        if headers[n - 1].is_load() {
            before.push(segment_run(headers[n - 1], q, queue_after(headers, q, n - 1)))
        } else {
            before
        }
    }
}

/// Bytes in the page for thread-local data.
pub const TLS_SIZE: usize = 4096;

/// The bytes of the page for thread-local data: the top of the stack in the
/// first eight bytes, in little-endian order, and zero in all others.
pub open spec fn tls_bytes(stack_tos: u64) -> Seq<u8> {
    spec_u64_to_le_bytes(stack_tos) + zeros(4088)
}

/// Number of state-save-area frames that the thread control structure
/// announces.
pub open spec fn nssa(debug: bool) -> u32 {
    if debug {
        2
    } else {
        1
    }
}

/// The pages behind the loadable segments: heap and stack without
/// contents, the page for thread-local data, the thread control structure,
/// and the state-save area right behind it.
pub open spec fn runtime_runs_for(
    l: Layout,
    heap_size: u64,
    stack_size: u64,
    ssaframesize: u32,
    debug: bool,
    entry: u64,
) -> Seq<RunView> {
    seq![
        RunView {
            data: None,
            pages: (heap_size / 0x1000) as usize,
            address: Some(l.heap_addr),
            secinfo: data_secinfo(),
            single: false,
        },
        RunView {
            data: None,
            pages: (stack_size / 0x1000) as usize,
            address: Some(l.stack_addr),
            secinfo: data_secinfo(),
            single: false,
        },
        RunView {
            data: Some(tls_bytes(l.stack_tos)),
            pages: 1,
            address: Some(l.tls_addr),
            secinfo: data_secinfo(),
            single: false,
        },
        RunView {
            data: Some(
                tcs_layout(
                    (l.tcs_addr + 0x1000) as u64,
                    nssa(debug),
                    entry,
                    l.tls_addr,
                    l.stack_tos,
                    SEGMENT_LIMIT,
                    SEGMENT_LIMIT,
                ),
            ),
            pages: 1,
            address: Some(l.tcs_addr),
            secinfo: SECINFO_TCS,
            single: true,
        },
        RunView {
            data: None,
            pages: (2 * ssaframesize) as usize,
            address: None,
            secinfo: data_secinfo(),
            single: false,
        },
    ]
}

/// Every run of the loadable segments has an address on a page boundary,
/// is a row of pages, and ends where this machine can still count bytes.
pub proof fn lemma_segment_runs_bounded(headers: Seq<ProgramHeader>, q: Seq<Splice>, n: int)
    requires
        segments_fit(headers),
        0 <= n <= headers.len(),
    ensures
        forall|k: int|
            0 <= k < segment_runs_upto(headers, q, n).len() ==> {
                let run = #[trigger] segment_runs_upto(headers, q, n)[k];
                &&& run.address matches Some(o) && o % 4096 == 0 && o + 4096 * run.pages
                    <= usize::MAX
                &&& !run.single
            },
    decreases n,
{
    if n > 0 {
        lemma_segment_runs_bounded(headers, q, n - 1);
        let h = headers[n - 1];
        if h.is_load() {
            let run = segment_run(h, q, queue_after(headers, q, n - 1));
            let base = page_base(h.virtual_addr as int);
            let span = align_page(h.end() - base);
            assert(h.end() + 0xfff <= usize::MAX);
            assert(base % 4096 == 0 && base <= h.virtual_addr && span % 4096 == 0 && span
                <= h.end() - base + 0xfff);
            assert(run.address == Some(base as u64));
            assert(run.pages == span / 0x1000);
            assert(4096 * run.pages == span);
        }
    }
}

/// The run of a loadable segment has an address on a page boundary.
pub proof fn lemma_segment_run_aligned(headers: Seq<ProgramHeader>, q: Seq<Splice>, k: int)
    requires
        segments_fit(headers),
        0 <= k < segment_runs_upto(headers, q, headers.len() as int).len(),
    ensures
        segment_runs_upto(headers, q, headers.len() as int)[k].address matches Some(o) && o % 4096
            == 0,
{
    lemma_segment_runs_bounded(headers, q, headers.len() as int);
}

/// The runs of the loadable segments can be handed to a stream at any
/// cursor.
pub proof fn lemma_segment_runs_fit(
    headers: Seq<ProgramHeader>,
    q: Seq<Splice>,
    cursor: int,
)
    requires
        segments_fit(headers),
    ensures
        runs_fit(cursor, segment_runs_upto(headers, q, headers.len() as int)),
{
    lemma_segment_runs_bounded(headers, q, headers.len() as int);
}

/// Number of loadable segments among the first `n` program headers.
pub open spec fn loadable_before(headers: Seq<ProgramHeader>, n: int) -> int
    decreases n,
{
    if n <= 0 {
        0
    } else if headers[n - 1].is_load() {
        loadable_before(headers, n - 1) + 1
    } else {
        loadable_before(headers, n - 1)
    }
}

/// The loadable segments among the first `n` program headers have one run
/// each, in file order: the run of segment `i` stands where as many runs
/// stand before it as loadable segments stand before segment `i`.
pub proof fn lemma_segment_run_at(headers: Seq<ProgramHeader>, q: Seq<Splice>, n: int, i: int)
    requires
        0 <= i < n <= headers.len(),
        headers[i].is_load(),
    ensures
        segment_runs_upto(headers, q, n).len() == loadable_before(headers, n),
        0 <= loadable_before(headers, i) < loadable_before(headers, n),
        segment_runs_upto(headers, q, n)[loadable_before(headers, i)] == segment_run(
            headers[i],
            q,
            queue_after(headers, q, i),
        ),
    decreases n,
{
    lemma_segment_run_count(headers, q, n - 1);
    lemma_segment_run_count(headers, q, i);
    if i < n - 1 {
        lemma_segment_run_at(headers, q, n - 1, i);
    }
}

/// There are as many runs as loadable segments.
pub proof fn lemma_segment_run_count(headers: Seq<ProgramHeader>, q: Seq<Splice>, n: int)
    requires
        0 <= n <= headers.len(),
    ensures
        segment_runs_upto(headers, q, n).len() == loadable_before(headers, n),
        loadable_before(headers, n) >= 0,
    decreases n,
{
    if n > 0 {
        lemma_segment_run_count(headers, q, n - 1);
    }
}

/// Every run of the loadable segments is the run of one of them.
pub proof fn lemma_run_origin(headers: Seq<ProgramHeader>, q: Seq<Splice>, n: int, k: int) -> (i:
    int)
    requires
        0 <= n <= headers.len(),
        0 <= k < segment_runs_upto(headers, q, n).len(),
    ensures
        0 <= i < n,
        headers[i].is_load(),
        loadable_before(headers, i) == k,
    decreases n,
{
    lemma_segment_run_count(headers, q, n - 1);
    if headers[n - 1].is_load() && k == segment_runs_upto(headers, q, n - 1).len() {
        n - 1
    } else {
        lemma_run_origin(headers, q, n - 1, k)
    }
}

/// The number of splices that have left the queue lies inside the queue and
/// does not go down from one program header to the next.
pub proof fn lemma_queue_bounded(headers: Seq<ProgramHeader>, q: Seq<Splice>, n: int)
    requires
        0 <= n < headers.len(),
    ensures
        0 <= queue_after(headers, q, n) <= queue_after(headers, q, n + 1) <= q.len(),
    decreases n,
{
    if n > 0 {
        lemma_queue_bounded(headers, q, n - 1);
    }
    let before = queue_after(headers, q, n);
    let h = headers[n];
    if h.is_load() {
        lemma_taken_end(q, before, page_base(h.virtual_addr as int), h.end());
    }
}

/// An image is refused for one reason.
pub proof fn lemma_refusal_unique(elf: &ElfImage, a: Error, b: Error)
    requires
        refusal(elf, a),
        refusal(elf, b),
    ensures
        same_error(a, b),
{
    if elf.class == ElfClass::SixtyFour {
        assert forall|x: Result<Symbols, Error>, y: Result<Symbols, Error>| #[trigger]
            symbols_outcome(elf, x) && #[trigger] symbols_outcome(elf, y) implies same_result(
            x,
            y,
        ) by {
            lemma_symbols_outcome_unique(elf, x, y);
        }
        assert forall|x: Result<Option<Dynamic>, Error>, y: Result<Option<Dynamic>, Error>|
         #[trigger]
            dynamic_outcome(elf, x) && #[trigger] dynamic_outcome(elf, y) implies same_result(
            x,
            y,
        ) by {
            lemma_dynamic_outcome_unique(elf, x, y);
        }
        assert forall|d: Option<Dynamic>, x: Result<(), Error>, y: Result<(), Error>| #[trigger]
            relocs_outcome(elf, d, x) && #[trigger] relocs_outcome(elf, d, y) implies same_result(
            x,
            y,
        ) by {
            lemma_relocs_outcome_unique(elf, d, x, y);
        }
    }
}

/// A validated image is not refused for any reason; so an image that is
/// refused has no validated form from which anything could be written.
pub proof fn lemma_valid_not_refused(l: LayoutInfo, e: Error)
    requires
        l.valid(),
    ensures
        !refusal(&l.image(), e),
{
    let elf = &l.image();
    assert forall|x: Result<Symbols, Error>, y: Result<Symbols, Error>| #[trigger]
        symbols_outcome(elf, x) && #[trigger] symbols_outcome(elf, y) implies same_result(
        x,
        y,
    ) by {
        lemma_symbols_outcome_unique(elf, x, y);
    }
    assert forall|x: Result<Option<Dynamic>, Error>, y: Result<Option<Dynamic>, Error>| #[trigger]
        dynamic_outcome(elf, x) && #[trigger] dynamic_outcome(elf, y) implies same_result(
        x,
        y,
    ) by {
        lemma_dynamic_outcome_unique(elf, x, y);
    }
    assert forall|d: Option<Dynamic>, x: Result<(), Error>, y: Result<(), Error>| #[trigger]
        relocs_outcome(elf, d, x) && #[trigger] relocs_outcome(elf, d, y) implies same_result(
        x,
        y,
    ) by {
        lemma_relocs_outcome_unique(elf, d, x, y);
    }
}

/// No run of the loadable segments ends behind the page on which the
/// highest of them ends.
pub proof fn lemma_segment_runs_end(
    headers: Seq<ProgramHeader>,
    q: Seq<Splice>,
    n: int,
    cursor: int,
)
    requires
        segments_fit(headers),
        has_load(headers),
        0 <= n <= headers.len(),
        0 <= cursor <= align_page(load_end(headers)),
    ensures
        0 <= cursor_after(cursor, segment_runs_upto(headers, q, n)) <= align_page(
            load_end(headers),
        ),
    decreases n,
{
    if n > 0 {
        lemma_segment_runs_end(headers, q, n - 1, cursor);
        lemma_segment_runs_bounded(headers, q, n);
        lemma_load_end(headers);
        let h = headers[n - 1];
        if h.is_load() {
            let runs = segment_runs_upto(headers, q, n);
            let run = segment_run(h, q, queue_after(headers, q, n - 1));
            assert(runs.last() == run);
            assert(runs.drop_last() =~= segment_runs_upto(headers, q, n - 1));
            let base = page_base(h.virtual_addr as int);
            let span = align_page(h.end() - base);
            assert(h.end() + 0xfff <= usize::MAX);
            assert(h.end() <= load_end(headers));
            assert(run.pages == span / 0x1000);
            assert(base + span == align_page(h.end()));
            assert(align_page(h.end()) <= align_page(load_end(headers)));
            assert(runs[runs.len() - 1] == run);
        }
    }
}

/// A splice that has left the queue was taken by a loadable segment: by the
/// one at which the count of splices that have left passes its place.
pub proof fn lemma_taker(headers: Seq<ProgramHeader>, q: Seq<Splice>, n: int, k: int) -> (i: int)
    requires
        0 <= n <= headers.len(),
        0 <= k < queue_after(headers, q, n),
    ensures
        0 <= i < n,
        headers[i].is_load(),
        queue_after(headers, q, i) <= k < queue_after(headers, q, i + 1),
    decreases n,
{
    if k < queue_after(headers, q, n - 1) {
        lemma_taker(headers, q, n - 1, k)
    } else {
        n - 1
    }
}

/// A validated image with the sizes of the enclave that is made of it.
pub struct LayoutInfo {
    elf: ElfImage,
    sym: Symbols,
    dynamic: Option<Dynamic>,
    ssaframesize: u32,
    heap_size: u64,
    stack_size: u64,
    debug: bool,
}

impl LayoutInfo {
    /// The image.
    pub closed spec fn image(&self) -> ElfImage {
        self.elf
    }

    /// The required symbols of the image.
    pub closed spec fn symbols(&self) -> Symbols {
        self.sym
    }

    /// The two dynamic entries of the image, where it has them.
    pub closed spec fn dynamic(&self) -> Option<Dynamic> {
        self.dynamic
    }

    /// Pages in one state-save-area frame.
    pub closed spec fn ssaframesize(&self) -> u32 {
        self.ssaframesize
    }

    /// Bytes of heap.
    pub closed spec fn heap_size(&self) -> u64 {
        self.heap_size
    }

    /// Bytes of stack.
    pub closed spec fn stack_size(&self) -> u64 {
        self.stack_size
    }

    /// The enclave's thread may be debugged.
    pub closed spec fn debug(&self) -> bool {
        self.debug
    }

    /// The image has passed every check, with the symbols and entries that
    /// are held, and the sizes are such as an enclave can have.
    pub open spec fn valid(&self) -> bool {
        &&& self.image().class == ElfClass::SixtyFour
        &&& symbols_outcome(&self.image(), Ok(self.symbols()))
        &&& dynamic_outcome(&self.image(), Ok(self.dynamic()))
        &&& relocs_outcome(&self.image(), self.dynamic(), Ok(()))
        &&& config_ok(self.ssaframesize(), self.heap_size(), self.stack_size())
    }

    #[verifier::type_invariant]
    closed spec fn inv(&self) -> bool {
        self.valid()
    }

    /// Validates an image and keeps it with the sizes of the enclave.
    ///
    /// An image that is refused for some reason gives that reason as the
    /// error, and no validated form; any other image gives its validated
    /// form.
    pub fn new(elf: ElfImage, ssaframesize: u32, heap_size: u64, stack_size: u64, debug: bool) -> (r:
        Result<LayoutInfo, Error>)
        requires
            config_ok(ssaframesize, heap_size, stack_size),
        ensures
            match r {
                Ok(l) => {
                    &&& l.valid()
                    &&& l.image() == elf
                    &&& l.ssaframesize() == ssaframesize
                    &&& l.heap_size() == heap_size
                    &&& l.stack_size() == stack_size
                    &&& l.debug() == debug
                },
                Err(e) => refusal(&elf, e),
            },
            r is Err <==> exists|e: Error| refusal(&elf, e),
            elf.class != ElfClass::SixtyFour ==> r matches Err(Error::ElfClassNot64),
    {
        match elf.class {
            ElfClass::SixtyFour => {},
            _ => {
                return Err(Error::ElfClassNot64);
            },
        }
        let sym = match check_symbols(&elf) {
            Ok(sym) => sym,
            Err(e) => {
                proof {
                    assert(refusal(&elf, e));
                }
                return Err(e);
            },
        };
        let dynamic = match check_dynamic(&elf) {
            Ok(dynamic) => dynamic,
            Err(e) => {
                proof {
                    assert(refusal(&elf, e));
                }
                return Err(e);
            },
        };
        match check_relocs(&elf, dynamic.as_ref()) {
            Ok(()) => {},
            Err(e) => {
                proof {
                    assert(refusal(&elf, e));
                }
                return Err(e);
            },
        }
        let l = LayoutInfo { elf, sym, dynamic, ssaframesize, heap_size, stack_size, debug };
        proof {
            assert forall|e: Error| !refusal(&l.image(), e) by {
                lemma_valid_not_refused(l, e);
            }
        }
        Ok(l)
    }

    /// The image.
    pub fn elf(&self) -> (r: &ElfImage)
        ensures
            *r == self.image(),
    {
        &self.elf
    }

    /// The required symbols of the image.
    pub fn required_symbols(&self) -> (r: Symbols)
        ensures
            r == self.symbols(),
    {
        self.sym
    }

    /// The two dynamic entries of the image, where it has them.
    pub fn dynamic_entries(&self) -> (r: Option<Dynamic>)
        ensures
            r == self.dynamic(),
    {
        self.dynamic
    }

    /// The highest end of a loadable segment.
    pub fn max_load_end(&self) -> (r: Option<u128>)
        ensures
            match r {
                Some(m) => is_load_end(self.image().program_headers@, m as int),
                None => !has_load(self.image().program_headers@),
            },
    {
        let mut max: Option<u128> = None;
        let ghost mut at: int = 0;
        let mut i: usize = 0;
        while i < self.elf.program_headers.len()
            invariant
                i <= self.elf.program_headers.len(),
                forall|j: int|
                    0 <= j < i && (#[trigger] self.elf.program_headers@[j]).is_load() ==> (max matches Some(
                        m,
                    ) && self.elf.program_headers@[j].end() <= m),
                max matches Some(m) ==> (0 <= at < i && self.elf.program_headers@[at].is_load()
                    && self.elf.program_headers@[at].end() == m),
            decreases self.elf.program_headers.len() - i,
        {
            let h = &self.elf.program_headers[i];
            if h.loadable() {
                let end: u128 = h.virtual_addr as u128 + h.mem_size as u128;
                let higher = match max {
                    Some(m) => end > m,
                    None => true,
                };
                if higher {
                    max = Some(end);
                    proof {
                        at = i as int;
                    }
                }
            }
            i += 1;
        }
        max
    }

    /// The addresses of the enclave's parts and its size.
    pub fn layout(&self) -> (r: Result<Layout, Error>)
        ensures
            layout_outcome(
                self.image().program_headers@,
                self.heap_size() as int,
                self.stack_size() as int,
                self.ssaframesize() as int,
                r,
            ),
    {
        proof {
            use_type_invariant(self);
        }
        let load_end: u128 = match self.max_load_end() {
            Some(m) => m,
            None => {
                return Err(Error::NoLoadableSegments);
            },
        };
        proof {
            lemma_load_end_unique(self.image().program_headers@, load_end as int);
        }
        let frames: u128 = 2 * (self.ssaframesize as u128) * 0x1000;
        let end: u128 = ((load_end + 0xfff) / 0x1000) * 0x1000 + self.heap_size as u128
            + STACK_GUARD as u128 + self.stack_size as u128 + 0x2000 + frames;
        assert(end == enclave_end(
            load_end as int,
            self.heap_size as int,
            self.stack_size as int,
            self.ssaframesize as int,
        ));
        if end >= ENCLAVE_SIZE_LIMIT as u128 || end > usize::MAX as u128 {
            return Err(Error::EnclaveSizeTooBig);
        }
        let heap_addr = size_align_page_size(load_end as u64);
        let stack_addr = heap_addr + self.heap_size + STACK_GUARD;
        let stack_tos = stack_addr + self.stack_size;
        let tls_addr = stack_tos;
        let tcs_addr = tls_addr + 0x1000;
        let ssa_addr = tcs_addr + 0x1000;
        let size = match enclave_size(tcs_addr + (1 + 2 * (self.ssaframesize as u64)) * 0x1000) {
            Ok(size) => size,
            Err(e) => {
                return Err(e);
            },
        };
        let l = Layout {
            heap_addr,
            stack_addr,
            stack_tos,
            tls_addr,
            tcs_addr,
            ssa_addr,
            enclave_size: size,
        };
        Ok(l)
    }
    /// The enclave can be laid out: a segment is loadable, and the enclave
    /// is not too big.
    pub open spec fn fits(&self) -> bool {
        &&& has_load(self.image().program_headers@)
        &&& !too_big(
            enclave_end(
                load_end(self.image().program_headers@),
                self.heap_size() as int,
                self.stack_size() as int,
                self.ssaframesize() as int,
            ),
        )
    }

    /// The address map of the enclave.
    pub open spec fn planned(&self) -> Layout {
        map_for(
            load_end(self.image().program_headers@),
            self.heap_size() as int,
            self.stack_size() as int,
            self.ssaframesize() as int,
        )
    }

    /// The splices of the enclave in ascending order of address.
    pub open spec fn splices(&self, heap_addr: u64, enclave_size: u64) -> Seq<Splice> {
        stable_sorted(
            splice_list(self.symbols(), self.dynamic(), heap_addr, self.heap_size(), enclave_size),
        )
    }

    /// The pages of the loadable segments, in file order.
    pub open spec fn segment_runs(&self, heap_addr: u64, enclave_size: u64) -> Seq<RunView> {
        segment_runs_upto(
            self.image().program_headers@,
            self.splices(heap_addr, enclave_size),
            self.image().program_headers@.len() as int,
        )
    }

    /// The pages behind the loadable segments.
    pub open spec fn runtime_runs(&self, l: Layout) -> Seq<RunView> {
        runtime_runs_for(
            l,
            self.heap_size(),
            self.stack_size(),
            self.ssaframesize(),
            self.debug(),
            self.symbols().sgx_entry.value,
        )
    }

    /// All pages of the enclave in the order in which they are written.
    pub open spec fn page_runs(&self) -> Seq<RunView> {
        self.segment_runs(self.planned().heap_addr, self.planned().enclave_size)
            + self.runtime_runs(self.planned())
    }

    /// The bytes of the enclave's stream: the record that opens it and the
    /// records of all pages.
    pub open spec fn stream(&self) -> Seq<u8> {
        ecreate_record(self.planned().enclave_size, self.ssaframesize()) + stream_of(
            0,
            self.page_runs(),
        )
    }

    /// The queue of the enclave's splices.
    pub fn splice_queue(&self, heap_addr: u64, enclave_size: u64) -> (r: SpliceQueue)
        ensures
            r.wf(),
            r.taken() == 0,
            r.all() == self.splices(heap_addr, enclave_size),
    {
        let mut list: Vec<Splice> = Vec::new();
        list.push(Splice { addr: self.sym.heap_base.value, value: heap_addr });
        list.push(Splice { addr: self.sym.heap_size.value, value: self.heap_size });
        list.push(
            Splice {
                addr: self.sym.rela.value,
                value: match self.dynamic {
                    Some(d) => d.rela,
                    None => 0,
                },
            },
        );
        list.push(
            Splice {
                addr: self.sym.relacount.value,
                value: match self.dynamic {
                    Some(d) => d.relacount,
                    None => 0,
                },
            },
        );
        list.push(Splice { addr: self.sym.enclave_size.value, value: enclave_size });
        proof {
            assert(list@ =~= splice_list(
                self.symbols(),
                self.dynamic(),
                heap_addr,
                self.heap_size(),
                enclave_size,
            ));
        }
        SpliceQueue::new(&list)
    }

    /// The pages of the loadable segments, in file order, each with its
    /// splices laid over its bytes.
    pub fn segment_page_runs(&self, heap_addr: u64, enclave_size: u64) -> (r: Vec<PageRun>)
        requires
            segments_fit(self.image().program_headers@),
        ensures
            views(r@) == self.segment_runs(heap_addr, enclave_size),
    {
        let mut queue = self.splice_queue(heap_addr, enclave_size);
        let ghost q = queue.all();
        let ghost headers = self.elf.program_headers@;
        let no_bytes: Vec<u8> = Vec::new();
        let mut runs: Vec<PageRun> = Vec::new();
        let mut i: usize = 0;
        proof {
            assert(views(runs@) =~= segment_runs_upto(headers, q, 0));
        }
        while i < self.elf.program_headers.len()
            invariant
                i <= self.elf.program_headers.len(),
                headers == self.elf.program_headers@,
                segments_fit(headers),
                no_bytes@.len() == 0,
                queue.wf(),
                queue.all() == q,
                queue.taken() == queue_after(headers, q, i as int),
                views(runs@) == segment_runs_upto(headers, q, i as int),
            decreases self.elf.program_headers.len() - i,
        {
            let h = &self.elf.program_headers[i];
            if h.loadable() {
                let bytes: &Vec<u8> = match &h.data {
                    SegmentData::Undefined(b) => b,
                    _ => &no_bytes,
                };
                proof {
                    assert(bytes@ =~= h.bytes());
                    assert(headers[i as int].end() + 0xfff <= usize::MAX);
                }
                let image = splice_segment(h.virtual_addr, h.mem_size, bytes, &mut queue);
                let pages = image.len() / 0x1000;
                let base: u64 = h.virtual_addr & !0xfffu64;
                proof {
                    let v = h.virtual_addr;
                    assert(v & !0xfffu64 == (v / 0x1000) * 0x1000) by (bit_vector);
                }
                let ghost before = runs@;
                runs.push(
                    PageRun {
                        data: Some(image),
                        pages,
                        address: Some(base),
                        secinfo: secinfo_for_segment(h.flags),
                        single: false,
                    },
                );
                proof {
                    assert(views(runs@) =~= views(before).push(
                        segment_run(headers[i as int], q, queue_after(headers, q, i as int)),
                    ));
                }
            }
            i += 1;
        }
        runs
    }

    /// How many splices of the enclave the loadable segments take.
    pub open spec fn spliced(&self) -> int {
        queue_after(
            self.image().program_headers@,
            self.splices(self.planned().heap_addr, self.planned().enclave_size),
            self.image().program_headers@.len() as int,
        )
    }

    /// Says whether every splice of the enclave is taken by a loadable
    /// segment. A splice is left over where its eight bytes lie in no
    /// loadable segment, or where the segments do not come in the order of
    /// the splices' addresses.
    pub fn all_spliced(&self) -> (r: Result<bool, Error>)
        ensures
            match r {
                Ok(all) => self.fits() && all == (self.spliced() == 5),
                Err(e) => !self.fits() && layout_outcome(
                    self.image().program_headers@,
                    self.heap_size() as int,
                    self.stack_size() as int,
                    self.ssaframesize() as int,
                    Err(e),
                ),
            },
    {
        proof {
            use_type_invariant(self);
        }
        let l = match self.layout() {
            Ok(l) => l,
            Err(e) => {
                return Err(e);
            },
        };
        proof {
            self.lemma_runs_fit();
            self.lemma_splices(l.heap_addr, l.enclave_size);
        }
        let mut queue = self.splice_queue(l.heap_addr, l.enclave_size);
        let ghost q = queue.all();
        let ghost headers = self.elf.program_headers@;
        let mut i: usize = 0;
        while i < self.elf.program_headers.len()
            invariant
                i <= self.elf.program_headers.len(),
                headers == self.elf.program_headers@,
                segments_fit(headers),
                queue.wf(),
                queue.all() == q,
                queue.taken() == queue_after(headers, q, i as int),
            decreases self.elf.program_headers.len() - i,
        {
            let h = &self.elf.program_headers[i];
            if h.loadable() {
                proof {
                    assert(headers[i as int].end() + 0xfff <= usize::MAX);
                }
                skip_segment(h.virtual_addr, h.mem_size, &mut queue);
            }
            i += 1;
        }
        Ok(queue.peek().is_none())
    }

    /// The pages behind the loadable segments.
    pub fn runtime_page_runs(&self, l: &Layout) -> (r: Vec<PageRun>)
        requires
            l.tcs_addr + 0x1000 <= u64::MAX,
        ensures
            views(r@) == self.runtime_runs(*l),
    {
        let mut runs: Vec<PageRun> = Vec::new();
        runs.push(
            PageRun {
                data: None,
                pages: (self.heap_size / 0x1000) as usize,
                address: Some(l.heap_addr),
                secinfo: secinfo_for_data(),
                single: false,
            },
        );
        runs.push(
            PageRun {
                data: None,
                pages: (self.stack_size / 0x1000) as usize,
                address: Some(l.stack_addr),
                secinfo: secinfo_for_data(),
                single: false,
            },
        );
        let mut tls = u64_to_le_bytes(l.stack_tos);
        push_zeros(&mut tls, TLS_SIZE - 8);
        runs.push(
            PageRun {
                data: Some(tls),
                pages: 1,
                address: Some(l.tls_addr),
                secinfo: secinfo_for_data(),
                single: false,
            },
        );
        let tcs = tcs_bytes(
            l.tcs_addr + 0x1000,
            if self.debug {
                2
            } else {
                1
            },
            self.sym.sgx_entry.value,
            l.tls_addr,
            l.stack_tos,
            SEGMENT_LIMIT,
            SEGMENT_LIMIT,
        );
        runs.push(
            PageRun {
                data: Some(tcs),
                pages: 1,
                address: Some(l.tcs_addr),
                secinfo: secinfo_for_tcs(),
                single: true,
            },
        );
        runs.push(
            PageRun {
                data: None,
                pages: (2 * (self.ssaframesize as u64)) as usize,
                address: None,
                secinfo: secinfo_for_data(),
                single: false,
            },
        );
        proof {
            assert(views(runs@) =~= self.runtime_runs(*l));
        }
        runs
    }
    /// An enclave that can be laid out has segments that end where this
    /// machine can still count bytes, and all its runs can be handed to a
    /// stream.
    pub proof fn lemma_runs_fit(&self)
        requires
            self.valid(),
            self.fits(),
        ensures
            segments_fit(self.image().program_headers@),
            self.planned().tcs_addr + 0x1000 <= u64::MAX,
            runs_fit(0, self.page_runs()),
    {
        let headers = self.image().program_headers@;
        let m = load_end(headers);
        let l = self.planned();
        lemma_load_end(headers);
        assert(align_page(m) >= m && align_page(m) % 4096 == 0);
        assert(segments_fit(headers));
        let q = self.splices(l.heap_addr, l.enclave_size);
        let segs = self.segment_runs(l.heap_addr, l.enclave_size);
        let rest = self.runtime_runs(l);
        let all = self.page_runs();
        lemma_segment_runs_bounded(headers, q, headers.len() as int);
        let n = segs.len() as int;
        assert forall|k: int| 0 <= k < all.len() implies (#[trigger] all[k]).end(
            cursor_after(0, all.take(k)),
        ) <= u64::MAX by {
            if k < n {
                assert(all[k] == segs[k]);
            } else {
                assert(all[k] == rest[k - n]);
                if k == n + 4 {
                    let upto = all.take(k);
                    assert(upto.last() == rest[3]);
                    assert(cursor_after(0, upto) == rest[3].end(cursor_after(0, upto.drop_last())));
                }
            }
        }
    }

    /// The address map of the enclave and all its pages in the order in
    /// which they are written.
    pub fn plan(&self) -> (r: Result<(Layout, Vec<PageRun>), Error>)
        ensures
            match r {
                Ok((l, runs)) => {
                    &&& self.fits()
                    &&& l == self.planned()
                    &&& views(runs@) == self.page_runs()
                    &&& runs_fit(0, views(runs@))
                },
                Err(e) => !self.fits() && layout_outcome(
                    self.image().program_headers@,
                    self.heap_size() as int,
                    self.stack_size() as int,
                    self.ssaframesize() as int,
                    Err(e),
                ),
            },
    {
        proof {
            use_type_invariant(self);
        }
        let l = match self.layout() {
            Ok(l) => l,
            Err(e) => {
                return Err(e);
            },
        };
        proof {
            self.lemma_runs_fit();
        }
        let mut runs = self.segment_page_runs(l.heap_addr, l.enclave_size);
        let mut rest = self.runtime_page_runs(&l);
        let ghost first = runs@;
        let ghost second = rest@;
        runs.append(&mut rest);
        proof {
            assert(views(runs@) =~= views(first) + views(second));
        }
        Ok((l, runs))
    }

    /// Writes the pages of the loadable segments to the stream, in file
    /// order, each with its splices laid over its bytes.
    ///
    /// The first segment whose first page lies below the stream's cursor ends
    /// the work with `StreamNotCanonical`; the segments before it are written,
    /// and none after it.
    pub fn write_elf_segments(
        &self,
        writer: &mut CanonicalWriter,
        heap_addr: u64,
        enclave_size: u64,
    ) -> (r: Result<(), SgxsError>)
        requires
            segments_fit(self.image().program_headers@),
        ensures
            r is Ok <==> canonical(
                old(writer).cursor() as int,
                self.segment_runs(heap_addr, enclave_size),
            ),
            match r {
                Ok(()) => {
                    &&& canonical(
                        old(writer).cursor() as int,
                        self.segment_runs(heap_addr, enclave_size),
                    )
                    &&& final(writer).cursor() == cursor_after(
                        old(writer).cursor() as int,
                        self.segment_runs(heap_addr, enclave_size),
                    )
                    &&& final(writer).bytes() == old(writer).bytes() + stream_of(
                        old(writer).cursor() as int,
                        self.segment_runs(heap_addr, enclave_size),
                    )
                },
                Err(e) => e == SgxsError::StreamNotCanonical && exists|k: int|
                    {
                        &&& 0 <= k < self.segment_runs(heap_addr, enclave_size).len()
                        &&& canonical(
                            old(writer).cursor() as int,
                            #[trigger] self.segment_runs(heap_addr, enclave_size).take(k),
                        )
                        &&& self.segment_runs(heap_addr, enclave_size)[k].refused(
                            cursor_after(
                                old(writer).cursor() as int,
                                self.segment_runs(heap_addr, enclave_size).take(k),
                            ),
                            e,
                        )
                        &&& final(writer).bytes() == old(writer).bytes() + stream_of(
                            old(writer).cursor() as int,
                            self.segment_runs(heap_addr, enclave_size).take(k),
                        )
                    },
            },
    {
        let runs = self.segment_page_runs(heap_addr, enclave_size);
        proof {
            lemma_segment_runs_fit(
                self.image().program_headers@,
                self.splices(heap_addr, enclave_size),
                writer.cursor() as int,
            );
        }
        let written = write_runs(writer, &runs);
        proof {
            if written is Err {
                let e = written->Err_0;
                let segs = self.segment_runs(heap_addr, enclave_size);
                let cursor = old(writer).cursor() as int;
                let k = choose|k: int|
                    {
                        &&& 0 <= k < segs.len()
                        &&& canonical(cursor, #[trigger] segs.take(k))
                        &&& segs[k].refused(cursor_after(cursor, segs.take(k)), e)
                        &&& writer.bytes() == old(writer).bytes() + stream_of(
                            cursor,
                            segs.take(k),
                        )
                    };
                lemma_segment_run_aligned(
                    self.image().program_headers@,
                    self.splices(heap_addr, enclave_size),
                    k,
                );
            }
        }
        written
    }

    /// Writes the enclave's stream behind the bytes that `writer` holds.
    ///
    /// Without a loadable segment the result is `NoLoadableSegments`, for an
    /// enclave that is too big `EnclaveSizeTooBig`; nothing is written then.
    /// Otherwise the record that opens the stream and the pages follow, up
    /// to the first loadable segment that begins below the end of a segment
    /// before it, which ends the work with `StreamNotCanonical`.
    pub fn write(&self, writer: &mut Vec<u8>) -> (r: Result<(), Error>)
        ensures
            r is Ok <==> self.fits() && canonical(0, self.page_runs()),
            match r {
                Ok(()) => {
                    &&& self.fits()
                    &&& canonical(0, self.page_runs())
                    &&& final(writer)@ == old(writer)@ + self.stream()
                },
                Err(Error::Sgxs(e)) => {
                    &&& self.fits()
                    &&& e == SgxsError::StreamNotCanonical
                    &&& exists|k: int|
                        {
                            &&& 0 <= k < self.segment_runs(
                                self.planned().heap_addr,
                                self.planned().enclave_size,
                            ).len()
                            &&& canonical(0, #[trigger] self.page_runs().take(k))
                            &&& self.page_runs()[k].refused(
                                cursor_after(0, self.page_runs().take(k)),
                                e,
                            )
                            &&& final(writer)@ == old(writer)@ + ecreate_record(
                                self.planned().enclave_size,
                                self.ssaframesize(),
                            ) + stream_of(0, self.page_runs().take(k))
                        }
                },
                Err(e) => {
                    &&& !self.fits()
                    &&& final(writer)@ == old(writer)@
                    &&& layout_outcome(
                        self.image().program_headers@,
                        self.heap_size() as int,
                        self.stack_size() as int,
                        self.ssaframesize() as int,
                        Err(e),
                    )
                },
            },
    {
        proof {
            use_type_invariant(self);
        }
        let (l, runs) = match self.plan() {
            Ok(planned) => planned,
            Err(e) => {
                return Err(e);
            },
        };
        let mut sink: Vec<u8> = Vec::new();
        core::mem::swap(writer, &mut sink);
        let mut stream = match CanonicalWriter::new(sink, l.enclave_size, self.ssaframesize) {
            Ok(stream) => stream,
            Err(e) => {
                return Err(Error::Sgxs(e));
            },
        };
        let written = write_runs(&mut stream, &runs);
        let mut bytes = stream.into_sink();
        core::mem::swap(writer, &mut bytes);
        match written {
            Ok(()) => {
                proof {
                    assert(writer@ =~= old(writer)@ + self.stream());
                }
                Ok(())
            },
            Err(e) => {
                proof {
                    {
                        let runs = self.page_runs();
                        let k = choose|k: int|
                            {
                                &&& 0 <= k < runs.len()
                                &&& canonical(0, #[trigger] runs.take(k))
                                &&& runs[k].refused(cursor_after(0, runs.take(k)), e)
                                &&& writer@ == old(writer)@ + ecreate_record(
                                    l.enclave_size,
                                    self.ssaframesize(),
                                ) + stream_of(0, runs.take(k))
                            };
                        self.lemma_refused_run(k, e);
                    }
                }
                Err(Error::Sgxs(e))
            },
        }
    }
    /// Where validation has succeeded, the image holds as many relocations
    /// as its dynamic section announces, and none where it announces none.
    pub proof fn lemma_relocation_accounting(&self)
        requires
            self.valid(),
        ensures
            all_relas(&self.image()).len() == announced(self.dynamic()),
    {
    }

    /// The size of an enclave that can be laid out is a power of two that is
    /// not below the end of its last page and below twice that end.
    pub proof fn lemma_planned_size(&self)
        requires
            self.valid(),
            self.fits(),
        ensures
            is_power_of_two(self.planned().enclave_size as int),
            self.planned().ssa_addr + 2 * self.ssaframesize() * 0x1000
                <= self.planned().enclave_size < 2 * (self.planned().ssa_addr + 2
                * self.ssaframesize() * 0x1000),
    {
        let headers = self.image().program_headers@;
        lemma_load_end(headers);
        let end = enclave_end(
            load_end(headers),
            self.heap_size() as int,
            self.stack_size() as int,
            self.ssaframesize() as int,
        );
        assert(align_page(load_end(headers)) >= 0);
        lemma_enclave_size_law(end);
    }

    /// Whatever the values of the splices, the run of a loadable segment
    /// begins at the page that holds the segment's start, has the pages up
    /// to the one that holds its end, and carries the type of a regular page
    /// and exactly the permissions of the segment, and nothing else.
    pub proof fn lemma_segment_run(&self, heap_addr: u64, enclave_size: u64, i: int)
        requires
            0 <= i < self.image().program_headers@.len(),
            self.image().program_headers@[i].is_load(),
        ensures
            0 <= loadable_before(self.image().program_headers@, i) < self.segment_runs(
                heap_addr,
                enclave_size,
            ).len(),
            ({
                let h = self.image().program_headers@[i];
                let run = self.segment_runs(heap_addr, enclave_size)[loadable_before(
                    self.image().program_headers@,
                    i,
                )];
                &&& run.address == Some(page_base(h.virtual_addr as int) as u64)
                &&& run.pages == (align_page(h.end() - page_base(h.virtual_addr as int))
                    / 0x1000) as usize
                &&& !run.single
                &&& run.secinfo == segment_secinfo(h.flags)
                &&& secinfo_page_type(run.secinfo) == 2
                &&& secinfo_readable(run.secinfo) == flags_readable(h.flags)
                &&& secinfo_writable(run.secinfo) == flags_writable(h.flags)
                &&& secinfo_executable(run.secinfo) == flags_executable(h.flags)
            }),
    {
        let headers = self.image().program_headers@;
        let q = self.splices(heap_addr, enclave_size);
        lemma_segment_run_at(headers, q, headers.len() as int, i);
        lemma_segment_secinfo(headers[i].flags);
    }

    /// The run of a loadable segment begins at the page that holds the
    /// segment's start and is made of regular pages with exactly the
    /// permissions of the segment.
    pub proof fn lemma_segment_permissions(&self, i: int)
        requires
            0 <= i < self.image().program_headers@.len(),
            self.image().program_headers@[i].is_load(),
        ensures
            0 <= loadable_before(self.image().program_headers@, i) < self.page_runs().len(),
            ({
                let h = self.image().program_headers@[i];
                let run = self.page_runs()[loadable_before(self.image().program_headers@, i)];
                &&& run.address == Some(page_base(h.virtual_addr as int) as u64)
                &&& secinfo_page_type(run.secinfo) == 2
                &&& secinfo_readable(run.secinfo) == flags_readable(h.flags)
                &&& secinfo_writable(run.secinfo) == flags_writable(h.flags)
                &&& secinfo_executable(run.secinfo) == flags_executable(h.flags)
            }),
    {
        let headers = self.image().program_headers@;
        let l = self.planned();
        let q = self.splices(l.heap_addr, l.enclave_size);
        lemma_segment_run_at(headers, q, headers.len() as int, i);
        lemma_segment_secinfo(headers[i].flags);
    }

    /// Behind the runs of the loadable segments stand, in this order, the
    /// heap, the stack, the page for thread-local data, the thread control
    /// structure and the state-save area. All but the thread control
    /// structure are regular pages that may be read and written; the thread
    /// control structure has its own page type and no permission.
    pub proof fn lemma_runtime_permissions(&self, k: int)
        requires
            0 <= k < 5,
        ensures
            self.page_runs().len() == loadable_before(
                self.image().program_headers@,
                self.image().program_headers@.len() as int,
            ) + 5,
            ({
                let run = self.page_runs()[self.page_runs().len() - 5 + k];
                if k == 3 {
                    &&& run.address == Some(self.planned().tcs_addr)
                    &&& secinfo_page_type(run.secinfo) == 1
                    &&& !secinfo_readable(run.secinfo)
                    &&& !secinfo_writable(run.secinfo)
                    &&& !secinfo_executable(run.secinfo)
                } else {
                    &&& secinfo_page_type(run.secinfo) == 2
                    &&& secinfo_readable(run.secinfo)
                    &&& secinfo_writable(run.secinfo)
                    &&& !secinfo_executable(run.secinfo)
                }
            }),
    {
        let headers = self.image().program_headers@;
        let l = self.planned();
        let q = self.splices(l.heap_addr, l.enclave_size);
        lemma_segment_run_count(headers, q, headers.len() as int);
        lemma_fixed_secinfo();
        let rest = self.runtime_runs(l);
        assert(self.page_runs()[self.page_runs().len() - 5 + k] == rest[k]);
    }

    /// The splices of the enclave are the five splices of its symbols, in
    /// ascending order of address.
    pub proof fn lemma_splices(&self, heap_addr: u64, enclave_size: u64)
        ensures
            sorted(self.splices(heap_addr, enclave_size)),
            self.splices(heap_addr, enclave_size).len() == 5,
            self.splices(heap_addr, enclave_size).to_multiset() == splice_list(
                self.symbols(),
                self.dynamic(),
                heap_addr,
                self.heap_size(),
                enclave_size,
            ).to_multiset(),
    {
        lemma_stable_sorted(
            splice_list(self.symbols(), self.dynamic(), heap_addr, self.heap_size(), enclave_size),
        );
    }

    /// In the bytes of a loadable segment's run, the eight bytes at the
    /// address of a splice that the segment takes are the little-endian bytes
    /// of the splice's value, where no later splice that the segment takes
    /// begins within them.
    pub proof fn lemma_splice_in_segment(&self, i: int, k: int)
        requires
            self.valid(),
            self.fits(),
            0 <= i < self.image().program_headers@.len(),
            self.image().program_headers@[i].is_load(),
            ({
                let headers = self.image().program_headers@;
                let q = self.splices(self.planned().heap_addr, self.planned().enclave_size);
                &&& queue_after(headers, q, i) <= k < queue_after(headers, q, i + 1)
                &&& forall|j: int|
                    k < j < queue_after(headers, q, i + 1) ==> q[k].addr + 8 <= (#[trigger] q[j]).addr
            }),
        ensures
            ({
                let headers = self.image().program_headers@;
                let q = self.splices(self.planned().heap_addr, self.planned().enclave_size);
                let run = self.page_runs()[loadable_before(headers, i)];
                let at = q[k].addr - page_base(headers[i].virtual_addr as int);
                &&& 0 <= k < q.len()
                &&& takes(page_base(headers[i].virtual_addr as int), headers[i].end(), q[k])
                &&& run.data matches Some(image) && image.subrange(at, at + 8)
                    == spec_u64_to_le_bytes(q[k].value)
            }),
    {
        let headers = self.image().program_headers@;
        let l = self.planned();
        let q = self.splices(l.heap_addr, l.enclave_size);
        let h = headers[i];
        let base = page_base(h.virtual_addr as int);
        let from = queue_after(headers, q, i);
        let to = queue_after(headers, q, i + 1);
        self.lemma_runs_fit();
        lemma_segment_run_at(headers, q, headers.len() as int, i);
        lemma_queue_bounded(headers, q, i);
        lemma_taken_end(q, from, base, h.end());
        assert(takes(base, h.end(), q[k]));
        let len = align_page(h.end() - base) as nat;
        let plain = plain_image(base, h.virtual_addr as int, h.bytes(), len);
        lemma_splice_fidelity(plain, base, q, from, to, k);
    }

    /// Where the loadable segments take all five splices, and the addresses
    /// of the five symbols lie at least eight bytes apart, each symbol's eight
    /// bytes in the run of the segment that holds them are the little-endian
    /// bytes of its value: the start of the heap, the size of the heap, the
    /// address and the number of the relocations (zero where the image
    /// announces none), and the size of the enclave.
    pub proof fn lemma_symbols_spliced(&self, t: int) -> (i: int)
        requires
            self.valid(),
            self.fits(),
            self.spliced() == 5,
            0 <= t < 5,
            apart(
                splice_list(
                    self.symbols(),
                    self.dynamic(),
                    self.planned().heap_addr,
                    self.heap_size(),
                    self.planned().enclave_size,
                ),
            ),
        ensures
            0 <= i < self.image().program_headers@.len(),
            self.image().program_headers@[i].is_load(),
            ({
                let headers = self.image().program_headers@;
                let s = splice_list(
                    self.symbols(),
                    self.dynamic(),
                    self.planned().heap_addr,
                    self.heap_size(),
                    self.planned().enclave_size,
                )[t];
                let base = page_base(headers[i].virtual_addr as int);
                let run = self.page_runs()[loadable_before(headers, i)];
                &&& takes(base, headers[i].end(), s)
                &&& run.data matches Some(image) && image.subrange(
                    s.addr - base,
                    s.addr - base + 8,
                ) == spec_u64_to_le_bytes(s.value)
            }),
    {
        let headers = self.image().program_headers@;
        let l = self.planned();
        let list = splice_list(
            self.symbols(),
            self.dynamic(),
            l.heap_addr,
            self.heap_size(),
            l.enclave_size,
        );
        let q = self.splices(l.heap_addr, l.enclave_size);
        lemma_sorted_members(list);
        lemma_stable_sorted(list);
        lemma_sorted_apart(list);
        assert(q.contains(list[t]));
        let k = choose|k: int| 0 <= k < q.len() && q[k] == list[t];
        let i = lemma_taker(headers, q, headers.len() as int, k);
        assert forall|j: int| k < j < queue_after(headers, q, i + 1) implies q[k].addr + 8 <= (
        #[trigger] q[j]).addr by {
            lemma_queue_bounded(headers, q, i);
            assert(q[k].addr <= q[j].addr);
        }
        self.lemma_splice_in_segment(i, k);
        i
    }

    /// Under the same conditions the stream holds those bytes: byte `j` of
    /// the value of each symbol stands in the stream behind the record that
    /// opens it and the records of the runs before the run of the segment
    /// that holds the symbol, at the place of the symbol's address in the
    /// records of that run.
    pub proof fn lemma_symbol_in_stream(&self, t: int, j: int) -> (i: int)
        requires
            self.valid(),
            self.fits(),
            self.spliced() == 5,
            0 <= t < 5,
            0 <= j < 8,
            apart(
                splice_list(
                    self.symbols(),
                    self.dynamic(),
                    self.planned().heap_addr,
                    self.heap_size(),
                    self.planned().enclave_size,
                ),
            ),
        ensures
            0 <= i < self.image().program_headers@.len(),
            self.image().program_headers@[i].is_load(),
            ({
                let headers = self.image().program_headers@;
                let s = splice_list(
                    self.symbols(),
                    self.dynamic(),
                    self.planned().heap_addr,
                    self.heap_size(),
                    self.planned().enclave_size,
                )[t];
                let base = page_base(headers[i].virtual_addr as int);
                let before = 64 + stream_of(
                    0,
                    self.page_runs().take(loadable_before(headers, i)),
                ).len();
                let place = before + place_in_records(s.addr - base + j);
                &&& takes(base, headers[i].end(), s)
                &&& 0 <= place < self.stream().len()
                &&& self.stream()[place] == spec_u64_to_le_bytes(s.value)[j]
            }),
    {
        let i = self.lemma_symbols_spliced(t);
        let headers = self.image().program_headers@;
        let l = self.planned();
        let q = self.splices(l.heap_addr, l.enclave_size);
        let s = splice_list(
            self.symbols(),
            self.dynamic(),
            l.heap_addr,
            self.heap_size(),
            l.enclave_size,
        )[t];
        let h = headers[i];
        let base = page_base(h.virtual_addr as int);
        let k = loadable_before(headers, i);
        let runs = self.page_runs();
        let run = runs[k];
        let image = run.data.unwrap();
        let x = s.addr - base + j;
        self.lemma_runs_fit();
        lemma_segment_run_at(headers, q, headers.len() as int, i);
        lemma_queue_bounded(headers, q, i);
        lemma_taken_end(q, queue_after(headers, q, i), base, h.end());
        let span = align_page(h.end() - base);
        lemma_spliced_len(
            plain_image(base, h.virtual_addr as int, h.bytes(), span as nat),
            base,
            q,
            queue_after(headers, q, i),
            queue_after(headers, q, i + 1),
        );
        assert(h.end() + 0xfff <= usize::MAX);
        assert(image.len() == span);
        assert(run.pages == span / 0x1000 && 4096 * run.count() == span);
        assert(0 <= x < image.len());
        assert(image.subrange(s.addr - base, s.addr - base + 8)[j] == image[x]);
        assert(runs[k].end(cursor_after(0, runs.take(k))) <= u64::MAX);
        lemma_run_data_in_stream(0, runs, k, x);
        lemma_ecreate_record_len(l.enclave_size, self.ssaframesize());
        i
    }

    /// In a stream that was written, the addresses of the pages ascend
    /// strictly: of two pages, the one that is written later has the higher
    /// address.
    pub proof fn lemma_page_order(&self, j: int, p: int, k: int, q: int)
        requires
            canonical(0, self.page_runs()),
            0 <= j <= k < self.page_runs().len(),
            0 <= p < self.page_runs()[j].count(),
            0 <= q < self.page_runs()[k].count(),
            j < k || p < q,
        ensures
            page_address(0, self.page_runs(), j, p) < page_address(0, self.page_runs(), k, q),
    {
        lemma_canonical_order(0, self.page_runs(), j, p, k, q);
    }

    /// In a stream that was written, the first run is that of a loadable
    /// segment, and no loadable segment begins on a lower page.
    pub proof fn lemma_first_page_lowest(&self, i: int)
        requires
            canonical(0, self.page_runs()),
            0 <= i < self.image().program_headers@.len(),
            self.image().program_headers@[i].is_load(),
        ensures
            self.page_runs()[0].address matches Some(a) && a <= page_base(
                self.image().program_headers@[i].virtual_addr as int,
            ) && exists|f: int|
                0 <= f < self.image().program_headers@.len() && (
                #[trigger] self.image().program_headers@[f]).is_load() && a == page_base(
                    self.image().program_headers@[f].virtual_addr as int,
                ),
    {
        let headers = self.image().program_headers@;
        let l = self.planned();
        let q = self.splices(l.heap_addr, l.enclave_size);
        let n = headers.len() as int;
        let runs = self.page_runs();
        let k = loadable_before(headers, i);
        lemma_segment_run_at(headers, q, n, i);
        let f = lemma_run_origin(headers, q, n, 0);
        lemma_segment_run_at(headers, q, n, f);
        assert(runs[0] == segment_run(headers[f], q, queue_after(headers, q, f)));
        assert(runs[k] == segment_run(headers[i], q, queue_after(headers, q, i)));
        if k > 0 {
            lemma_cursor_ascends(0, runs, k + 1);
            let upto = runs.take(k + 1);
            assert(upto.drop_last() =~= runs.take(k));
            assert(upto.last() == runs[k]);
            lemma_cursor_ascends(0, runs.take(k), 1);
            assert(runs.take(k).take(1) =~= runs.take(1));
            assert(runs.take(1).last() == runs[0]);
            assert(runs.take(1).drop_last() =~= Seq::<RunView>::empty());
        }
    }
    /// The addresses of an enclave that can be laid out follow one another
    /// without overflow, each on a page boundary.
    pub proof fn lemma_planned(&self)
        requires
            self.valid(),
            self.fits(),
        ensures
            ({
                let l = self.planned();
                let m = load_end(self.image().program_headers@);
                &&& 0 <= m <= l.heap_addr == align_page(m)
                &&& l.heap_addr % 4096 == 0
                &&& l.stack_addr == l.heap_addr + self.heap_size() + STACK_GUARD
                &&& l.stack_addr % 4096 == 0
                &&& l.stack_tos == l.stack_addr + self.stack_size()
                &&& l.tls_addr == l.stack_tos
                &&& l.tls_addr % 4096 == 0
                &&& l.tcs_addr == l.tls_addr + 0x1000
                &&& l.ssa_addr == l.tcs_addr + 0x1000
                &&& l.ssa_addr + 2 * self.ssaframesize() * 0x1000 <= usize::MAX
            }),
    {
        let headers = self.image().program_headers@;
        lemma_load_end(headers);
        let m = load_end(headers);
        assert(align_page(m) >= m && align_page(m) % 4096 == 0);
    }

    /// A stream that stands at or below the heap takes the pages behind the
    /// loadable segments.
    pub proof fn lemma_runtime_canonical(&self, cursor: int)
        requires
            self.valid(),
            self.fits(),
            0 <= cursor <= self.planned().heap_addr,
        ensures
            canonical(cursor, self.runtime_runs(self.planned())),
    {
        self.lemma_planned();
        let l = self.planned();
        let runs = self.runtime_runs(l);
        let r1 = runs.take(1);
        let r2 = runs.take(2);
        let r3 = runs.take(3);
        let r4 = runs.take(4);
        assert(r1.drop_last() =~= Seq::<RunView>::empty());
        assert(r2.drop_last() =~= r1);
        assert(r3.drop_last() =~= r2);
        assert(r4.drop_last() =~= r3);
        assert(runs.drop_last() =~= r4);
        assert(r1.last() == runs[0] && r2.last() == runs[1] && r3.last() == runs[2] && r4.last()
            == runs[3] && runs.last() == runs[4]);
        let none = Seq::<RunView>::empty();
        assert(canonical(cursor, none) && cursor_after(cursor, none) == cursor);
        assert(r1.drop_last() == none);
        assert(runs[0].fits(cursor));
        assert(canonical(cursor, r1));
        assert(self.heap_size() / 0x1000 * 0x1000 == self.heap_size());
        assert(self.stack_size() / 0x1000 * 0x1000 == self.stack_size());
        assert(cursor_after(cursor, r1) == l.heap_addr + self.heap_size());
        assert(canonical(cursor, r2));
        assert(cursor_after(cursor, r2) == l.stack_addr + self.stack_size());
        assert(canonical(cursor, r3));
        assert(canonical(cursor, r4));
    }

    /// Where a stream takes the runs of the loadable segments one after the
    /// other, it takes all pages of the enclave.
    pub proof fn lemma_segments_decide(&self)
        requires
            self.valid(),
            self.fits(),
        ensures
            canonical(0, self.page_runs()) == canonical(
                0,
                self.segment_runs(self.planned().heap_addr, self.planned().enclave_size),
            ),
    {
        let headers = self.image().program_headers@;
        let l = self.planned();
        let q = self.splices(l.heap_addr, l.enclave_size);
        let segs = self.segment_runs(l.heap_addr, l.enclave_size);
        self.lemma_runs_fit();
        lemma_load_end(headers);
        assert(align_page(load_end(headers)) >= 0);
        lemma_segment_runs_end(headers, q, headers.len() as int, 0);
        lemma_runs_concat(0, segs, self.runtime_runs(l));
        self.lemma_runtime_canonical(cursor_after(0, segs));
    }

    /// A canonical stream refuses no run of an enclave but the run of a
    /// loadable segment that begins below the end of a segment before it.
    pub proof fn lemma_refused_run(&self, k: int, e: SgxsError)
        requires
            self.valid(),
            self.fits(),
            0 <= k < self.page_runs().len(),
            canonical(0, self.page_runs().take(k)),
            self.page_runs()[k].refused(cursor_after(0, self.page_runs().take(k)), e),
        ensures
            e == SgxsError::StreamNotCanonical,
            k < self.segment_runs(self.planned().heap_addr, self.planned().enclave_size).len(),
    {
        let headers = self.image().program_headers@;
        let l = self.planned();
        let q = self.splices(l.heap_addr, l.enclave_size);
        let segs = self.segment_runs(l.heap_addr, l.enclave_size);
        let rest = self.runtime_runs(l);
        let all = self.page_runs();
        let n = segs.len() as int;
        self.lemma_runs_fit();
        lemma_segment_runs_bounded(headers, q, headers.len() as int);
        if k < n {
            assert(all[k] == segs[k]);
        } else {
            assert(all.take(k).take(n) =~= segs);
            lemma_cursor_ascends(0, all.take(k), n);
            self.lemma_segments_decide();
            lemma_run_fits(0, all, k);
        }
    }
}


/// Validation has one result: two validated forms of one image hold the
/// same symbols and the same dynamic entries.
pub proof fn lemma_validation_unique(a: LayoutInfo, b: LayoutInfo)
    requires
        a.valid(),
        b.valid(),
        a.image() == b.image(),
    ensures
        a.symbols() == b.symbols(),
        a.dynamic() == b.dynamic(),
{
    lemma_symbols_outcome_unique(&a.image(), Ok(a.symbols()), Ok(b.symbols()));
    lemma_dynamic_outcome_unique(&a.image(), Ok(a.dynamic()), Ok(b.dynamic()));
}

/// One image with one set of sizes has one stream: two validated forms of it
/// have the same address map, the same pages and the same bytes.
pub proof fn lemma_stream_determined(a: LayoutInfo, b: LayoutInfo)
    requires
        a.valid(),
        b.valid(),
        a.image() == b.image(),
        a.ssaframesize() == b.ssaframesize(),
        a.heap_size() == b.heap_size(),
        a.stack_size() == b.stack_size(),
        a.debug() == b.debug(),
    ensures
        a.fits() == b.fits(),
        a.planned() == b.planned(),
        a.page_runs() == b.page_runs(),
        a.stream() == b.stream(),
{
    lemma_validation_unique(a, b);
}

} // verus!

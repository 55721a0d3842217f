//! Canonical SGXS streams over a byte sink.

use vstd::prelude::*;
use vstd::bytes::{
    lemma_auto_spec_u32_to_from_le_bytes, lemma_auto_spec_u64_to_from_le_bytes,
    spec_u32_to_le_bytes, spec_u64_to_le_bytes,
};
use sgx_isa::SecinfoFlags;
use sgxs::sgxs::{Meas, MeasECreate, SecinfoTruncated, SgxsWrite};
use crate::error::SgxsError;
use crate::sgx::zeros;

verus! {

/// Tag of the record that opens a stream.
pub const MEAS_ECREATE: u64 = 0x0045544145524345;

/// Tag of the record that adds a page.
pub const MEAS_EADD: u64 = 0x0000000044444145;

/// Tag of the record that measures 256 bytes of a page.
pub const MEAS_EEXTEND: u64 = 0x00444E4554584545;

/// The attribute bits that a record keeps: the permissions, the three state
/// bits and the page type.
pub const SECINFO_KEPT: u64 = 0xff3f;

/// The head of a record: the tag in eight bytes, then the fields, then
/// zero up to 64 bytes; numbers in little-endian order.
pub open spec fn record_head(tag: u64, fields: Seq<u8>) -> Seq<u8> {
    spec_u64_to_le_bytes(tag) + fields + zeros((56 - fields.len()) as nat)
}

/// The bytes of the record that opens a stream for an enclave of the given
/// size and state-save-area frame size.
pub open spec fn ecreate_record(size: u64, ssaframesize: u32) -> Seq<u8> {
    record_head(MEAS_ECREATE, spec_u32_to_le_bytes(ssaframesize) + spec_u64_to_le_bytes(size))
}

/// The bytes of the record that adds the page at `offset` with the given
/// attributes, of which the record keeps the known bits.
pub open spec fn eadd_record(offset: u64, secinfo: u64) -> Seq<u8> {
    record_head(
        MEAS_EADD,
        spec_u64_to_le_bytes(offset) + spec_u64_to_le_bytes(secinfo & SECINFO_KEPT),
    )
}

/// The bytes of the head of the record that measures the 256 bytes at
/// `offset`.
pub open spec fn eextend_record(offset: u64) -> Seq<u8> {
    record_head(MEAS_EEXTEND, spec_u64_to_le_bytes(offset))
}

/// The 256 bytes of `data` from index `from` on, zero where `data` has
/// ended.
pub open spec fn chunk(data: Seq<u8>, from: int) -> Seq<u8> {
    Seq::new(
        256,
        |i: int|
            if 0 <= from + i < data.len() {
                data[from + i]
            } else {
                0u8
            },
    )
}

/// The records that measure the first `c` chunks of the page at `offset`,
/// whose contents begin at index `from` of `data`: for each chunk the head
/// and then the chunk's bytes.
pub open spec fn chunk_records(data: Seq<u8>, from: int, offset: u64, c: int) -> Seq<u8>
    decreases c,
{
    if c <= 0 {
        Seq::empty()
    } else {
        chunk_records(data, from, offset, c - 1) + eextend_record(
            (offset + 256 * (c - 1)) as u64,
        ) + chunk(data, from + 256 * (c - 1))
    }
}

/// The records of the page at `offset` whose contents begin at index `from`
/// of the data: the record that adds the page and, where there is data, the
/// records of its sixteen chunks.
pub open spec fn page_at(data: Option<Seq<u8>>, from: int, offset: u64, secinfo: u64) -> Seq<u8> {
    eadd_record(offset, secinfo) + match data {
        Some(d) => chunk_records(d, from, offset, 16),
        None => Seq::empty(),
    }
}

/// The records of the first `n` pages from `offset` on; page `i` holds the
/// bytes of `data` from index `4096 * i` on.
pub open spec fn pages_upto(data: Option<Seq<u8>>, n: int, offset: u64, secinfo: u64) -> Seq<u8>
    decreases n,
{
    if n <= 0 {
        Seq::empty()
    } else {
        pages_upto(data, n - 1, offset, secinfo) + page_at(
            data,
            4096 * (n - 1),
            (offset + 4096 * (n - 1)) as u64,
            secinfo,
        )
    }
}

/// The bytes of the records of `n` pages from `offset` on, with the given
/// security attributes; page `i` holds bytes `4096 * i` and following of
/// `data`, filled up with zero, or is left without contents where there is
/// no data.
pub open spec fn page_records(data: Option<Seq<u8>>, n: usize, offset: u64, secinfo: u64) -> Seq<u8> {
    pages_upto(data, n as int, offset, secinfo)
}

/// The bytes of the records of the one page at `offset`.
pub open spec fn page_record(data: Option<Seq<u8>>, offset: u64, secinfo: u64) -> Seq<u8> {
    page_at(data, 0, offset, secinfo)
}

/// Bytes in the records of a page with contents: the record that adds it and
/// sixteen records of 64 and 256 bytes.
pub const PAGE_RECORDS_LEN: usize = 5184;

/// Byte `i` of `data`, or zero where `data` has ended.
pub open spec fn padded(data: Seq<u8>, i: int) -> u8 {
    if 0 <= i < data.len() {
        data[i]
    } else {
        0
    }
}

/// Where byte `x` of the data of a row of pages stands in the row's records:
/// behind the records of the pages before its page, the record that adds its
/// page, the records of the chunks before its chunk and the head of its
/// chunk's record.
pub open spec fn place_in_records(x: int) -> int {
    5184 * (x / 4096) + 64 + 320 * ((x % 4096) / 256) + 64 + x % 256
}

/// The head of a record is 64 bytes long.
pub proof fn lemma_record_head_len(tag: u64, fields: Seq<u8>)
    requires
        fields.len() <= 56,
    ensures
        record_head(tag, fields).len() == 64,
{
    lemma_auto_spec_u64_to_from_le_bytes();
}

/// The records of `c` chunks are `320 * c` bytes long, and byte `j` of chunk
/// `k` stands in them behind the records of the chunks before it and the
/// head of its own.
pub proof fn lemma_chunk_records(data: Seq<u8>, from: int, offset: u64, c: int, k: int, j: int)
    requires
        0 <= k < c,
        0 <= j < 256,
        offset + 256 * c <= u64::MAX,
    ensures
        chunk_records(data, from, offset, c).len() == 320 * c,
        chunk_records(data, from, offset, c)[320 * k + 64 + j] == padded(
            data,
            from + 256 * k + j,
        ),
    decreases c,
{
    lemma_auto_spec_u64_to_from_le_bytes();
    lemma_chunk_records_len(data, from, offset, c - 1);
    let head = eextend_record((offset + 256 * (c - 1)) as u64);
    lemma_record_head_len(MEAS_EEXTEND, spec_u64_to_le_bytes((offset + 256 * (c - 1)) as u64));
    if k < c - 1 {
        lemma_chunk_records(data, from, offset, c - 1, k, j);
    } else {
        assert(chunk(data, from + 256 * k)[j] == padded(data, from + 256 * k + j));
    }
}

/// The records of `c` chunks are `320 * c` bytes long.
pub proof fn lemma_chunk_records_len(data: Seq<u8>, from: int, offset: u64, c: int)
    requires
        0 <= c,
        offset + 256 * c <= u64::MAX,
    ensures
        chunk_records(data, from, offset, c).len() == 320 * c,
    decreases c,
{
    if c > 0 {
        lemma_auto_spec_u64_to_from_le_bytes();
        lemma_chunk_records_len(data, from, offset, c - 1);
        lemma_record_head_len(MEAS_EEXTEND, spec_u64_to_le_bytes((offset + 256 * (c - 1)) as u64));
    }
}

/// The records of a page are 64 bytes long without contents and 5184 bytes
/// with contents.
pub proof fn lemma_page_at_len(data: Option<Seq<u8>>, from: int, offset: u64, secinfo: u64)
    requires
        offset + 4096 <= u64::MAX,
    ensures
        page_at(data, from, offset, secinfo).len() == if data is Some {
            5184int
        } else {
            64int
        },
{
    lemma_auto_spec_u64_to_from_le_bytes();
    lemma_record_head_len(
        MEAS_EADD,
        spec_u64_to_le_bytes(offset) + spec_u64_to_le_bytes(secinfo & SECINFO_KEPT),
    );
    if let Some(d) = data {
        lemma_chunk_records_len(d, from, offset, 16);
    }
}

/// The records of a row of pages with contents hold every byte of the
/// pages: byte `x` of the data, or zero where the data has ended, stands at
/// its place in the records.
pub proof fn lemma_data_in_records(data: Seq<u8>, n: int, offset: u64, secinfo: u64, x: int)
    requires
        0 <= x < 4096 * n,
        offset + 4096 * n <= u64::MAX,
    ensures
        pages_upto(Some(data), n, offset, secinfo).len() == 5184 * n,
        0 <= place_in_records(x) < 5184 * n,
        pages_upto(Some(data), n, offset, secinfo)[place_in_records(x)] == padded(data, x),
    decreases n,
{
    let d = Some(data);
    lemma_pages_len(d, n - 1, offset, secinfo);
    let last = page_at(d, 4096 * (n - 1), (offset + 4096 * (n - 1)) as u64, secinfo);
    lemma_page_at_len(d, 4096 * (n - 1), (offset + 4096 * (n - 1)) as u64, secinfo);
    if x < 4096 * (n - 1) {
        lemma_data_in_records(data, n - 1, offset, secinfo, x);
    } else {
        let y = x - 4096 * (n - 1);
        assert(x / 4096 == n - 1 && x % 4096 == y);
        let k = y / 256;
        let j = y % 256;
        assert(0 <= k < 16 && y == 256 * k + j);
        lemma_chunk_records(data, 4096 * (n - 1), (offset + 4096 * (n - 1)) as u64, 16, k, j);
        lemma_auto_spec_u64_to_from_le_bytes();
        lemma_record_head_len(
            MEAS_EADD,
            spec_u64_to_le_bytes((offset + 4096 * (n - 1)) as u64) + spec_u64_to_le_bytes(
                secinfo & SECINFO_KEPT,
            ),
        );
        assert(last[64 + 320 * k + 64 + j] == padded(data, x));
    }
}

/// The records of a row of `n` pages are `5184 * n` bytes long with
/// contents and `64 * n` bytes without.
pub proof fn lemma_pages_len(data: Option<Seq<u8>>, n: int, offset: u64, secinfo: u64)
    requires
        0 <= n,
        offset + 4096 * n <= u64::MAX,
    ensures
        pages_upto(data, n, offset, secinfo).len() == if data is Some {
            5184 * n
        } else {
            64 * n
        },
    decreases n,
{
    if n > 0 {
        lemma_pages_len(data, n - 1, offset, secinfo);
        lemma_page_at_len(data, 4096 * (n - 1), (offset + 4096 * (n - 1)) as u64, secinfo);
    }
}

/// The record that opens a stream is 64 bytes long.
pub proof fn lemma_ecreate_record_len(size: u64, ssaframesize: u32)
    ensures
        ecreate_record(size, ssaframesize).len() == 64,
{
    lemma_auto_spec_u64_to_from_le_bytes();
    lemma_auto_spec_u32_to_from_le_bytes();
}

/// The bytes of an optional slice.
pub open spec fn bytes_of(data: Option<&[u8]>) -> Option<Seq<u8>> {
    match data {
        Some(d) => Some(d@),
        None => None,
    }
}

/// `SgxsWrite::write_meas` of sgxs on a byte vector, with an `ECreate`
/// measurement: it succeeds, since sgxs fails only where its sink does and a
/// vector takes every byte, and the vector has grown by the record's 64
/// bytes: the tag, the frame size in four bytes and the size in eight, then
/// zero. sgxs writes numbers in the machine's byte order and builds for
/// little-endian machines only. An error would be handed on as its text.
#[verifier::external_body]
fn append_ecreate(out: &mut Vec<u8>, size: u64, ssaframesize: u32) -> (r: Result<(), String>)
    ensures
        r is Ok,
        final(out)@ == old(out)@ + ecreate_record(size, ssaframesize),
{
    out.write_meas(&Meas::ECreate(MeasECreate { ssaframesize, size })).map_err(|e| e.to_string())
}

/// `SgxsWrite::write_pages` of sgxs on a byte vector and a byte slice: it
/// succeeds, since sgxs fails only where its sink or its source does and
/// neither of these can, and the vector has grown by the records of the
/// pages. Each page has a record of 64 bytes with its offset and the known
/// bits of its attributes; where there is data, sixteen records follow, each
/// the offset of 256 bytes and then those bytes, which are the next of the
/// data, or zero where the data has ended. The offsets of the pages must not
/// overflow.
#[verifier::external_body]
fn append_pages(out: &mut Vec<u8>, data: Option<&[u8]>, n: usize, offset: u64, secinfo: u64) -> (r:
    Result<(), String>)
    requires
        offset + 4096 * n <= u64::MAX,
    ensures
        r is Ok,
        final(out)@ == old(out)@ + page_records(bytes_of(data), n, offset, secinfo),
{
    let mut reader = data;
    let secinfo = SecinfoTruncated { flags: SecinfoFlags::from_bits_truncate(secinfo) };
    out.write_pages(reader.as_mut(), n, offset, secinfo).map_err(|e| e.to_string())
}

/// `SgxsWrite::write_page` of sgxs on a byte vector and a byte slice: it
/// succeeds, for the same reason, and the vector has grown by the records of
/// the one page, which are those of a row of one page. The page must end
/// within the address space.
#[verifier::external_body]
fn append_page(out: &mut Vec<u8>, data: Option<&[u8]>, offset: u64, secinfo: u64) -> (r: Result<
    (),
    String,
>)
    requires
        offset + 4096 <= u64::MAX,
    ensures
        r is Ok,
        final(out)@ == old(out)@ + page_record(bytes_of(data), offset, secinfo),
{
    let mut reader = data;
    let secinfo = SecinfoTruncated { flags: SecinfoFlags::from_bits_truncate(secinfo) };
    out.write_page(reader.as_mut(), offset, secinfo).map_err(|e| e.to_string())
}

/// What the stream makes of the sink's answer to an append: success stays
/// success, and the text of a failure becomes a `Sink` error.
pub fn sink_result(appended: Result<(), String>) -> (r: Result<(), SgxsError>)
    ensures
        match appended {
            Ok(()) => r == Ok::<(), SgxsError>(()),
            Err(text) => r == Err::<(), SgxsError>(SgxsError::Sink(text)),
        },
{
    match appended {
        Ok(()) => Ok(()),
        Err(text) => Err(SgxsError::Sink(text)),
    }
}

/// Where the next pages go: at the given offset, or at the cursor where none
/// is given.
pub open spec fn target(cursor: u64, offset: Option<u64>) -> u64 {
    match offset {
        Some(o) => o,
        None => cursor,
    }
}

/// The offset is one that a canonical stream takes at this cursor: a whole
/// number of pages and not below the cursor.
pub open spec fn accepted(cursor: u64, offset: Option<u64>) -> bool {
    match offset {
        Some(o) => o % 4096 == 0 && o >= cursor,
        None => true,
    }
}

/// A writer of canonical streams: it holds the bytes written so far and the
/// offset below which no page may follow.
pub struct CanonicalWriter {
    sink: Vec<u8>,
    next_offset: u64,
}

impl CanonicalWriter {
    /// The least offset that the next page may have.
    pub closed spec fn cursor(&self) -> u64 {
        self.next_offset
    }

    /// The bytes written so far.
    pub closed spec fn bytes(&self) -> Seq<u8> {
        self.sink@
    }

    /// Opens a stream behind the bytes that `sink` holds already, for an
    /// enclave of the given size and state-save-area frame size.
    pub fn new(sink: Vec<u8>, size: u64, ssaframesize: u32) -> (r: Result<Self, SgxsError>)
        ensures
            r matches Ok(w) && w.cursor() == 0 && w.bytes() == sink@ + ecreate_record(
                size,
                ssaframesize,
            ),
    {
        let mut sink = sink;
        match sink_result(append_ecreate(&mut sink, size, ssaframesize)) {
            Ok(()) => Ok(CanonicalWriter { sink, next_offset: 0 }),
            Err(e) => Err(e),
        }
    }

    /// Moves the cursor to the given offset, where there is one and the
    /// stream takes it.
    fn check_offset(&mut self, offset: Option<u64>) -> (r: Result<(), SgxsError>)
        ensures
            final(self).bytes() == old(self).bytes(),
            match r {
                Ok(()) => accepted(old(self).cursor(), offset) && final(self).cursor() == target(
                    old(self).cursor(),
                    offset,
                ),
                Err(e) => {
                    &&& *final(self) == *old(self)
                    &&& offset matches Some(o) && match e {
                        SgxsError::InvalidPageOffset => o % 4096 != 0,
                        SgxsError::StreamNotCanonical => o % 4096 == 0 && o < old(self).cursor(),
                        _ => false,
                    }
                },
            },
    {
        match offset {
            Some(o) => {
                assert(o & 0xfff == o % 4096) by (bit_vector);
                if o & 0xfff != 0 {
                    Err(SgxsError::InvalidPageOffset)
                } else if o < self.next_offset {
                    Err(SgxsError::StreamNotCanonical)
                } else {
                    self.next_offset = o;
                    Ok(())
                }
            },
            None => Ok(()),
        }
    }

    /// Writes one page, at the given offset or at the cursor.
    ///
    /// An offset that is no whole number of pages gives `InvalidPageOffset`,
    /// one below the cursor `StreamNotCanonical`; in both cases nothing is
    /// written. Otherwise the page's records follow the bytes written so far
    /// and the cursor stands behind the page.
    pub fn write_page(&mut self, data: Option<&[u8]>, offset: Option<u64>, secinfo: u64) -> (r:
        Result<(), SgxsError>)
        requires
            target(old(self).cursor(), offset) + 4096 <= u64::MAX,
        ensures
            r is Ok <==> accepted(old(self).cursor(), offset),
            match r {
                Ok(()) => {
                    &&& accepted(old(self).cursor(), offset)
                    &&& final(self).cursor() == target(old(self).cursor(), offset) + 4096
                    &&& final(self).bytes() == old(self).bytes() + page_record(
                        bytes_of(data),
                        target(old(self).cursor(), offset),
                        secinfo,
                    )
                },
                Err(SgxsError::InvalidPageOffset) => {
                    &&& *final(self) == *old(self)
                    &&& offset matches Some(o) && o % 4096 != 0
                },
                Err(SgxsError::StreamNotCanonical) => {
                    &&& *final(self) == *old(self)
                    &&& offset matches Some(o) && o % 4096 == 0 && o < old(self).cursor()
                },
                Err(SgxsError::Sink(_)) => false,
            },
    {
        match self.check_offset(offset) {
            Ok(()) => {},
            Err(e) => {
                return Err(e);
            },
        }
        match sink_result(append_page(&mut self.sink, data, self.next_offset, secinfo)) {
            Ok(()) => {},
            Err(e) => {
                return Err(e);
            },
        }
        self.next_offset = self.next_offset + 4096;
        Ok(())
    }

    /// Writes `n` pages in a row, from the given offset or from the cursor.
    ///
    /// An offset that is no whole number of pages gives `InvalidPageOffset`,
    /// one below the cursor `StreamNotCanonical`; in both cases nothing is
    /// written. Otherwise the pages' records follow the bytes written so far
    /// and the cursor stands behind the last page.
    pub fn write_pages(
        &mut self,
        data: Option<&[u8]>,
        n: usize,
        offset: Option<u64>,
        secinfo: u64,
    ) -> (r: Result<(), SgxsError>)
        requires
            target(old(self).cursor(), offset) + 4096 * n <= u64::MAX,
        ensures
            r is Ok <==> accepted(old(self).cursor(), offset),
            match r {
                Ok(()) => {
                    &&& accepted(old(self).cursor(), offset)
                    &&& final(self).cursor() == target(old(self).cursor(), offset) + 4096 * n
                    &&& final(self).bytes() == old(self).bytes() + page_records(
                        bytes_of(data),
                        n,
                        target(old(self).cursor(), offset),
                        secinfo,
                    )
                },
                Err(SgxsError::InvalidPageOffset) => {
                    &&& *final(self) == *old(self)
                    &&& offset matches Some(o) && o % 4096 != 0
                },
                Err(SgxsError::StreamNotCanonical) => {
                    &&& *final(self) == *old(self)
                    &&& offset matches Some(o) && o % 4096 == 0 && o < old(self).cursor()
                },
                Err(SgxsError::Sink(_)) => false,
            },
    {
        match self.check_offset(offset) {
            Ok(()) => {},
            Err(e) => {
                return Err(e);
            },
        }
        match sink_result(append_pages(&mut self.sink, data, n, self.next_offset, secinfo)) {
            Ok(()) => {},
            Err(e) => {
                return Err(e);
            },
        }
        self.next_offset = self.next_offset + 4096 * (n as u64);
        Ok(())
    }

    /// The least offset that the next page may have.
    pub fn offset(&self) -> (r: u64)
        ensures
            r == self.cursor(),
    {
        self.next_offset
    }

    /// Closes the stream and hands out its bytes.
    pub fn into_sink(self) -> (r: Vec<u8>)
        ensures
            r@ == self.bytes(),
    {
        self.sink
    }
}

/// Pages that go to a stream together: a row of pages with one set of
/// attributes, or one page on its own.
#[derive(Debug, PartialEq, Eq)]
pub struct PageRun {
    /// The bytes of the pages from the first on, shorter pages filled up with
    /// zero; without data the pages have no contents.
    pub data: Option<Vec<u8>>,
    /// Number of pages in the row.
    pub pages: usize,
    /// Where the first page goes; at the cursor where there is no address.
    pub address: Option<u64>,
    /// Attributes of each page.
    pub secinfo: u64,
    /// The run is one page that is written on its own.
    pub single: bool,
}

/// What a run of pages is to a stream.
pub struct RunView {
    pub data: Option<Seq<u8>>,
    pub pages: usize,
    pub address: Option<u64>,
    pub secinfo: u64,
    pub single: bool,
}

impl View for PageRun {
    type V = RunView;

    open spec fn view(&self) -> RunView {
        RunView {
            data: match self.data {
                Some(v) => Some(v@),
                None => None,
            },
            pages: self.pages,
            address: self.address,
            secinfo: self.secinfo,
            single: self.single,
        }
    }
}

/// What each run of a list is to a stream.
pub open spec fn views(runs: Seq<PageRun>) -> Seq<RunView> {
    Seq::new(runs.len(), |i: int| runs[i]@)
}

impl RunView {
    /// Number of pages that the run writes.
    pub open spec fn count(&self) -> int {
        if self.single {
            1
        } else {
            self.pages as int
        }
    }

    /// Address of the run's first page at the given cursor.
    pub open spec fn start(&self, cursor: int) -> int {
        match self.address {
            Some(o) => o as int,
            None => cursor,
        }
    }

    /// The cursor behind the run.
    pub open spec fn end(&self, cursor: int) -> int {
        self.start(cursor) + 4096 * self.count()
    }

    /// A canonical stream takes the run at the given cursor.
    pub open spec fn fits(&self, cursor: int) -> bool {
        match self.address {
            Some(o) => o % 4096 == 0 && o >= cursor,
            None => true,
        }
    }

    /// The records that the run adds to a stream at the given cursor.
    pub open spec fn records(&self, cursor: int) -> Seq<u8> {
        if self.single {
            page_record(self.data, self.start(cursor) as u64, self.secinfo)
        } else {
            page_records(self.data, self.pages, self.start(cursor) as u64, self.secinfo)
        }
    }

    /// A stream at the given cursor refuses the run with the given error.
    pub open spec fn refused(&self, cursor: int, e: SgxsError) -> bool {
        self.address matches Some(o) && match e {
            SgxsError::InvalidPageOffset => o % 4096 != 0,
            SgxsError::StreamNotCanonical => o % 4096 == 0 && o < cursor,
            _ => false,
        }
    }
}

/// The cursor of a stream that stood at `cursor` and took the runs.
pub open spec fn cursor_after(cursor: int, runs: Seq<RunView>) -> int
    decreases runs.len(),
{
    if runs.len() == 0 {
        cursor
    } else {
        runs.last().end(cursor_after(cursor, runs.drop_last()))
    }
}

/// A canonical stream at `cursor` takes the runs one after the other.
pub open spec fn canonical(cursor: int, runs: Seq<RunView>) -> bool
    decreases runs.len(),
{
    runs.len() == 0 || (canonical(cursor, runs.drop_last()) && runs.last().fits(
        cursor_after(cursor, runs.drop_last()),
    ))
}

/// The records that the runs add to a stream at `cursor`.
pub open spec fn stream_of(cursor: int, runs: Seq<RunView>) -> Seq<u8>
    decreases runs.len(),
{
    if runs.len() == 0 {
        Seq::empty()
    } else {
        stream_of(cursor, runs.drop_last()) + runs.last().records(
            cursor_after(cursor, runs.drop_last()),
        )
    }
}

/// No run ends beyond the largest offset.
pub open spec fn runs_fit(cursor: int, runs: Seq<RunView>) -> bool {
    forall|k: int|
        0 <= k < runs.len() ==> (#[trigger] runs[k]).end(cursor_after(cursor, runs.take(k)))
            <= u64::MAX
}

/// The address of page `p` of run `k`.
pub open spec fn page_address(cursor: int, runs: Seq<RunView>, k: int, p: int) -> int {
    runs[k].start(cursor_after(cursor, runs.take(k))) + 4096 * p
}

/// The cursor does not move back over the runs of a canonical stream, and
/// every run begins at or behind the cursor that was there before it.
pub proof fn lemma_cursor_ascends(cursor: int, runs: Seq<RunView>, k: int)
    requires
        canonical(cursor, runs),
        0 <= k <= runs.len(),
    ensures
        canonical(cursor, runs.take(k)),
        cursor <= cursor_after(cursor, runs.take(k)) <= cursor_after(cursor, runs),
    decreases runs.len(),
{
    if runs.len() == 0 {
        assert(runs.take(k) =~= runs);
    } else if k == runs.len() {
        assert(runs.take(k) =~= runs);
        lemma_cursor_ascends(cursor, runs.drop_last(), k - 1);
    } else {
        lemma_cursor_ascends(cursor, runs.drop_last(), k);
        assert(runs.drop_last().take(k) =~= runs.take(k));
    }
}

/// In a canonical stream the addresses of the pages ascend strictly: of two
/// pages, the one that is written later has the higher address.
pub proof fn lemma_canonical_order(cursor: int, runs: Seq<RunView>, j: int, p: int, k: int, q: int)
    requires
        canonical(cursor, runs),
        0 <= j <= k < runs.len(),
        0 <= p < runs[j].count(),
        0 <= q < runs[k].count(),
        j < k || p < q,
    ensures
        page_address(cursor, runs, j, p) < page_address(cursor, runs, k, q),
{
    if j < k {
        lemma_cursor_ascends(cursor, runs, k + 1);
        let upto = runs.take(k + 1);
        assert(upto.drop_last() =~= runs.take(k));
        assert(upto.last() == runs[k]);
        lemma_cursor_ascends(cursor, runs.take(k), j + 1);
        assert(runs.take(k).take(j + 1) =~= runs.take(j + 1));
        let first = runs.take(j + 1);
        assert(first.drop_last() =~= runs.take(j));
        assert(first.last() == runs[j]);
        lemma_cursor_ascends(cursor, runs, j + 1);
    }
}

/// Runs that are handed to a stream one list after the other behave as the
/// one list of all of them.
pub proof fn lemma_runs_concat(cursor: int, a: Seq<RunView>, b: Seq<RunView>)
    ensures
        cursor_after(cursor, a + b) == cursor_after(cursor_after(cursor, a), b),
        canonical(cursor, a + b) == (canonical(cursor, a) && canonical(
            cursor_after(cursor, a),
            b,
        )),
        stream_of(cursor, a + b) == stream_of(cursor, a) + stream_of(cursor_after(cursor, a), b),
    decreases b.len(),
{
    if b.len() == 0 {
        assert(a + b =~= a);
        assert(stream_of(cursor, a) + Seq::<u8>::empty() =~= stream_of(cursor, a));
    } else {
        lemma_runs_concat(cursor, a, b.drop_last());
        assert((a + b).drop_last() =~= a + b.drop_last());
        assert((a + b).last() == b.last());
        let next = cursor_after(cursor, a);
        assert(stream_of(cursor, a + b) =~= stream_of(cursor, a) + stream_of(next, b));
    }
}

/// Every run of a canonical stream is one that the stream takes at the
/// cursor that the runs before it leave.
pub proof fn lemma_run_fits(cursor: int, runs: Seq<RunView>, k: int)
    requires
        canonical(cursor, runs),
        0 <= k < runs.len(),
    ensures
        runs[k].fits(cursor_after(cursor, runs.take(k))),
{
    lemma_cursor_ascends(cursor, runs, k + 1);
    let upto = runs.take(k + 1);
    assert(upto.drop_last() =~= runs.take(k));
    assert(upto.last() == runs[k]);
}

/// The records of a run with contents hold every byte of its pages: in the
/// records of a list of runs, byte `x` of the data of run `k`, or zero where
/// the data has ended, stands behind the records of the runs before it, at
/// its place in the records of its run.
pub proof fn lemma_run_data_in_stream(cursor: int, runs: Seq<RunView>, k: int, x: int)
    requires
        0 <= k < runs.len(),
        runs[k].data is Some,
        0 <= x < 4096 * runs[k].count(),
        0 <= runs[k].start(cursor_after(cursor, runs.take(k))),
        runs[k].end(cursor_after(cursor, runs.take(k))) <= u64::MAX,
    ensures
        ({
            let before = stream_of(cursor, runs.take(k)).len();
            &&& 0 <= before + place_in_records(x) < stream_of(cursor, runs).len()
            &&& stream_of(cursor, runs)[before + place_in_records(x)] == padded(
                runs[k].data.unwrap(),
                x,
            )
        }),
{
    let run = runs[k];
    let data = run.data.unwrap();
    let at = cursor_after(cursor, runs.take(k));
    let here = run.records(at);
    let upto = runs.take(k + 1);
    assert(upto.drop_last() =~= runs.take(k));
    assert(upto.last() == run);
    assert(stream_of(cursor, upto) == stream_of(cursor, runs.take(k)) + here);
    assert(runs =~= upto + runs.skip(k + 1));
    lemma_runs_concat(cursor, upto, runs.skip(k + 1));
    let offset = run.start(at) as u64;
    lemma_data_in_records(data, run.count(), offset, run.secinfo, x);
    if run.single {
        assert(pages_upto(Some(data), 0, offset, run.secinfo) =~= Seq::<u8>::empty());
        assert(pages_upto(Some(data), 1, offset, run.secinfo) =~= page_at(
            Some(data),
            0,
            offset,
            run.secinfo,
        ));
    }
    assert(here[place_in_records(x)] == padded(data, x));
}

/// Hands the runs to the stream one after the other.
///
/// The first run that the stream refuses ends the work with the stream's
/// error; the runs before it are written. Otherwise the stream holds the
/// records of all runs.
pub fn write_runs(writer: &mut CanonicalWriter, runs: &Vec<PageRun>) -> (r: Result<(), SgxsError>)
    requires
        runs_fit(old(writer).cursor() as int, views(runs@)),
    ensures
        r is Ok <==> canonical(old(writer).cursor() as int, views(runs@)),
        match r {
            Ok(()) => {
                &&& canonical(old(writer).cursor() as int, views(runs@))
                &&& final(writer).cursor() == cursor_after(
                    old(writer).cursor() as int,
                    views(runs@),
                )
                &&& final(writer).bytes() == old(writer).bytes() + stream_of(
                    old(writer).cursor() as int,
                    views(runs@),
                )
            },
            Err(e) => exists|k: int|
                {
                    &&& 0 <= k < runs@.len()
                    &&& canonical(old(writer).cursor() as int, #[trigger] views(runs@).take(k))
                    &&& runs@[k]@.refused(
                        cursor_after(old(writer).cursor() as int, views(runs@).take(k)),
                        e,
                    )
                    &&& final(writer).bytes() == old(writer).bytes() + stream_of(
                        old(writer).cursor() as int,
                        views(runs@).take(k),
                    )
                },
        },
{
    let ghost start = writer.cursor() as int;
    let ghost before = writer.bytes();
    let ghost all = views(runs@);
    let mut i: usize = 0;
    proof {
        assert(all.take(0) =~= Seq::<RunView>::empty());
        assert(before + Seq::<u8>::empty() =~= before);
    }
    while i < runs.len()
        invariant
            i <= runs.len(),
            all == views(runs@),
            start == old(writer).cursor(),
            before == old(writer).bytes(),
            runs_fit(start, all),
            canonical(start, all.take(i as int)),
            writer.cursor() == cursor_after(start, all.take(i as int)),
            writer.bytes() == before + stream_of(start, all.take(i as int)),
        decreases runs.len() - i,
    {
        let run = &runs[i];
        let ghost cursor = writer.cursor() as int;
        let ghost done = all.take(i as int);
        let ghost upto = all.take(i + 1);
        proof {
            assert(upto.drop_last() =~= done);
            assert(upto.last() == all[i as int]);
            assert(all[i as int] == run@);
            assert(all[i as int].end(cursor) <= u64::MAX);
        }
        let data: Option<&[u8]> = match &run.data {
            Some(v) => Some(v.as_slice()),
            None => None,
        };
        let written = if run.single {
            writer.write_page(data, run.address, run.secinfo)
        } else {
            writer.write_pages(data, run.pages, run.address, run.secinfo)
        };
        match written {
            Ok(()) => {
                proof {
                    assert(writer.bytes() =~= before + stream_of(start, upto));
                }
            },
            Err(e) => {
                proof {
                    assert(run@.refused(cursor, e));
                    assert(writer.bytes() == before + stream_of(start, all.take(i as int)));
                    assert(canonical(start, all.take(i as int)));
                    if canonical(start, all) {
                        lemma_run_fits(start, all, i as int);
                    }
                }
                return Err(e);
            },
        }
        i += 1;
    }
    proof {
        assert(all.take(all.len() as int) =~= all);
    }
    Ok(())
}

} // verus!

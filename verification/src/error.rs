//! Error values reported by validation, layout and emission.

use vstd::prelude::*;

verus! {

/// Failure reported by the SGXS stream layer.
#[derive(Debug, PartialEq, Eq)]
pub enum SgxsError {
    /// A page offset was below the stream's cursor.
    StreamNotCanonical,
    /// A page offset was not a multiple of the page size.
    InvalidPageOffset,
    /// The byte sink refused a record; the text is the sink's own message.
    Sink(String),
}

/// Everything that can stop a conversion.
#[derive(Debug, PartialEq, Eq)]
#[allow(inconsistent_fields)]
pub enum Error {
    /// The enclave would end at or beyond 2^53.
    EnclaveSizeTooBig,
    /// A dynamic symbol has no defining section.
    DynamicSymbolUndefined(String),
    /// A required dynamic symbol occurs twice.
    DynamicSymbolDuplicate(&'static str),
    /// These required dynamic symbols do not occur at all.
    DynamicSymbolMissing(Vec<&'static str>),
    /// A required dynamic symbol does not have the size it must have.
    DynamicSymbolIncorrectSize { name: &'static str, expected: u64, actual: u64 },
    /// The section named `.dynsym` holds no 64-bit dynamic symbol table.
    DynamicSymbolTableNotInDynsymSection,
    /// No section is named `.dynsym`.
    DynamicSymbolTableNotFound,
    /// A dynamic entry asks for a procedure linkage table.
    DynEntryUnsupportedPLTGOT,
    /// A dynamic entry names initialisation functions.
    DynEntryUnsupportedInitFunction,
    /// A dynamic entry names termination functions.
    DynEntryUnsupportedFiniFunction,
    /// A dynamic entry describes relocations with implicit addends.
    DynEntryUnsupportedImplicitReloc,
    /// `DT_RELA` occurs twice.
    DynEntryDuplicateDtRela,
    /// `DT_RELACOUNT` occurs twice.
    DynEntryDuplicateDtRelacount,
    /// `DT_RELA` occurs without `DT_RELACOUNT`.
    DynEntryFoundDtRelaButNotDtRelacount,
    /// `DT_RELACOUNT` occurs without `DT_RELA`.
    DynEntryFoundDtRelacountButNotDtRela,
    /// The dynamic segment holds no 64-bit dynamic section.
    DynamicSectionNotInPtDynamicSegment,
    /// No program header is of the dynamic kind.
    DynamicSectionNotFound,
    /// A relocation names a symbol or is not of the relative kind.
    RelocationInvalid { section: u32, rtype: u32 },
    /// A relocation's eight bytes do not lie inside a writable loadable segment.
    RelocationOutsideWritableSegment(u64),
    /// The number of relocations differs from `DT_RELACOUNT`.
    RelocationInvalidCount { expected: u64, actual: usize },
    /// The image is not of the 64-bit class.
    ElfClassNot64,
    /// No program header is loadable.
    NoLoadableSegments,
    /// The SGXS stream layer failed.
    Sgxs(SgxsError),
}

/// The characters of each name in a list.
pub open spec fn names_of(v: Seq<&'static str>) -> Seq<Seq<char>> {
    Seq::new(v.len(), |i: int| v[i]@)
}

/// Two errors say the same: they are of one kind, and what they carry reads
/// the same.
pub open spec fn same_error(a: Error, b: Error) -> bool {
    match (a, b) {
        (Error::DynamicSymbolUndefined(x), Error::DynamicSymbolUndefined(y)) => x@ == y@,
        (Error::DynamicSymbolDuplicate(x), Error::DynamicSymbolDuplicate(y)) => x@ == y@,
        (Error::DynamicSymbolMissing(x), Error::DynamicSymbolMissing(y)) => names_of(x@)
            == names_of(y@),
        (
            Error::DynamicSymbolIncorrectSize { name: x, expected: e, actual: c },
            Error::DynamicSymbolIncorrectSize { name: y, expected: f, actual: d },
        ) => x@ == y@ && e == f && c == d,
        _ => a == b,
    }
}

/// Two results say the same: both are the same value, or both are errors
/// that say the same.
pub open spec fn same_result<T>(a: Result<T, Error>, b: Result<T, Error>) -> bool {
    match (a, b) {
        (Ok(x), Ok(y)) => x == y,
        (Err(x), Err(y)) => same_error(x, y),
        _ => false,
    }
}

} // verus!

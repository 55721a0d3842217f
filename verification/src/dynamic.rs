//! Discovery and validation of the dynamic section.

use vstd::prelude::*;
use crate::elf::{DynEntry, DynTag, ElfImage, ProgramHeader, SegmentData, SegmentKind};
use crate::error::{same_result, Error};

verus! {

/// Value of the tag that gives the number of relative relocations with
/// explicit addend.
pub const DT_RELACOUNT: u64 = 0x6ffffff9;

/// Value of the tag that gives the number of relative relocations with
/// implicit addend.
pub const DT_RELCOUNT: u64 = 0x6ffffffa;

/// The two dynamic entries that the engine reads.
#[derive(Debug, Clone, Copy, PartialEq, Eq)]
pub struct Dynamic {
    /// Address of the relocation table.
    pub rela: u64,
    /// Number of relocations in it.
    pub relacount: u64,
}

/// What the engine makes of a dynamic tag.
#[derive(Debug, Clone, Copy, PartialEq, Eq, Structural)]
pub enum TagClass {
    /// Belongs to a procedure linkage table.
    PltGot,
    /// Names initialisation functions.
    Init,
    /// Names termination functions.
    Fini,
    /// Describes relocations with implicit addend.
    ImplicitReloc,
    /// Address of the relocation table.
    Rela,
    /// Number of relocations.
    RelaCount,
    /// Of no concern.
    Ignored,
}

/// The class of a tag.
pub open spec fn classify(tag: DynTag) -> TagClass {
    match tag {
        DynTag::PltRelSize | DynTag::PltRel | DynTag::JmpRel => TagClass::PltGot,
        DynTag::Init | DynTag::InitArray | DynTag::InitArraySize => TagClass::Init,
        DynTag::Fini | DynTag::FiniArray | DynTag::FiniArraySize => TagClass::Fini,
        DynTag::Rel | DynTag::RelSize | DynTag::RelEnt => TagClass::ImplicitReloc,
        DynTag::Rela => TagClass::Rela,
        DynTag::OsSpecific(v) => if v == DT_RELACOUNT {
            TagClass::RelaCount
        } else if v == DT_RELCOUNT {
            TagClass::ImplicitReloc
        } else {
            TagClass::Ignored
        },
        _ => TagClass::Ignored,
    }
}

/// The class of a tag.
pub fn tag_class(tag: DynTag) -> (r: TagClass)
    ensures
        r == classify(tag),
{
    match tag {
        DynTag::PltRelSize | DynTag::PltRel | DynTag::JmpRel => TagClass::PltGot,
        DynTag::Init | DynTag::InitArray | DynTag::InitArraySize => TagClass::Init,
        DynTag::Fini | DynTag::FiniArray | DynTag::FiniArraySize => TagClass::Fini,
        DynTag::Rel | DynTag::RelSize | DynTag::RelEnt => TagClass::ImplicitReloc,
        DynTag::Rela => TagClass::Rela,
        DynTag::OsSpecific(v) => if v == DT_RELACOUNT {
            TagClass::RelaCount
        } else if v == DT_RELCOUNT {
            TagClass::ImplicitReloc
        } else {
            TagClass::Ignored
        },
        _ => TagClass::Ignored,
    }
}

/// Entry `j` is of class `c`.
pub open spec fn class_at(entries: Seq<DynEntry>, c: TagClass, j: int) -> bool {
    0 <= j < entries.len() && classify(entries[j].tag) == c
}

/// An entry before `i` is of class `c`.
pub open spec fn has_class(entries: Seq<DynEntry>, c: TagClass, i: int) -> bool {
    exists|j: int| j < i && #[trigger] class_at(entries, c, j)
}

/// Entry `i` is refused: its class is not supported, or it is the second
/// entry of a class that may occur once.
pub open spec fn refused_at(entries: Seq<DynEntry>, i: int) -> bool {
    match classify(entries[i].tag) {
        TagClass::Ignored => false,
        TagClass::Rela => has_class(entries, TagClass::Rela, i),
        TagClass::RelaCount => has_class(entries, TagClass::RelaCount, i),
        _ => true,
    }
}

/// Entry `i` is the first refused one.
pub open spec fn first_refused(entries: Seq<DynEntry>, i: int) -> bool {
    &&& 0 <= i < entries.len()
    &&& refused_at(entries, i)
    &&& forall|j: int| 0 <= j < i ==> !#[trigger] refused_at(entries, j)
}

/// No entry is refused.
pub open spec fn none_refused(entries: Seq<DynEntry>) -> bool {
    forall|j: int| 0 <= j < entries.len() ==> !#[trigger] refused_at(entries, j)
}

/// The first refused entry is of class `c`.
pub open spec fn refused_for(entries: Seq<DynEntry>, c: TagClass) -> bool {
    exists|i: int| #[trigger] first_refused(entries, i) && classify(entries[i].tag) == c
}

/// What the walk over a dynamic section yields.
///
/// The first refused entry decides the error by its class. Without one, the
/// address and the count of the relocation table come together or not at
/// all; one without the other is an error.
pub open spec fn entries_outcome(entries: Seq<DynEntry>, r: Result<Option<Dynamic>, Error>) -> bool {
    let n = entries.len() as int;
    match r {
        Err(Error::DynEntryUnsupportedPLTGOT) => refused_for(entries, TagClass::PltGot),
        Err(Error::DynEntryUnsupportedInitFunction) => refused_for(entries, TagClass::Init),
        Err(Error::DynEntryUnsupportedFiniFunction) => refused_for(entries, TagClass::Fini),
        Err(Error::DynEntryUnsupportedImplicitReloc) => refused_for(
            entries,
            TagClass::ImplicitReloc,
        ),
        Err(Error::DynEntryDuplicateDtRela) => refused_for(entries, TagClass::Rela),
        Err(Error::DynEntryDuplicateDtRelacount) => refused_for(entries, TagClass::RelaCount),
        Err(Error::DynEntryFoundDtRelaButNotDtRelacount) => {
            &&& none_refused(entries)
            &&& has_class(entries, TagClass::Rela, n)
            &&& !has_class(entries, TagClass::RelaCount, n)
        },
        Err(Error::DynEntryFoundDtRelacountButNotDtRela) => {
            &&& none_refused(entries)
            &&& !has_class(entries, TagClass::Rela, n)
            &&& has_class(entries, TagClass::RelaCount, n)
        },
        Ok(None) => {
            &&& none_refused(entries)
            &&& !has_class(entries, TagClass::Rela, n)
            &&& !has_class(entries, TagClass::RelaCount, n)
        },
        Ok(Some(d)) => {
            &&& none_refused(entries)
            &&& exists|a: int, b: int|
                {
                    &&& #[trigger] class_at(entries, TagClass::Rela, a)
                    &&& #[trigger] class_at(entries, TagClass::RelaCount, b)
                    &&& d.rela == entries[a].value
                    &&& d.relacount == entries[b].value
                }
        },
        _ => false,
    }
}

/// Program header `i` is the first of the dynamic kind.
pub open spec fn first_dynamic(headers: Seq<ProgramHeader>, i: int) -> bool {
    &&& 0 <= i < headers.len()
    &&& headers[i].kind == SegmentKind::Dynamic
    &&& forall|j: int| 0 <= j < i ==> (#[trigger] headers[j]).kind != SegmentKind::Dynamic
}

/// Some program header is of the dynamic kind.
pub open spec fn has_dynamic(headers: Seq<ProgramHeader>) -> bool {
    exists|i: int| 0 <= i < headers.len() && (#[trigger] headers[i]).kind == SegmentKind::Dynamic
}

/// What the search for the dynamic entries of an image yields.
///
/// Without a program header of the dynamic kind it is
/// `DynamicSectionNotFound`; where the first such header holds no 64-bit
/// dynamic section it is `DynamicSectionNotInPtDynamicSegment`; otherwise the
/// walk over its entries decides.
pub open spec fn dynamic_outcome(elf: &ElfImage, r: Result<Option<Dynamic>, Error>) -> bool {
    match r {
        Err(Error::DynamicSectionNotFound) => !has_dynamic(elf.program_headers@),
        Err(Error::DynamicSectionNotInPtDynamicSegment) => exists|i: int|
            #[trigger] first_dynamic(elf.program_headers@, i) && !(elf.program_headers@[i].data
                is Dynamic64),
        _ => exists|i: int|
            #[trigger] first_dynamic(elf.program_headers@, i) && (
            elf.program_headers@[i].data matches SegmentData::Dynamic64(v) && entries_outcome(
                v@,
                r,
            )),
    }
}

/// Index of the first program header of the dynamic kind.
pub fn find_dynamic(elf: &ElfImage) -> (r: Option<usize>)
    ensures
        match r {
            Some(i) => first_dynamic(elf.program_headers@, i as int),
            None => !has_dynamic(elf.program_headers@),
        },
{
    let mut i: usize = 0;
    while i < elf.program_headers.len()
        invariant
            i <= elf.program_headers.len(),
            forall|j: int|
                0 <= j < i ==> (#[trigger] elf.program_headers@[j]).kind != SegmentKind::Dynamic,
        decreases elf.program_headers.len() - i,
    {
        let hit = match elf.program_headers[i].kind {
            SegmentKind::Dynamic => true,
            _ => false,
        };
        if hit {
            return Some(i);
        }
        i += 1;
    }
    None
}

/// Walks the entries of a dynamic section.
pub fn scan_dynamic(entries: &Vec<DynEntry>) -> (r: Result<Option<Dynamic>, Error>)
    ensures
        entries_outcome(entries@, r),
{
    let mut rela: Option<u64> = None;
    let mut relacount: Option<u64> = None;
    let ghost mut a: int = 0;
    let ghost mut b: int = 0;
    let mut i: usize = 0;
    while i < entries.len()
        invariant
            i <= entries.len(),
            forall|j: int| 0 <= j < i ==> !#[trigger] refused_at(entries@, j),
            rela is Some <==> has_class(entries@, TagClass::Rela, i as int),
            relacount is Some <==> has_class(entries@, TagClass::RelaCount, i as int),
            rela matches Some(v) ==> class_at(entries@, TagClass::Rela, a) && v
                == entries@[a].value,
            relacount matches Some(v) ==> class_at(entries@, TagClass::RelaCount, b) && v
                == entries@[b].value,
        decreases entries.len() - i,
    {
        let entry = entries[i];
        let class = tag_class(entry.tag);
        proof {
            assert(class_at(entries@, class, i as int));
            assert forall|c: TagClass| c != class implies (has_class(entries@, c, i + 1)
                <==> has_class(entries@, c, i as int)) by {
                if has_class(entries@, c, i + 1) {
                    let j = choose|j: int| j < i + 1 && class_at(entries@, c, j);
                    assert(j < i && class_at(entries@, c, j));
                }
                if has_class(entries@, c, i as int) {
                    let j = choose|j: int| j < i && class_at(entries@, c, j);
                    assert(j < i + 1 && class_at(entries@, c, j));
                }
            }
            assert(has_class(entries@, class, i + 1));
        }
        match class {
            TagClass::PltGot => {
                proof {
                    assert(first_refused(entries@, i as int));
                }
                return Err(Error::DynEntryUnsupportedPLTGOT);
            },
            TagClass::Init => {
                proof {
                    assert(first_refused(entries@, i as int));
                }
                return Err(Error::DynEntryUnsupportedInitFunction);
            },
            TagClass::Fini => {
                proof {
                    assert(first_refused(entries@, i as int));
                }
                return Err(Error::DynEntryUnsupportedFiniFunction);
            },
            TagClass::ImplicitReloc => {
                proof {
                    assert(first_refused(entries@, i as int));
                }
                return Err(Error::DynEntryUnsupportedImplicitReloc);
            },
            TagClass::Rela => {
                if rela.is_some() {
                    proof {
                        assert(first_refused(entries@, i as int));
                    }
                    return Err(Error::DynEntryDuplicateDtRela);
                }
                rela = Some(entry.value);
                proof {
                    a = i as int;
                }
            },
            TagClass::RelaCount => {
                if relacount.is_some() {
                    proof {
                        assert(first_refused(entries@, i as int));
                    }
                    return Err(Error::DynEntryDuplicateDtRelacount);
                }
                relacount = Some(entry.value);
                proof {
                    b = i as int;
                }
            },
            TagClass::Ignored => {},
        }
        i += 1;
    }
    proof {
        assert(none_refused(entries@));
    }
    match (rela, relacount) {
        (Some(rela), Some(relacount)) => {
            proof {
                assert(class_at(entries@, TagClass::Rela, a));
                assert(class_at(entries@, TagClass::RelaCount, b));
            }
            Ok(Some(Dynamic { rela, relacount }))
        },
        (None, None) => Ok(None),
        (_, None) => Err(Error::DynEntryFoundDtRelaButNotDtRelacount),
        (None, _) => Err(Error::DynEntryFoundDtRelacountButNotDtRela),
    }
}

/// Finds the dynamic section of an image and the two entries in it that the
/// engine reads.
pub fn check_dynamic(elf: &ElfImage) -> (r: Result<Option<Dynamic>, Error>)
    ensures
        dynamic_outcome(elf, r),
{
    match find_dynamic(elf) {
        None => Err(Error::DynamicSectionNotFound),
        Some(i) => {
            assert(first_dynamic(elf.program_headers@, i as int));
            match &elf.program_headers[i].data {
                SegmentData::Dynamic64(entries) => scan_dynamic(entries),
                _ => Err(Error::DynamicSectionNotInPtDynamicSegment),
            }
        },
    }
}

/// There is one first refused entry.
pub proof fn lemma_first_refused_unique(entries: Seq<DynEntry>, i: int, j: int)
    requires
        first_refused(entries, i),
        first_refused(entries, j),
    ensures
        i == j,
{
    if i < j {
        assert(!refused_at(entries, i));
    } else if j < i {
        assert(!refused_at(entries, j));
    }
}

/// Where no entry is refused, at most one entry is of a class that may occur
/// once.
pub proof fn lemma_class_once(entries: Seq<DynEntry>, c: TagClass, i: int, j: int)
    requires
        none_refused(entries),
        c == TagClass::Rela || c == TagClass::RelaCount,
        class_at(entries, c, i),
        class_at(entries, c, j),
    ensures
        i == j,
{
    if i < j {
        assert(has_class(entries, c, j));
        assert(refused_at(entries, j));
    } else if j < i {
        assert(has_class(entries, c, i));
        assert(refused_at(entries, i));
    }
}

/// The walk over a dynamic section has one outcome.
pub proof fn lemma_entries_outcome_unique(
    entries: Seq<DynEntry>,
    a: Result<Option<Dynamic>, Error>,
    b: Result<Option<Dynamic>, Error>,
)
    requires
        entries_outcome(entries, a),
        entries_outcome(entries, b),
    ensures
        same_result(a, b),
{
    let n = entries.len() as int;
    assert forall|i: int, j: int| #[trigger]
        first_refused(entries, i) && #[trigger] first_refused(entries, j) implies i == j by {
        lemma_first_refused_unique(entries, i, j);
    }
    assert forall|i: int| #[trigger] first_refused(entries, i) implies !none_refused(entries) by {
        assert(refused_at(entries, i));
    }
    assert forall|c: TagClass, i: int| #[trigger] class_at(entries, c, i) implies has_class(
        entries,
        c,
        n,
    ) by {}
    match (a, b) {
        (Ok(Some(d)), Ok(Some(e))) => {
            let (p, q) = choose|p: int, q: int|
                {
                    &&& #[trigger] class_at(entries, TagClass::Rela, p)
                    &&& #[trigger] class_at(entries, TagClass::RelaCount, q)
                    &&& d.rela == entries[p].value
                    &&& d.relacount == entries[q].value
                };
            let (u, v) = choose|u: int, v: int|
                {
                    &&& #[trigger] class_at(entries, TagClass::Rela, u)
                    &&& #[trigger] class_at(entries, TagClass::RelaCount, v)
                    &&& e.rela == entries[u].value
                    &&& e.relacount == entries[v].value
                };
            lemma_class_once(entries, TagClass::Rela, p, u);
            lemma_class_once(entries, TagClass::RelaCount, q, v);
        },
        _ => {},
    }
}

/// There is one first program header of the dynamic kind.
pub proof fn lemma_first_dynamic_unique(headers: Seq<ProgramHeader>, i: int, j: int)
    requires
        first_dynamic(headers, i),
        first_dynamic(headers, j),
    ensures
        i == j,
{
    if i < j {
        assert(headers[i].kind != SegmentKind::Dynamic);
    } else if j < i {
        assert(headers[j].kind != SegmentKind::Dynamic);
    }
}

/// The search for the dynamic entries of an image has one outcome.
pub proof fn lemma_dynamic_outcome_unique(
    elf: &ElfImage,
    a: Result<Option<Dynamic>, Error>,
    b: Result<Option<Dynamic>, Error>,
)
    requires
        dynamic_outcome(elf, a),
        dynamic_outcome(elf, b),
    ensures
        same_result(a, b),
{
    let headers = elf.program_headers@;
    assert forall|i: int, j: int| #[trigger]
        first_dynamic(headers, i) && #[trigger] first_dynamic(headers, j) implies i == j by {
        lemma_first_dynamic_unique(headers, i, j);
    }
    assert forall|i: int| #[trigger] first_dynamic(headers, i) implies has_dynamic(headers) by {
        assert(headers[i].kind == SegmentKind::Dynamic);
    }
    if exists|i: int| first_dynamic(headers, i) {
        let i = choose|i: int| first_dynamic(headers, i);
        match headers[i].data {
            SegmentData::Dynamic64(v) => {
                assert(entries_outcome(v@, a));
                assert(entries_outcome(v@, b));
                lemma_entries_outcome_unique(v@, a, b);
            },
            _ => {},
        }
    }
}

} // verus!

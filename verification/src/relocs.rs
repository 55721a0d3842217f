//! Validation of the relocations of an image.

use vstd::prelude::*;
use crate::dynamic::Dynamic;
use crate::elf::{flags_writable, ElfImage, ProgramHeader, Rela, Section, SectionData, SegmentKind};
use crate::error::{same_result, Error};

verus! {

/// The one relocation type that is accepted: relative to the load address.
pub const R_X86_64_RELATIVE: u32 = 8;

/// Bytes that a relocation rewrites.
pub const RELOCATION_WIDTH: u64 = 8;

/// The eight bytes at `offset` lie inside the segment, which is loadable and
/// writable.
pub open spec fn covers(h: ProgramHeader, offset: u64) -> bool {
    &&& h.kind == SegmentKind::Load
    &&& flags_writable(h.flags)
    &&& h.virtual_addr <= offset
    &&& offset + 8 <= h.virtual_addr + h.mem_size
}

/// The eight bytes at `offset` lie inside some writable loadable segment.
pub open spec fn in_writable_segment(headers: Seq<ProgramHeader>, offset: u64) -> bool {
    exists|i: int| 0 <= i < headers.len() && covers(#[trigger] headers[i], offset)
}

/// The relocation names no symbol and is of the relative type.
pub open spec fn rela_valid(r: Rela) -> bool {
    r.symbol_table_index == 0 && r.rtype == R_X86_64_RELATIVE
}

/// The relocation is refused.
pub open spec fn rela_refused(headers: Seq<ProgramHeader>, r: Rela) -> bool {
    !rela_valid(r) || !in_writable_segment(headers, r.offset)
}

/// The relocations of a section; none where it is no 64-bit table of them.
pub open spec fn relas_of(section: Section) -> Seq<Rela> {
    match section.data {
        SectionData::Rela64(v) => v@,
        _ => Seq::empty(),
    }
}

/// The relocations of the first `n` sections, in file order.
pub open spec fn relas_upto(sections: Seq<Section>, n: int) -> Seq<Rela>
    decreases n,
{
    if n <= 0 {
        Seq::empty()
    } else {
        relas_upto(sections, n - 1) + relas_of(sections[n - 1])
    }
}

/// All relocations of an image, in file order.
pub open spec fn all_relas(elf: &ElfImage) -> Seq<Rela> {
    relas_upto(elf.sections@, elf.sections@.len() as int)
}

/// The relocations of fewer sections stand at the start of those of more.
pub proof fn lemma_relas_prefix(sections: Seq<Section>, n: int, m: int)
    requires
        0 <= n <= m,
    ensures
        relas_upto(sections, n).len() <= relas_upto(sections, m).len(),
        forall|j: int|
            0 <= j < relas_upto(sections, n).len() ==> relas_upto(sections, n)[j]
                == #[trigger] relas_upto(sections, m)[j],
    decreases m - n,
{
    if n < m {
        lemma_relas_prefix(sections, n, m - 1);
    }
}

/// Relocation `i` is the first refused one.
pub open spec fn first_refused_rela(headers: Seq<ProgramHeader>, all: Seq<Rela>, i: int) -> bool {
    &&& 0 <= i < all.len()
    &&& rela_refused(headers, all[i])
    &&& forall|j: int| 0 <= j < i ==> !rela_refused(headers, #[trigger] all[j])
}

/// No relocation is refused.
pub open spec fn no_refused_rela(headers: Seq<ProgramHeader>, all: Seq<Rela>) -> bool {
    forall|j: int| 0 <= j < all.len() ==> !rela_refused(headers, #[trigger] all[j])
}

/// The number of relocations that the dynamic section announces.
pub open spec fn announced(dynamic: Option<Dynamic>) -> u64 {
    match dynamic {
        Some(d) => d.relacount,
        None => 0,
    }
}

/// A count as it is reported: cut off at the largest `usize`.
pub open spec fn reported_count(n: nat) -> usize {
    if n <= usize::MAX {
        n as usize
    } else {
        usize::MAX
    }
}

/// What the check of the relocations yields.
///
/// The first refused relocation decides: `RelocationInvalid` where it names a
/// symbol or is of another type, `RelocationOutsideWritableSegment` where its
/// eight bytes are not inside a writable loadable segment. Without one, the
/// check succeeds exactly where the number of relocations is the announced
/// one.
pub open spec fn relocs_outcome(
    elf: &ElfImage,
    dynamic: Option<Dynamic>,
    r: Result<(), Error>,
) -> bool {
    let headers = elf.program_headers@;
    let all = all_relas(elf);
    match r {
        Err(Error::RelocationInvalid { section, rtype }) => exists|i: int|
            {
                &&& #[trigger] first_refused_rela(headers, all, i)
                &&& !rela_valid(all[i])
                &&& section == all[i].symbol_table_index
                &&& rtype == all[i].rtype
            },
        Err(Error::RelocationOutsideWritableSegment(offset)) => exists|i: int|
            {
                &&& #[trigger] first_refused_rela(headers, all, i)
                &&& rela_valid(all[i])
                &&& offset == all[i].offset
            },
        Err(Error::RelocationInvalidCount { expected, actual }) => {
            &&& no_refused_rela(headers, all)
            &&& all.len() != announced(dynamic)
            &&& expected == announced(dynamic)
            &&& actual == reported_count(all.len())
        },
        Ok(()) => no_refused_rela(headers, all) && all.len() == announced(dynamic),
        _ => false,
    }
}

/// Says whether the eight bytes at `offset` lie inside some writable loadable
/// segment.
pub fn offset_is_writable(elf: &ElfImage, offset: u64) -> (r: bool)
    ensures
        r == in_writable_segment(elf.program_headers@, offset),
{
    let mut i: usize = 0;
    while i < elf.program_headers.len()
        invariant
            i <= elf.program_headers.len(),
            forall|j: int| 0 <= j < i ==> !covers(#[trigger] elf.program_headers@[j], offset),
        decreases elf.program_headers.len() - i,
    {
        let h = &elf.program_headers[i];
        if h.loadable() && h.writable() && offset >= h.virtual_addr && h.mem_size
            >= RELOCATION_WIDTH && offset - h.virtual_addr <= h.mem_size - RELOCATION_WIDTH {
            return true;
        }
        i += 1;
    }
    false
}

/// Checks every relocation of the image and their number.
pub fn check_relocs(elf: &ElfImage, dynamic: Option<&Dynamic>) -> (r: Result<(), Error>)
    ensures
        relocs_outcome(
            elf,
            match dynamic {
                Some(d) => Some(*d),
                None => None,
            },
            r,
        ),
{
    let ghost headers = elf.program_headers@;
    let ghost all = all_relas(elf);
    let mut count: u128 = 0;
    let mut s: usize = 0;
    while s < elf.sections.len()
        invariant
            s <= elf.sections.len(),
            headers == elf.program_headers@,
            all == all_relas(elf),
            count == relas_upto(elf.sections@, s as int).len(),
            count <= s * 0x1_0000_0000_0000_0000,
            relas_upto(elf.sections@, s as int).len() <= all.len(),
            forall|j: int|
                0 <= j < relas_upto(elf.sections@, s as int).len() ==> !rela_refused(
                    headers,
                    #[trigger] all[j],
                ),
        decreases elf.sections.len() - s,
    {
        let ghost done = relas_upto(elf.sections@, s as int);
        proof {
            lemma_relas_prefix(elf.sections@, s as int + 1, elf.sections@.len() as int);
            let next = relas_upto(elf.sections@, s as int + 1);
            assert(next == done + relas_of(elf.sections@[s as int]));
            assert forall|j: int| 0 <= j < relas_of(elf.sections@[s as int]).len() implies relas_of(
                elf.sections@[s as int],
            )[j] == #[trigger] all[done.len() + j] by {
                assert(next[done.len() + j] == all[done.len() + j]);
            }
        }
        match &elf.sections[s].data {
            SectionData::Rela64(relas) => {
                count = count + relas.len() as u128;
                let mut t: usize = 0;
                while t < relas.len()
                    invariant
                        t <= relas.len(),
                        headers == elf.program_headers@,
                        all == all_relas(elf),
                        done.len() + relas@.len() <= all.len(),
                        forall|j: int| 0 <= j < relas@.len() ==> relas@[j] == #[trigger] all[done.len() + j],
                        forall|j: int|
                            0 <= j < done.len() + t ==> !rela_refused(headers, #[trigger] all[j]),
                    decreases relas.len() - t,
                {
                    let rela = relas[t];
                    proof {
                        assert(rela == all[done.len() + t]);
                    }
                    if rela.symbol_table_index != 0 || rela.rtype != R_X86_64_RELATIVE {
                        proof {
                            assert(first_refused_rela(headers, all, done.len() + t));
                        }
                        return Err(
                            Error::RelocationInvalid {
                                section: rela.symbol_table_index,
                                rtype: rela.rtype,
                            },
                        );
                    }
                    if !offset_is_writable(elf, rela.offset) {
                        proof {
                            assert(first_refused_rela(headers, all, done.len() + t));
                        }
                        return Err(Error::RelocationOutsideWritableSegment(rela.offset));
                    }
                    t += 1;
                }
            },
            _ => {},
        }
        s += 1;
    }
    let target: u64 = match dynamic {
        Some(d) => d.relacount,
        None => 0,
    };
    if count != target as u128 {
        let actual: usize = if count <= usize::MAX as u128 {
            count as usize
        } else {
            usize::MAX
        };
        return Err(Error::RelocationInvalidCount { expected: target, actual });
    }
    Ok(())
}

/// There is one first refused relocation.
pub proof fn lemma_first_refused_rela_unique(
    headers: Seq<ProgramHeader>,
    all: Seq<Rela>,
    i: int,
    j: int,
)
    requires
        first_refused_rela(headers, all, i),
        first_refused_rela(headers, all, j),
    ensures
        i == j,
{
    if i < j {
        assert(!rela_refused(headers, all[i]));
    } else if j < i {
        assert(!rela_refused(headers, all[j]));
    }
}

/// The check of the relocations has one outcome.
pub proof fn lemma_relocs_outcome_unique(
    elf: &ElfImage,
    dynamic: Option<Dynamic>,
    a: Result<(), Error>,
    b: Result<(), Error>,
)
    requires
        relocs_outcome(elf, dynamic, a),
        relocs_outcome(elf, dynamic, b),
    ensures
        same_result(a, b),
{
    let headers = elf.program_headers@;
    let all = all_relas(elf);
    assert forall|i: int, j: int| #[trigger]
        first_refused_rela(headers, all, i) && #[trigger] first_refused_rela(
            headers,
            all,
            j,
        ) implies i == j by {
        lemma_first_refused_rela_unique(headers, all, i, j);
    }
    assert forall|i: int| #[trigger] first_refused_rela(headers, all, i) implies !no_refused_rela(
        headers,
        all,
    ) by {
        assert(rela_refused(headers, all[i]));
    }
}

} // verus!

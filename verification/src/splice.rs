//! Overlays of eight-byte values on the bytes of loadable segments.

use vstd::prelude::*;
use vstd::bytes::{lemma_auto_spec_u64_to_from_le_bytes, spec_u64_to_le_bytes, u64_to_le_bytes};
use vstd::seq_lib::to_multiset_insert;
use core::cmp::Ordering;
use vstd::std_specs::cmp::{PartialEqSpecImpl, PartialOrdSpecImpl};
use crate::addr::{align_page, page_base, page_floor, size_align_page_size};

verus! {

/// Bytes that a splice replaces.
pub const SPLICE_WIDTH: u64 = 8;

/// A value that takes the place of the eight bytes at an address.
#[derive(Debug, Clone, Copy)]
pub struct Splice {
    pub addr: u64,
    pub value: u64,
}

impl PartialEq for Splice {
    /// Two splices are equal where their addresses are.
    fn eq(&self, other: &Self) -> (r: bool) {
        self.addr == other.addr
    }
}

impl PartialEqSpecImpl for Splice {
    open spec fn obeys_eq_spec() -> bool {
        true
    }

    open spec fn eq_spec(&self, other: &Self) -> bool {
        self.addr == other.addr
    }
}

impl Eq for Splice {

}

impl PartialOrd for Splice {
    /// Splices are ordered by their addresses.
    fn partial_cmp(&self, other: &Self) -> (r: Option<Ordering>) {
        if self.addr < other.addr {
            Some(Ordering::Less)
        } else if self.addr > other.addr {
            Some(Ordering::Greater)
        } else {
            Some(Ordering::Equal)
        }
    }
}

impl PartialOrdSpecImpl for Splice {
    open spec fn obeys_partial_cmp_spec() -> bool {
        true
    }

    open spec fn partial_cmp_spec(&self, other: &Self) -> Option<Ordering> {
        if self.addr < other.addr {
            Some(Ordering::Less)
        } else if self.addr > other.addr {
            Some(Ordering::Greater)
        } else {
            Some(Ordering::Equal)
        }
    }
}

/// The addresses do not descend.
pub open spec fn sorted(s: Seq<Splice>) -> bool {
    forall|i: int, j: int| 0 <= i < j < s.len() ==> s[i].addr <= s[j].addr
}

/// Where a splice at `addr` goes into a list: behind the last splice whose
/// address is not above `addr`.
pub open spec fn insert_point(list: Seq<Splice>, addr: u64) -> int
    decreases list.len(),
{
    if list.len() == 0 {
        0
    } else if list.last().addr <= addr {
        list.len() as int
    } else {
        insert_point(list.drop_last(), addr)
    }
}

/// The splices in ascending order of address; splices of one address keep
/// their order.
pub open spec fn stable_sorted(splices: Seq<Splice>) -> Seq<Splice>
    decreases splices.len(),
{
    if splices.len() == 0 {
        Seq::empty()
    } else {
        let rest = stable_sorted(splices.drop_last());
        rest.insert(insert_point(rest, splices.last().addr), splices.last())
    }
}

/// The insert point lies inside the list; before it no address is above
/// `addr`, and from it on every address is, where the list is in order.
pub proof fn lemma_insert_point(list: Seq<Splice>, addr: u64)
    ensures
        0 <= insert_point(list, addr) <= list.len(),
        forall|j: int|
            insert_point(list, addr) <= j < list.len() ==> (#[trigger] list[j]).addr > addr,
        sorted(list) ==> forall|j: int|
            0 <= j < insert_point(list, addr) ==> (#[trigger] list[j]).addr <= addr,
    decreases list.len(),
{
    if list.len() > 0 {
        let front = list.drop_last();
        if list.last().addr > addr {
            lemma_insert_point(front, addr);
            assert forall|j: int| insert_point(list, addr) <= j < list.len() implies (
            #[trigger] list[j]).addr > addr by {
                if j < front.len() {
                    assert(front[j] == list[j]);
                }
            }
            if sorted(list) {
                assert forall|i: int, j: int| 0 <= i < j < front.len() implies front[i].addr
                    <= front[j].addr by {
                    assert(front[i] == list[i]);
                    assert(front[j] == list[j]);
                }
                assert forall|j: int| 0 <= j < insert_point(list, addr) implies (
                #[trigger] list[j]).addr <= addr by {
                    assert(front[j] == list[j]);
                }
            }
        } else {
            if sorted(list) {
                assert forall|j: int| 0 <= j < insert_point(list, addr) implies (
                #[trigger] list[j]).addr <= addr by {
                    if j < list.len() - 1 {
                        assert(list[j].addr <= list[list.len() - 1].addr);
                    }
                }
            }
        }
    }
}

/// The sorted list is in order and holds the same splices.
pub proof fn lemma_stable_sorted(splices: Seq<Splice>)
    ensures
        sorted(stable_sorted(splices)),
        stable_sorted(splices).to_multiset() == splices.to_multiset(),
        stable_sorted(splices).len() == splices.len(),
    decreases splices.len(),
{
    if splices.len() > 0 {
        let rest = stable_sorted(splices.drop_last());
        let x = splices.last();
        let at = insert_point(rest, x.addr);
        lemma_stable_sorted(splices.drop_last());
        lemma_insert_point(rest, x.addr);
        to_multiset_insert(rest, at, x);
        assert(splices =~= splices.drop_last().push(x));
        vstd::seq_lib::to_multiset_build(splices.drop_last(), x);
        let out = rest.insert(at, x);
        assert forall|a: int, b: int| 0 <= a < b < out.len() implies out[a].addr
            <= out[b].addr by {
            if a < at && b > at {
                assert(out[b] == rest[b - 1]);
            } else if a > at {
                assert(out[a] == rest[a - 1]);
                assert(out[b] == rest[b - 1]);
            } else if b < at {
            } else if a == at {
                assert(out[b] == rest[b - 1]);
            }
        }
    } else {
        assert(splices =~= Seq::<Splice>::empty());
    }
}

/// The splices in ascending order of address.
pub fn sort_splices(splices: &Vec<Splice>) -> (r: Vec<Splice>)
    ensures
        r@ == stable_sorted(splices@),
        sorted(r@),
        r@.to_multiset() == splices@.to_multiset(),
        r@.len() == splices@.len(),
{
    let mut out: Vec<Splice> = Vec::new();
    let mut i: usize = 0;
    proof {
        assert(splices@.take(0) =~= Seq::<Splice>::empty());
    }
    while i < splices.len()
        invariant
            i <= splices.len(),
            out@.len() == i,
            out@ == stable_sorted(splices@.take(i as int)),
        decreases splices.len() - i,
    {
        let s = splices[i];
        let mut at: usize = out.len();
        proof {
            assert(out@.take(at as int) =~= out@);
        }
        while at > 0 && out[at - 1].addr > s.addr
            invariant
                at <= out.len(),
                insert_point(out@, s.addr) == insert_point(out@.take(at as int), s.addr),
            decreases at,
        {
            proof {
                assert(out@.take(at as int).drop_last() =~= out@.take(at - 1));
            }
            at -= 1;
        }
        proof {
            assert(splices@.take(i + 1).drop_last() =~= splices@.take(i as int));
            assert(splices@.take(i + 1).last() == s);
        }
        out.insert(at, s);
        i += 1;
    }
    proof {
        assert(splices@.take(splices@.len() as int) =~= splices@);
        lemma_stable_sorted(splices@);
    }
    out
}

/// Splices in ascending order of address, with a cursor that only moves
/// forward.
pub struct SpliceQueue {
    splices: Vec<Splice>,
    next: usize,
}

impl SpliceQueue {
    /// All splices of the queue, in order.
    pub closed spec fn all(&self) -> Seq<Splice> {
        self.splices@
    }

    /// How many splices have left the queue.
    pub closed spec fn taken(&self) -> int {
        self.next as int
    }

    /// The queue is in order and its cursor inside it.
    pub closed spec fn wf(&self) -> bool {
        sorted(self.splices@) && self.next <= self.splices@.len()
    }

    /// The splices that have not left the queue.
    pub open spec fn rest(&self) -> Seq<Splice> {
        self.all().skip(self.taken())
    }

    /// A queue of the given splices, none of which has left.
    pub fn new(splices: &Vec<Splice>) -> (r: Self)
        ensures
            r.wf(),
            r.taken() == 0,
            r.all() == stable_sorted(splices@),
    {
        SpliceQueue { splices: sort_splices(splices), next: 0 }
    }

    /// The next splice, where one is left.
    pub fn peek(&self) -> (r: Option<Splice>)
        requires
            self.wf(),
        ensures
            0 <= self.taken() <= self.all().len(),
            match r {
                Some(s) => self.taken() < self.all().len() && s == self.all()[self.taken()],
                None => self.taken() == self.all().len(),
            },
    {
        if self.next < self.splices.len() {
            Some(self.splices[self.next])
        } else {
            None
        }
    }

    /// Lets the next splice leave the queue.
    pub fn advance(&mut self)
        requires
            old(self).wf(),
            old(self).taken() < old(self).all().len(),
        ensures
            final(self).wf(),
            final(self).all() == old(self).all(),
            final(self).taken() == old(self).taken() + 1,
    {
        if self.next < self.splices.len() {
            self.next = self.next + 1;
        }
    }
}

/// The segment that spans `[base, end)` takes the splice: its eight bytes lie
/// inside.
pub open spec fn takes(base: int, end: int, s: Splice) -> bool {
    base <= s.addr && s.addr + 8 <= end
}

/// Where the segment that spans `[base, end)` stops taking splices, if it
/// starts at splice `from`: at the first one that it does not take.
pub open spec fn taken_end(splices: Seq<Splice>, from: int, base: int, end: int) -> int
    decreases splices.len() - from,
{
    if 0 <= from < splices.len() && takes(base, end, splices[from]) {
        taken_end(splices, from + 1, base, end)
    } else {
        from
    }
}

/// The byte at address `a` of a segment at `start` with the given bytes in
/// the file: the file's byte where it has one, zero elsewhere.
pub open spec fn plain_byte(start: int, bytes: Seq<u8>, a: int) -> u8 {
    if start <= a < start + bytes.len() {
        bytes[a - start]
    } else {
        0
    }
}

/// The `len` bytes from address `base` on of a segment at `start`.
pub open spec fn plain_image(base: int, start: int, bytes: Seq<u8>, len: nat) -> Seq<u8> {
    Seq::new(len, |i: int| plain_byte(start, bytes, base + i))
}

/// `image` with the bytes from `at` on replaced by `patch`.
pub open spec fn overlay(image: Seq<u8>, at: int, patch: Seq<u8>) -> Seq<u8> {
    Seq::new(
        image.len(),
        |i: int|
            if at <= i < at + patch.len() {
                patch[i - at]
            } else {
                image[i]
            },
    )
}

/// `image`, which starts at address `base`, with the splices `from` to `to`
/// laid over it one after the other.
pub open spec fn spliced(image: Seq<u8>, base: int, splices: Seq<Splice>, from: int, to: int) -> Seq<u8>
    decreases to - from,
{
    if from >= to {
        image
    } else {
        overlay(
            spliced(image, base, splices, from, to - 1),
            splices[to - 1].addr - base,
            spec_u64_to_le_bytes(splices[to - 1].value),
        )
    }
}

/// Laying splices over an image keeps its length.
pub proof fn lemma_spliced_len(image: Seq<u8>, base: int, splices: Seq<Splice>, from: int, to: int)
    ensures
        spliced(image, base, splices, from, to).len() == image.len(),
    decreases to - from,
{
    if from < to {
        lemma_spliced_len(image, base, splices, from, to - 1);
    }
}

/// The segment takes every splice from `from` up to where it stops, and not
/// the one at which it stops.
pub proof fn lemma_taken_end(splices: Seq<Splice>, from: int, base: int, end: int)
    requires
        0 <= from <= splices.len(),
    ensures
        from <= taken_end(splices, from, base, end) <= splices.len(),
        forall|j: int|
            from <= j < taken_end(splices, from, base, end) ==> takes(
                base,
                end,
                #[trigger] splices[j],
            ),
        taken_end(splices, from, base, end) < splices.len() ==> !takes(
            base,
            end,
            splices[taken_end(splices, from, base, end)],
        ),
    decreases splices.len() - from,
{
    if from < splices.len() && takes(base, end, splices[from]) {
        lemma_taken_end(splices, from + 1, base, end);
    }
}

/// The eight bytes at the address of a splice that was laid over an image
/// are the little-endian bytes of its value, where no later splice reaches
/// into them.
pub proof fn lemma_splice_fidelity(
    image: Seq<u8>,
    base: int,
    splices: Seq<Splice>,
    from: int,
    to: int,
    k: int,
)
    requires
        0 <= from <= k < to <= splices.len(),
        base <= splices[k].addr,
        splices[k].addr + 8 <= base + image.len(),
        forall|j: int|
            k < j < to ==> (#[trigger] splices[j]).addr + 8 <= splices[k].addr || splices[k].addr
                + 8 <= splices[j].addr,
    ensures
        spliced(image, base, splices, from, to).subrange(
            splices[k].addr - base,
            splices[k].addr - base + 8,
        ) == spec_u64_to_le_bytes(splices[k].value),
    decreases to - k,
{
    lemma_auto_spec_u64_to_from_le_bytes();
    lemma_spliced_len(image, base, splices, from, to - 1);
    let before = spliced(image, base, splices, from, to - 1);
    let after = spliced(image, base, splices, from, to);
    let at = splices[k].addr - base;
    if k == to - 1 {
        assert(after.subrange(at, at + 8) =~= spec_u64_to_le_bytes(splices[k].value));
    } else {
        lemma_splice_fidelity(image, base, splices, from, to - 1, k);
        assert(splices[to - 1].addr + 8 <= splices[k].addr || splices[k].addr + 8 <= splices[to
            - 1].addr);
        assert(after.subrange(at, at + 8) =~= before.subrange(at, at + 8));
    }
}

/// A byte that no splice covers is the byte of the plain image.
pub proof fn lemma_unspliced_byte(
    image: Seq<u8>,
    base: int,
    splices: Seq<Splice>,
    from: int,
    to: int,
    i: int,
)
    requires
        0 <= from <= to <= splices.len(),
        0 <= i < image.len(),
        forall|j: int|
            from <= j < to ==> !((#[trigger] splices[j]).addr <= base + i < splices[j].addr + 8),
    ensures
        spliced(image, base, splices, from, to)[i] == image[i],
    decreases to - from,
{
    lemma_auto_spec_u64_to_from_le_bytes();
    if from < to {
        lemma_spliced_len(image, base, splices, from, to - 1);
        lemma_unspliced_byte(image, base, splices, from, to - 1, i);
        assert(!(splices[to - 1].addr <= base + i < splices[to - 1].addr + 8));
    }
}

/// The bytes that a segment hands to the stream: its pages from the start of
/// the page that holds `start`, with the file's bytes at `start`, zero
/// around them, and over them each splice that the segment takes, beginning
/// with splice `from`.
pub open spec fn segment_image(
    start: int,
    mem_size: int,
    bytes: Seq<u8>,
    splices: Seq<Splice>,
    from: int,
) -> Seq<u8> {
    let base = page_base(start);
    let end = start + mem_size;
    spliced(
        plain_image(base, start, bytes, align_page(end - base) as nat),
        base,
        splices,
        from,
        taken_end(splices, from, base, end),
    )
}

/// A byte of a segment's image that lies in no splice that the segment
/// takes is the segment's own byte at that address: the file's byte where the
/// file has one, zero elsewhere.
pub proof fn lemma_segment_image_byte(
    start: int,
    mem_size: int,
    bytes: Seq<u8>,
    splices: Seq<Splice>,
    from: int,
    i: int,
)
    requires
        0 <= from <= splices.len(),
        0 <= start,
        0 <= mem_size,
        0 <= i < align_page(start + mem_size - page_base(start)),
        forall|j: int|
            from <= j < taken_end(splices, from, page_base(start), start + mem_size) ==> !((
            #[trigger] splices[j]).addr <= page_base(start) + i < splices[j].addr + 8),
    ensures
        segment_image(start, mem_size, bytes, splices, from).len() == align_page(
            start + mem_size - page_base(start),
        ),
        segment_image(start, mem_size, bytes, splices, from)[i] == plain_byte(
            start,
            bytes,
            page_base(start) + i,
        ),
{
    let base = page_base(start);
    let end = start + mem_size;
    let plain = plain_image(base, start, bytes, align_page(end - base) as nat);
    lemma_taken_end(splices, from, base, end);
    lemma_spliced_len(plain, base, splices, from, taken_end(splices, from, base, end));
    lemma_unspliced_byte(plain, base, splices, from, taken_end(splices, from, base, end), i);
}

/// Any two splices of the list lie at least eight bytes apart, so that none
/// reaches into another.
pub open spec fn apart(list: Seq<Splice>) -> bool {
    forall|a: int, b: int|
        0 <= a < list.len() && 0 <= b < list.len() && a != b ==> (#[trigger] list[a]).addr + 8 <= (
        #[trigger] list[b]).addr || list[b].addr + 8 <= list[a].addr
}

/// The sorted list holds every splice of the list, and no other.
pub proof fn lemma_sorted_members(list: Seq<Splice>)
    ensures
        forall|j: int|
            0 <= j < list.len() ==> list.contains(#[trigger] stable_sorted(list)[j]),
        forall|u: int| 0 <= u < list.len() ==> stable_sorted(list).contains(#[trigger] list[u]),
    decreases list.len(),
{
    if list.len() > 0 {
        let front = list.drop_last();
        let rest = stable_sorted(front);
        let x = list.last();
        let at = insert_point(rest, x.addr);
        let out = rest.insert(at, x);
        lemma_sorted_members(front);
        lemma_stable_sorted(front);
        lemma_insert_point(rest, x.addr);
        assert forall|j: int| 0 <= j < list.len() implies list.contains(#[trigger] out[j]) by {
            if j == at {
                assert(list[list.len() - 1] == out[j]);
            } else {
                let r = if j < at {
                    j
                } else {
                    j - 1
                };
                assert(out[j] == rest[r]);
                assert(front.contains(rest[r]));
                let u = choose|u: int| 0 <= u < front.len() && front[u] == rest[r];
                assert(list[u] == out[j]);
            }
        }
        assert forall|u: int| 0 <= u < list.len() implies out.contains(#[trigger] list[u]) by {
            if u == list.len() - 1 {
                assert(out[at] == list[u]);
            } else {
                assert(front[u] == list[u]);
                assert(rest.contains(front[u]));
                let r = choose|r: int| 0 <= r < rest.len() && rest[r] == front[u];
                if r < at {
                    assert(out[r] == list[u]);
                } else {
                    assert(out[r + 1] == list[u]);
                }
            }
        }
    }
}

/// Splices that lie apart still lie apart when they are sorted.
pub proof fn lemma_sorted_apart(list: Seq<Splice>)
    requires
        apart(list),
    ensures
        apart(stable_sorted(list)),
    decreases list.len(),
{
    if list.len() > 0 {
        let front = list.drop_last();
        let rest = stable_sorted(front);
        let x = list.last();
        let at = insert_point(rest, x.addr);
        let out = rest.insert(at, x);
        assert forall|a: int, b: int|
            0 <= a < front.len() && 0 <= b < front.len() && a != b implies (#[trigger] front[a]).addr
            + 8 <= (#[trigger] front[b]).addr || front[b].addr + 8 <= front[a].addr by {
            assert(front[a] == list[a] && front[b] == list[b]);
        }
        lemma_sorted_apart(front);
        lemma_sorted_members(front);
        lemma_stable_sorted(front);
        lemma_insert_point(rest, x.addr);
        assert forall|r: int| 0 <= r < rest.len() implies (#[trigger] rest[r]).addr + 8 <= x.addr
            || x.addr + 8 <= rest[r].addr by {
            assert(front.contains(rest[r]));
            let u = choose|u: int| 0 <= u < front.len() && front[u] == rest[r];
            assert(list[u] == rest[r] && list[list.len() - 1] == x);
        }
        assert forall|a: int, b: int|
            0 <= a < out.len() && 0 <= b < out.len() && a != b implies (#[trigger] out[a]).addr + 8
            <= (#[trigger] out[b]).addr || out[b].addr + 8 <= out[a].addr by {
            let ra = if a < at {
                a
            } else {
                a - 1
            };
            let rb = if b < at {
                b
            } else {
                b - 1
            };
            if a == at {
                assert(out[b] == rest[rb]);
            } else if b == at {
                assert(out[a] == rest[ra]);
            } else {
                assert(out[a] == rest[ra] && out[b] == rest[rb]);
            }
        }
    }
}

/// A segment that takes no splice hands its own bytes to the stream.
pub proof fn lemma_unspliced_segment(
    start: int,
    mem_size: int,
    bytes: Seq<u8>,
    splices: Seq<Splice>,
    from: int,
)
    requires
        taken_end(splices, from, page_base(start), start + mem_size) == from,
    ensures
        segment_image(start, mem_size, bytes, splices, from) == plain_image(
            page_base(start),
            start,
            bytes,
            align_page(start + mem_size - page_base(start)) as nat,
        ),
{
}

/// The plain bytes of a segment's pages.
pub fn build_image(base: u64, start: u64, bytes: &Vec<u8>, len: usize) -> (r: Vec<u8>)
    requires
        base + len <= u64::MAX,
    ensures
        r@ == plain_image(base as int, start as int, bytes@, len as nat),
{
    let mut image: Vec<u8> = Vec::new();
    let mut i: usize = 0;
    while i < len
        invariant
            i <= len,
            base + len <= u64::MAX,
            image@.len() == i,
            forall|j: int| 0 <= j < i ==> image@[j] == plain_byte(start as int, bytes@, base + j),
        decreases len - i,
    {
        let a: u64 = base + i as u64;
        let byte: u8 = if a >= start && a - start < bytes.len() as u64 {
            bytes[(a - start) as usize]
        } else {
            0
        };
        image.push(byte);
        i += 1;
    }
    proof {
        assert(image@ =~= plain_image(base as int, start as int, bytes@, len as nat));
    }
    image
}

/// Lays the little-endian bytes of `value` over the eight bytes at `at`.
pub fn overlay_value(image: &mut Vec<u8>, at: usize, value: u64)
    requires
        at + 8 <= old(image)@.len(),
    ensures
        final(image)@ == overlay(old(image)@, at as int, spec_u64_to_le_bytes(value)),
{
    let le = u64_to_le_bytes(value);
    let ghost before = image@;
    let len = image.len();
    let mut j: usize = 0;
    while j < 8
        invariant
            j <= 8,
            le@.len() == 8,
            at + 8 <= len == before.len(),
            image@.len() == before.len(),
            forall|i: int|
                0 <= i < image@.len() ==> image@[i] == if at <= i < at + j {
                    le@[i - at]
                } else {
                    before[i]
                },
        decreases 8 - j,
    {
        image.set(at + j, le[j]);
        j += 1;
    }
    proof {
        assert(image@ =~= overlay(before, at as int, le@));
    }
}

/// Lets the splices that a segment takes leave the queue.
pub fn skip_segment(start: u64, mem_size: u64, queue: &mut SpliceQueue)
    requires
        old(queue).wf(),
        start + mem_size <= u64::MAX,
    ensures
        final(queue).wf(),
        final(queue).all() == old(queue).all(),
        final(queue).taken() == taken_end(
            old(queue).all(),
            old(queue).taken(),
            page_base(start as int),
            start + mem_size,
        ),
{
    let base = page_floor(start);
    let end = start + mem_size;
    let ghost all = queue.all();
    let ghost from = queue.taken();
    loop
        invariant
            queue.wf(),
            queue.all() == all,
            0 <= from <= queue.taken() <= all.len(),
            taken_end(all, queue.taken(), base as int, end as int) == taken_end(
                all,
                from,
                base as int,
                end as int,
            ),
        ensures
            queue.wf(),
            queue.all() == all,
            queue.taken() == taken_end(all, from, base as int, end as int),
        decreases all.len() - queue.taken(),
    {
        match queue.peek() {
            Some(s) => {
                if s.addr >= base && s.addr <= end && end - s.addr >= SPLICE_WIDTH {
                    queue.advance();
                } else {
                    break ;
                }
            },
            None => {
                break ;
            },
        }
    }
}

/// The bytes of a segment's pages with the splices that it takes from the
/// queue laid over them; the taken splices leave the queue.
pub fn splice_segment(start: u64, mem_size: u64, bytes: &Vec<u8>, queue: &mut SpliceQueue) -> (r:
    Vec<u8>)
    requires
        old(queue).wf(),
        start + mem_size + 0xfff <= usize::MAX,
    ensures
        final(queue).wf(),
        final(queue).all() == old(queue).all(),
        final(queue).taken() == taken_end(
            old(queue).all(),
            old(queue).taken(),
            page_base(start as int),
            start + mem_size,
        ),
        r@ == segment_image(
            start as int,
            mem_size as int,
            bytes@,
            old(queue).all(),
            old(queue).taken(),
        ),
        r@.len() == align_page(start + mem_size - page_base(start as int)),
{
    let base = page_floor(start);
    let end = start + mem_size;
    let len = size_align_page_size(end - base) as usize;
    let mut image = build_image(base, start, bytes, len);
    let ghost plain = image@;
    let ghost all = queue.all();
    let ghost from = queue.taken();
    loop
        invariant
            queue.wf(),
            queue.all() == all,
            0 <= from <= queue.taken() <= all.len(),
            base == page_base(start as int),
            end == start + mem_size,
            plain.len() == len,
            len == align_page(end - base),
            image@ == spliced(plain, base as int, all, from, queue.taken()),
            taken_end(all, queue.taken(), base as int, end as int) == taken_end(
                all,
                from,
                base as int,
                end as int,
            ),
        ensures
            queue.wf(),
            queue.all() == all,
            queue.taken() == taken_end(all, from, base as int, end as int),
            image@ == spliced(plain, base as int, all, from, queue.taken()),
        decreases all.len() - queue.taken(),
    {
        let next = queue.peek();
        match next {
            Some(s) => {
                if s.addr >= base && s.addr <= end && end - s.addr >= SPLICE_WIDTH {
                    proof {
                        lemma_spliced_len(plain, base as int, all, from, queue.taken());
                    }
                    overlay_value(&mut image, (s.addr - base) as usize, s.value);
                    queue.advance();
                } else {
                    break ;
                }
            },
            None => {
                break ;
            },
        }
    }
    proof {
        lemma_spliced_len(plain, base as int, all, from, queue.taken());
    }
    image
}

} // verus!

//! Page alignment and the power-of-two size of an enclave.

use vstd::prelude::*;
use vstd::arithmetic::power2::{pow2, lemma_pow2_pos, lemma_pow2_unfold, lemma_pow2_strictly_increases, lemma2_to64, lemma2_to64_rest};
use crate::error::Error;

verus! {

/// Bytes in one enclave page.
pub const PAGE_SIZE: u64 = 0x1000;

/// First enclave end that is refused: 2^53.
pub const ENCLAVE_SIZE_LIMIT: u64 = 0x20_0000_0000_0000;

/// The least multiple of the page size that is not below `x`.
pub open spec fn align_page(x: int) -> int {
    ((x + 0xfff) / 0x1000) * 0x1000
}

/// The greatest multiple of the page size that is not above `x`.
pub open spec fn page_base(x: int) -> int {
    (x / 0x1000) * 0x1000
}

/// `p` is 2^k for some natural k.
pub open spec fn is_power_of_two(p: int) -> bool {
    exists|k: nat| p == pow2(k)
}

/// The least power of two that is not below `n`.
pub open spec fn next_power_of_two(n: nat) -> nat
    decreases n,
{
    if n <= 1 {
        1
    } else {
        2 * next_power_of_two(((n + 1) / 2) as nat)
    }
}

/// What `enclave_size` yields for a given end address.
pub open spec fn enclave_size_of(end: int) -> Option<u64> {
    if end == 0 {
        Some(0u64)
    } else if end >= ENCLAVE_SIZE_LIMIT {
        None
    } else {
        Some(next_power_of_two(end as nat) as u64)
    }
}

/// `next_power_of_two(n)` is a power of two that lies in `[n, 2n)`, or is 1
/// for `n == 0`.
pub proof fn lemma_next_power_of_two(n: nat)
    ensures
        is_power_of_two(next_power_of_two(n) as int),
        n <= next_power_of_two(n),
        n >= 1 ==> next_power_of_two(n) < 2 * n,
    decreases n,
{
    if n <= 1 {
        lemma2_to64();
        assert(next_power_of_two(n) == pow2(0));
    } else {
        let h = ((n + 1) / 2) as nat;
        lemma_next_power_of_two(h);
        let k = choose|k: nat| next_power_of_two(h) as int == pow2(k);
        lemma_pow2_unfold(k + 1);
        assert(next_power_of_two(n) == pow2(k + 1));
    }
}

/// Two powers of two in the same half-open interval `[n, 2n)` are equal.
pub proof fn lemma_power_of_two_unique(n: int, p: int, q: int)
    requires
        is_power_of_two(p),
        is_power_of_two(q),
        n <= p < 2 * n,
        n <= q < 2 * n,
    ensures
        p == q,
{
    let a = choose|k: nat| p == pow2(k);
    let b = choose|k: nat| q == pow2(k);
    if a < b {
        lemma_pow2_strictly_increases(a + 1, b + 1);
        lemma_pow2_unfold(a + 1);
        lemma_pow2_unfold(b + 1);
        if a + 1 < b {
            lemma_pow2_strictly_increases(a + 1, b);
        }
    } else if b < a {
        lemma_pow2_unfold(b + 1);
        if b + 1 < a {
            lemma_pow2_strictly_increases(b + 1, a);
        }
    }
}

/// A power of two is its own next power of two.
pub proof fn lemma_next_power_of_two_fixed(p: int)
    requires
        is_power_of_two(p),
    ensures
        next_power_of_two(p as nat) == p,
{
    let k = choose|k: nat| p == pow2(k);
    lemma_pow2_pos(k);
    lemma_next_power_of_two(p as nat);
    if p > 1 {
        lemma_pow2_unfold(k + 1);
        lemma_power_of_two_unique(p, p, next_power_of_two(p as nat) as int);
    } else {
        assert(next_power_of_two(1) == 1);
    }
}

/// The size computed for an enclave that ends at `end` is a power of two,
/// is not below `end`, is below twice `end`, and equals `end` where `end` is
/// itself a power of two.
pub proof fn lemma_enclave_size_law(end: int)
    requires
        0 < end < ENCLAVE_SIZE_LIMIT,
    ensures
        enclave_size_of(end) is Some,
        is_power_of_two(enclave_size_of(end).unwrap() as int),
        end <= enclave_size_of(end).unwrap() < 2 * end,
        is_power_of_two(end) ==> enclave_size_of(end).unwrap() == end,
{
    lemma_next_power_of_two(end as nat);
    if is_power_of_two(end) {
        lemma_next_power_of_two_fixed(end);
    }
}

/// Rounds a byte count up to a whole number of pages.
pub fn size_align_page_size(size: u64) -> (r: u64)
    requires
        size <= u64::MAX - 0xfff,
    ensures
        r == align_page(size as int),
        r % 0x1000 == 0,
        size <= r < size + 0x1000,
{
    let residue: u64 = size & 0xfff;
    assert(residue == size % 0x1000) by (bit_vector)
        requires
            residue == size & 0xfff,
    ;
    if residue == 0 {
        size
    } else {
        size + (0x1000 - residue)
    }
}

/// Rounds an address down to the start of its page.
pub fn page_floor(addr: u64) -> (r: u64)
    ensures
        r == page_base(addr as int),
        r % 0x1000 == 0,
        r <= addr < r + 0x1000,
{
    let r: u64 = addr & !0xfffu64;
    assert(r == (addr / 0x1000) * 0x1000) by (bit_vector)
        requires
            r == addr & !0xfffu64,
    ;
    r
}

/// The size of an enclave whose last page ends at `last_page_address`: zero
/// for zero, the least power of two that is not below it otherwise, and no
/// size at all from 2^53 on.
pub fn enclave_size(last_page_address: u64) -> (r: Result<u64, Error>)
    ensures
        match enclave_size_of(last_page_address as int) {
            Some(size) => r == Ok::<u64, Error>(size),
            None => r == Err::<u64, Error>(Error::EnclaveSizeTooBig),
        },
{
    if last_page_address == 0 {
        return Ok(0);
    }
    if last_page_address >= ENCLAVE_SIZE_LIMIT {
        return Err(Error::EnclaveSizeTooBig);
    }
    let mut size: u64 = 1;
    let ghost mut k: nat = 0;
    proof {
        lemma2_to64();
        lemma2_to64_rest();
    }
    while size < last_page_address
        invariant
            0 < last_page_address < ENCLAVE_SIZE_LIMIT,
            size == pow2(k),
            1 <= size < 2 * last_page_address,
        decreases 2 * last_page_address - size,
    {
        proof {
            lemma_pow2_unfold(k + 1);
            k = k + 1;
        }
        size = size * 2;
    }
    proof {
        lemma_next_power_of_two(last_page_address as nat);
        assert(is_power_of_two(size as int));
        lemma_power_of_two_unique(
            last_page_address as int,
            size as int,
            next_power_of_two(last_page_address as nat) as int,
        );
    }
    Ok(size)
}

} // verus!

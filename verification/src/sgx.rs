//! Security attributes of enclave pages and the thread control structure.

use vstd::prelude::*;
use vstd::bytes::{
    lemma_auto_spec_u32_to_from_le_bytes, lemma_auto_spec_u64_to_from_le_bytes,
    spec_u32_to_le_bytes, spec_u64_to_le_bytes, spec_u64_to_le_bytes_open,
    spec_u64_to_le_bytes_to_open, u32_to_le_bytes, u64_to_le_bytes,
};
use sgx_isa::{PageType, SecinfoFlags};
use crate::elf::{flags_executable, flags_readable, flags_writable, is_execute, is_read, is_write};

verus! {

/// Attribute bit: the page may be read.
pub const SECINFO_R: u64 = 0x1;

/// Attribute bit: the page may be written.
pub const SECINFO_W: u64 = 0x2;

/// Attribute bit: the page may be executed.
pub const SECINFO_X: u64 = 0x4;

/// Attribute bits of a regular page's type.
pub const SECINFO_REG: u64 = 0x200;

/// Attribute bits of a thread control structure's page type.
pub const SECINFO_TCS: u64 = 0x100;

/// Bytes in a thread control structure.
pub const TCS_SIZE: usize = 4096;

/// `SecinfoFlags::R` of sgx_isa as bits: bit 0.
#[verifier::external_body]
fn flag_r() -> (r: u64)
    ensures
        r == SECINFO_R,
{
    SecinfoFlags::R.bits()
}

/// `SecinfoFlags::W` of sgx_isa as bits: bit 1.
#[verifier::external_body]
fn flag_w() -> (r: u64)
    ensures
        r == SECINFO_W,
{
    SecinfoFlags::W.bits()
}

/// `SecinfoFlags::X` of sgx_isa as bits: bit 2.
#[verifier::external_body]
fn flag_x() -> (r: u64)
    ensures
        r == SECINFO_X,
{
    SecinfoFlags::X.bits()
}

/// The flags that sgx_isa makes of `PageType::Reg`, as bits: the type's
/// number, 2, in the second byte.
#[verifier::external_body]
fn page_type_reg() -> (r: u64)
    ensures
        r == SECINFO_REG,
{
    SecinfoFlags::from(PageType::Reg).bits()
}

/// The flags that sgx_isa makes of `PageType::Tcs`, as bits: the type's
/// number, 1, in the second byte.
#[verifier::external_body]
fn page_type_tcs() -> (r: u64)
    ensures
        r == SECINFO_TCS,
{
    SecinfoFlags::from(PageType::Tcs).bits()
}

/// `n` zero bytes.
pub open spec fn zeros(n: nat) -> Seq<u8> {
    Seq::new(n, |i: int| 0u8)
}

/// The bytes of a thread control structure: the fields in little-endian
/// order at their places, zero everywhere else.
pub open spec fn tcs_layout(
    ossa: u64,
    nssa: u32,
    oentry: u64,
    ofsbasgx: u64,
    ogsbasgx: u64,
    fslimit: u32,
    gslimit: u32,
) -> Seq<u8> {
    zeros(16) + spec_u64_to_le_bytes(ossa) + zeros(4) + spec_u32_to_le_bytes(nssa)
        + spec_u64_to_le_bytes(oentry) + zeros(8) + spec_u64_to_le_bytes(ofsbasgx)
        + spec_u64_to_le_bytes(ogsbasgx) + spec_u32_to_le_bytes(fslimit) + spec_u32_to_le_bytes(
        gslimit,
    ) + zeros(4024)
}

/// The little-endian bytes of zero are eight zero bytes.
pub proof fn lemma_le_bytes_of_zero()
    ensures
        spec_u64_to_le_bytes(0) == zeros(8),
{
    spec_u64_to_le_bytes_to_open(0);
    assert(0u64 & 0xff == 0 && (0u64 >> 8) & 0xff == 0 && (0u64 >> 16) & 0xff == 0 && (0u64 >> 24)
        & 0xff == 0 && (0u64 >> 32) & 0xff == 0 && (0u64 >> 40) & 0xff == 0 && (0u64 >> 48) & 0xff
        == 0 && (0u64 >> 56) & 0xff == 0) by (bit_vector);
    assert(spec_u64_to_le_bytes_open(0) =~= zeros(8));
}

/// Puts `n` zero bytes behind those that `out` holds.
pub fn push_zeros(out: &mut Vec<u8>, n: usize)
    ensures
        final(out)@ == old(out)@ + zeros(n as nat),
{
    let ghost before = out@;
    let mut i: usize = 0;
    proof {
        assert(out@ =~= before + zeros(0));
    }
    while i < n
        invariant
            i <= n,
            out@ == before + zeros(i as nat),
        decreases n - i,
    {
        out.push(0);
        i += 1;
        proof {
            assert(out@ =~= before + zeros(i as nat));
        }
    }
}

/// Attributes of a regular page with the permissions that a program header's
/// bits give.
pub open spec fn segment_secinfo(flags: u32) -> u64 {
    let r = if flags_readable(flags) {
        SECINFO_REG | SECINFO_R
    } else {
        SECINFO_REG
    };
    let w = if flags_writable(flags) {
        r | SECINFO_W
    } else {
        r
    };
    if flags_executable(flags) {
        w | SECINFO_X
    } else {
        w
    }
}

/// Attributes of a regular page that may be read and written.
pub open spec fn data_secinfo() -> u64 {
    SECINFO_R | SECINFO_W | SECINFO_REG
}

/// The attributes say that the page may be read.
pub open spec fn secinfo_readable(secinfo: u64) -> bool {
    secinfo & SECINFO_R != 0
}

/// The attributes say that the page may be written.
pub open spec fn secinfo_writable(secinfo: u64) -> bool {
    secinfo & SECINFO_W != 0
}

/// The attributes say that the page may be executed.
pub open spec fn secinfo_executable(secinfo: u64) -> bool {
    secinfo & SECINFO_X != 0
}

/// The page type that the attributes carry.
pub open spec fn secinfo_page_type(secinfo: u64) -> u64 {
    (secinfo & 0xff00) >> 8
}

/// Attributes of a regular page with the permissions of a loadable segment.
pub fn secinfo_for_segment(flags: u32) -> (r: u64)
    ensures
        r == segment_secinfo(flags),
{
    let mut secinfo = page_type_reg();
    if is_read(flags) {
        secinfo = secinfo | flag_r();
    }
    if is_write(flags) {
        secinfo = secinfo | flag_w();
    }
    if is_execute(flags) {
        secinfo = secinfo | flag_x();
    }
    secinfo
}

/// Attributes of a regular page that may be read and written.
pub fn secinfo_for_data() -> (r: u64)
    ensures
        r == data_secinfo(),
{
    flag_r() | flag_w() | page_type_reg()
}

/// Attributes of the page of a thread control structure.
pub fn secinfo_for_tcs() -> (r: u64)
    ensures
        r == SECINFO_TCS,
{
    page_type_tcs()
}

/// A segment's pages are regular pages that carry exactly the permissions of
/// the segment.
pub proof fn lemma_segment_secinfo(flags: u32)
    ensures
        secinfo_page_type(segment_secinfo(flags)) == 2,
        secinfo_readable(segment_secinfo(flags)) == flags_readable(flags),
        secinfo_writable(segment_secinfo(flags)) == flags_writable(flags),
        secinfo_executable(segment_secinfo(flags)) == flags_executable(flags),
{
    let r = flags_readable(flags);
    let w = flags_writable(flags);
    let x = flags_executable(flags);
    let a: u64 = if r { 0x200u64 | 0x1u64 } else { 0x200u64 };
    let b: u64 = if w { a | 0x2u64 } else { a };
    let c: u64 = if x { b | 0x4u64 } else { b };
    assert(c == segment_secinfo(flags));
    assert((a == 0x200u64 | 0x1u64 || a == 0x200u64) && (b == a | 0x2u64 || b == a) && (c == b
        | 0x4u64 || c == b) ==> ((c & 0xff00u64) >> 8u64 == 2) && ((c & 0x1u64 != 0) == (a
        != 0x200u64)) && ((c & 0x2u64 != 0) == (b != a)) && ((c & 0x4u64 != 0) == (c != b)))
        by (bit_vector);
    assert(0x200u64 | 0x1u64 != 0x200u64) by (bit_vector);
    assert(a | 0x2u64 != a) by (bit_vector)
        requires
            a == 0x200u64 | 0x1u64 || a == 0x200u64,
    ;
    assert(b | 0x4u64 != b) by (bit_vector)
        requires
            (a == 0x200u64 | 0x1u64 || a == 0x200u64) && (b == a | 0x2u64 || b == a),
    ;
}

/// Heap, stack, thread-local and state-save pages are regular pages that may
/// be read and written and not executed; the page of a thread control
/// structure has that type and no permission.
pub proof fn lemma_fixed_secinfo()
    ensures
        secinfo_page_type(data_secinfo()) == 2,
        secinfo_readable(data_secinfo()),
        secinfo_writable(data_secinfo()),
        !secinfo_executable(data_secinfo()),
        secinfo_page_type(SECINFO_TCS) == 1,
        !secinfo_readable(SECINFO_TCS),
        !secinfo_writable(SECINFO_TCS),
        !secinfo_executable(SECINFO_TCS),
{
    assert(((0x1u64 | 0x2u64 | 0x200u64) & 0xff00u64) >> 8u64 == 2) by (bit_vector);
    assert((0x1u64 | 0x2u64 | 0x200u64) & 0x1u64 != 0) by (bit_vector);
    assert((0x1u64 | 0x2u64 | 0x200u64) & 0x2u64 != 0) by (bit_vector);
    assert((0x1u64 | 0x2u64 | 0x200u64) & 0x4u64 == 0) by (bit_vector);
    assert((0x100u64 & 0xff00u64) >> 8u64 == 1) by (bit_vector);
    assert(0x100u64 & 0x1u64 == 0) by (bit_vector);
    assert(0x100u64 & 0x2u64 == 0) by (bit_vector);
    assert(0x100u64 & 0x4u64 == 0) by (bit_vector);
}

/// The page of a thread control structure with the given fields; every
/// other field is zero. Each field stands at its place in little-endian
/// order, whatever the byte order of the machine.
pub fn tcs_bytes(
    ossa: u64,
    nssa: u32,
    oentry: u64,
    ofsbasgx: u64,
    ogsbasgx: u64,
    fslimit: u32,
    gslimit: u32,
) -> (r: Vec<u8>)
    ensures
        r@ == tcs_layout(ossa, nssa, oentry, ofsbasgx, ogsbasgx, fslimit, gslimit),
        r@.len() == TCS_SIZE,
{
    proof {
        lemma_tcs_layout_len(ossa, nssa, oentry, ofsbasgx, ogsbasgx, fslimit, gslimit);
    }
    let mut page: Vec<u8> = Vec::new();
    push_zeros(&mut page, 16);
    let mut field = u64_to_le_bytes(ossa);
    page.append(&mut field);
    push_zeros(&mut page, 4);
    let mut field = u32_to_le_bytes(nssa);
    page.append(&mut field);
    let mut field = u64_to_le_bytes(oentry);
    page.append(&mut field);
    push_zeros(&mut page, 8);
    let mut field = u64_to_le_bytes(ofsbasgx);
    page.append(&mut field);
    let mut field = u64_to_le_bytes(ogsbasgx);
    page.append(&mut field);
    let mut field = u32_to_le_bytes(fslimit);
    page.append(&mut field);
    let mut field = u32_to_le_bytes(gslimit);
    page.append(&mut field);
    push_zeros(&mut page, 4024);
    proof {
        assert(page@ =~= tcs_layout(ossa, nssa, oentry, ofsbasgx, ogsbasgx, fslimit, gslimit));
    }
    page
}

/// A thread control structure is one page long.
pub proof fn lemma_tcs_layout_len(
    ossa: u64,
    nssa: u32,
    oentry: u64,
    ofsbasgx: u64,
    ogsbasgx: u64,
    fslimit: u32,
    gslimit: u32,
)
    ensures
        tcs_layout(ossa, nssa, oentry, ofsbasgx, ogsbasgx, fslimit, gslimit).len() == 4096,
{
    lemma_auto_spec_u64_to_from_le_bytes();
    lemma_auto_spec_u32_to_from_le_bytes();
}

} // verus!

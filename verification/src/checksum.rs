//! CRC-32C, from the `crc32c` crate, and what it notices.
//!
//! The checksum is that of a shift register of 32 bits. It starts inverted, takes
//! in one byte after the other, and is inverted at the end.

use vstd::prelude::*;

verus! {

/// The polynomial of Castagnoli, in reversed bit order.
pub const CRC32C_POLYNOMIAL: u32 = 0x82F6_3B78;

/// The register after one bit was shifted out.
pub open spec fn crc_shift(crc: u32) -> u32 {
    if crc & 1 == 0 {
        crc >> 1
    } else {
        (crc >> 1) ^ CRC32C_POLYNOMIAL
    }
}

/// The register after `n` bits were shifted out.
pub open spec fn crc_shifts(crc: u32, n: nat) -> u32
    decreases n,
{
    if n == 0 {
        crc
    } else {
        crc_shift(crc_shifts(crc, (n - 1) as nat))
    }
}

/// The register after the bytes were taken in.
pub open spec fn crc_run(crc: u32, data: Seq<u8>) -> u32
    decreases data.len(),
{
    if data.len() == 0 {
        crc
    } else {
        crc_shifts(crc_run(crc, data.drop_last()) ^ (data.last() as u32), 8)
    }
}

/// The CRC-32C of `data`, continued from the CRC `crc` of what came before it.
#[verifier::opaque]
pub open spec fn crc32c_update(crc: u32, data: Seq<u8>) -> u32 {
    !crc_run(!crc, data)
}

/// The CRC-32C of one buffer.
pub open spec fn crc32c_of(data: Seq<u8>) -> u32 {
    crc32c_update(0, data)
}

/// `crc32c::crc32c`: the CRC-32C of the bytes, by its documentation the same as
/// `crc32c_append` from zero.
#[verifier::external_body]
pub(crate) fn crc32c(data: &[u8]) -> (crc: u32)
    ensures
        crc == crc32c_update(0, data@),
{
    ::crc32c::crc32c(data)
}

/// `crc32c::crc32c_append`: the CRC-32C of the bytes, continued from a CRC. The
/// crate's tables are made with the polynomial and the shifts that are stated
/// here.
#[verifier::external_body]
pub(crate) fn crc32c_append(crc: u32, data: &[u8]) -> (next: u32)
    ensures
        next == crc32c_update(crc, data@),
{
    ::crc32c::crc32c_append(crc, data)
}

// ---- what the checksum notices --------------------------------------------

/// The top bit of the polynomial is set, so a shift can be taken back.
proof fn lemma_shift_differs(a: u32, b: u32)
    requires
        a != b,
    ensures
        crc_shift(a) != crc_shift(b),
{
    assert(a != b ==> (if a & 1 == 0 {
        a >> 1
    } else {
        (a >> 1) ^ 0x82F6_3B78
    }) != (if b & 1 == 0 {
        b >> 1
    } else {
        (b >> 1) ^ 0x82F6_3B78
    })) by (bit_vector);
}

proof fn lemma_shifts_differ(a: u32, b: u32, n: nat)
    requires
        a != b,
    ensures
        crc_shifts(a, n) != crc_shifts(b, n),
    decreases n,
{
    if n > 0 {
        lemma_shifts_differ(a, b, (n - 1) as nat);
        lemma_shift_differs(crc_shifts(a, (n - 1) as nat), crc_shifts(b, (n - 1) as nat));
    }
}

/// Registers that differ still do after the same bytes.
proof fn lemma_run_differs(a: u32, b: u32, data: Seq<u8>)
    requires
        a != b,
    ensures
        crc_run(a, data) != crc_run(b, data),
    decreases data.len(),
{
    if data.len() > 0 {
        let x = crc_run(a, data.drop_last());
        let y = crc_run(b, data.drop_last());
        let d = data.last() as u32;
        lemma_run_differs(a, b, data.drop_last());
        assert(x != y ==> x ^ d != y ^ d) by (bit_vector);
        lemma_shifts_differ(x ^ d, y ^ d, 8);
    }
}

/// A checksum that is continued keeps the difference of what came before.
pub proof fn law_checksum_carries_on(a: u32, b: u32, data: Seq<u8>)
    requires
        a != b,
    ensures
        crc32c_update(a, data) != crc32c_update(b, data),
{
    reveal(crc32c_update);
    assert(a != b ==> !a != !b) by (bit_vector);
    lemma_run_differs(!a, !b, data);
    let x = crc_run(!a, data);
    let y = crc_run(!b, data);
    assert(x != y ==> !x != !y) by (bit_vector);
}

/// One changed byte always changes the checksum.
pub proof fn law_one_byte_changes_the_checksum(crc: u32, a: Seq<u8>, b: Seq<u8>, k: int)
    requires
        a.len() == b.len(),
        0 <= k < a.len(),
        a[k] != b[k],
        forall|i: int| 0 <= i < a.len() && i != k ==> a[i] == b[i],
    ensures
        crc32c_update(crc, a) != crc32c_update(crc, b),
{
    reveal(crc32c_update);
    lemma_run_notices(!crc, a, b, k);
    let x = crc_run(!crc, a);
    let y = crc_run(!crc, b);
    assert(x != y ==> !x != !y) by (bit_vector);
}

proof fn lemma_run_notices(crc: u32, a: Seq<u8>, b: Seq<u8>, k: int)
    requires
        a.len() == b.len(),
        0 <= k < a.len(),
        a[k] != b[k],
        forall|i: int| 0 <= i < a.len() && i != k ==> a[i] == b[i],
    ensures
        crc_run(crc, a) != crc_run(crc, b),
    decreases a.len(),
{
    let c = a.drop_last();
    let d = b.drop_last();
    let x = crc_run(crc, c);
    let y = crc_run(crc, d);
    let p = a.last() as u32;
    let q = b.last() as u32;
    if k == a.len() - 1 {
        assert(c =~= d);
        assert(p != q);
        assert(p != q ==> x ^ p != x ^ q) by (bit_vector);
    } else {
        lemma_run_notices(crc, c, d, k);
        assert(p == q);
        assert(x != y ==> x ^ p != y ^ p) by (bit_vector);
    }
    lemma_shifts_differ(x ^ p, y ^ q, 8);
}

/// A checksum that is continued over further bytes is that of all the bytes in one
/// piece.
pub proof fn law_checksum_of_parts(a: Seq<u8>, b: Seq<u8>)
    ensures
        crc32c_update(crc32c_of(a), b) == crc32c_of(a + b),
{
    reveal(crc32c_update);
    let x = crc_run(!0u32, a);
    assert(!!x == x) by (bit_vector);
    lemma_run_joined(!0u32, a, b);
}

proof fn lemma_run_joined(crc: u32, a: Seq<u8>, b: Seq<u8>)
    ensures
        crc_run(crc, a + b) == crc_run(crc_run(crc, a), b),
    decreases b.len(),
{
    if b.len() == 0 {
        assert(a + b =~= a);
    } else {
        assert((a + b).drop_last() =~= a + b.drop_last());
        lemma_run_joined(crc, a, b.drop_last());
    }
}

} // verus!

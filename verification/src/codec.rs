//! Little-endian integers inside byte buffers.
//!
//! Every on-page structure of this crate is a byte buffer in which integers
//! sit at fixed offsets, low byte first. This module holds the two halves of
//! that convention: `u16_at` / `u32_at` / `u64_at` say which number a buffer
//! holds at an offset, and `le16` / `le32` / `le64` say which bytes a number
//! is written as. Writes are stated as `splice` (replace a run of bytes) and
//! `zeroed` (clear a run of bytes).

use vstd::prelude::*;

verus! {

// ---- what a buffer holds --------------------------------------------------

/// The 16-bit number at `at`.
#[verifier::opaque]
pub open spec fn u16_at(b: Seq<u8>, at: int) -> u16 {
    (b[at] + 0x100 * b[at + 1]) as u16
}

/// The 32-bit number at `at`.
#[verifier::opaque]
pub open spec fn u32_at(b: Seq<u8>, at: int) -> u32 {
    (u16_at(b, at) + 0x1_0000 * u16_at(b, at + 2)) as u32
}

/// The 64-bit number at `at`.
#[verifier::opaque]
pub open spec fn u64_at(b: Seq<u8>, at: int) -> u64 {
    (u32_at(b, at) + 0x1_0000_0000 * u32_at(b, at + 4)) as u64
}

// ---- how a number is written ----------------------------------------------

/// The two bytes of a 16-bit number.
#[verifier::opaque]
pub open spec fn le16(v: u16) -> Seq<u8> {
    seq![(v % 0x100) as u8, (v / 0x100) as u8]
}

/// The four bytes of a 32-bit number.
#[verifier::opaque]
pub open spec fn le32(v: u32) -> Seq<u8> {
    le16((v % 0x1_0000) as u16) + le16((v / 0x1_0000) as u16)
}

/// The eight bytes of a 64-bit number.
#[verifier::opaque]
pub open spec fn le64(v: u64) -> Seq<u8> {
    le32((v % 0x1_0000_0000) as u32) + le32((v / 0x1_0000_0000) as u32)
}

// ---- how a buffer changes -------------------------------------------------

/// `b` with the bytes from `at` on replaced by `s`.
pub open spec fn splice(b: Seq<u8>, at: int, s: Seq<u8>) -> Seq<u8> {
    Seq::new(
        b.len(),
        |i: int|
            if at <= i < at + s.len() {
                s[i - at]
            } else {
                b[i]
            },
    )
}

/// `b` with the bytes `from..to` set to zero.
pub open spec fn zeroed(b: Seq<u8>, from: int, to: int) -> Seq<u8> {
    Seq::new(
        b.len(),
        |i: int|
            if from <= i < to {
                0u8
            } else {
                b[i]
            },
    )
}

// ---- facts about numbers and buffers --------------------------------------

/// The written form of a number has the number's width.
pub broadcast proof fn lemma_le16_len(v: u16)
    ensures
        #[trigger] le16(v).len() == 2,
{
    reveal(le16);
}

/// The written form of a number has the number's width.
pub broadcast proof fn lemma_le32_len(v: u32)
    ensures
        #[trigger] le32(v).len() == 4,
{
    reveal(le32);
    reveal(le16);
}

/// The written form of a number has the number's width.
pub broadcast proof fn lemma_le64_len(v: u64)
    ensures
        #[trigger] le64(v).len() == 8,
{
    reveal(le64);
    reveal(le32);
    reveal(le16);
}

/// Two buffers that agree on two bytes hold the same 16-bit number there.
pub proof fn lemma_u16_at_same(a: Seq<u8>, i: int, b: Seq<u8>, j: int)
    requires
        a[i] == b[j],
        a[i + 1] == b[j + 1],
    ensures
        u16_at(a, i) == u16_at(b, j),
{
    reveal(u16_at);
}

/// Two buffers that agree on four bytes hold the same 32-bit number there.
pub proof fn lemma_u32_at_same(a: Seq<u8>, i: int, b: Seq<u8>, j: int)
    requires
        forall|k: int| 0 <= k < 4 ==> #[trigger] a[i + k] == b[j + k],
    ensures
        u32_at(a, i) == u32_at(b, j),
{
    reveal(u32_at);
    assert(a[i + 0] == b[j + 0] && a[i + 1] == b[j + 1] && a[i + 2] == b[j + 2] && a[i + 3] == b[j
        + 3]);
    lemma_u16_at_same(a, i, b, j);
    lemma_u16_at_same(a, i + 2, b, j + 2);
}

/// Two buffers that agree on eight bytes hold the same 64-bit number there.
pub proof fn lemma_u64_at_same(a: Seq<u8>, i: int, b: Seq<u8>, j: int)
    requires
        forall|k: int| 0 <= k < 8 ==> #[trigger] a[i + k] == b[j + k],
    ensures
        u64_at(a, i) == u64_at(b, j),
{
    reveal(u64_at);
    assert forall|k: int| 0 <= k < 4 implies #[trigger] a[i + 4 + k] == b[j + 4 + k] by {
        assert(a[i + (4 + k)] == b[j + (4 + k)]);
    }
    lemma_u32_at_same(a, i, b, j);
    lemma_u32_at_same(a, i + 4, b, j + 4);
}

/// Bytes that hold the same number are the same.
pub proof fn lemma_u32_bytes_same(a: Seq<u8>, i: int, b: Seq<u8>, j: int)
    requires
        u32_at(a, i) == u32_at(b, j),
    ensures
        forall|k: int| 0 <= k < 4 ==> #[trigger] a[i + k] == b[j + k],
{
    reveal(u32_at);
    reveal(u16_at);
    assert forall|k: int| 0 <= k < 4 implies #[trigger] a[i + k] == b[j + k] by {
        assert(k == 0 || k == 1 || k == 2 || k == 3);
    }
}

/// A buffer that holds the two bytes of `v` at `at` holds `v` there.
pub proof fn lemma_u16_read_back(b: Seq<u8>, at: int, v: u16)
    requires
        forall|k: int| 0 <= k < 2 ==> #[trigger] b[at + k] == le16(v)[k],
    ensures
        u16_at(b, at) == v,
{
    reveal(u16_at);
    reveal(le16);
    assert(b[at + 0] == le16(v)[0] && b[at + 1] == le16(v)[1]);
}

/// A buffer that holds the four bytes of `v` at `at` holds `v` there.
pub proof fn lemma_u32_read_back(b: Seq<u8>, at: int, v: u32)
    requires
        forall|k: int| 0 <= k < 4 ==> #[trigger] b[at + k] == le32(v)[k],
    ensures
        u32_at(b, at) == v,
{
    broadcast use lemma_le16_len;

    reveal(u32_at);
    reveal(le32);
    assert forall|k: int| 0 <= k < 2 implies #[trigger] b[at + k] == le16((v % 0x1_0000) as u16)[k] by {
        assert(b[at + k] == le32(v)[k]);
    }
    assert forall|k: int| 0 <= k < 2 implies #[trigger] b[at + 2 + k] == le16(
        (v / 0x1_0000) as u16,
    )[k] by {
        assert(b[at + (2 + k)] == le32(v)[2 + k]);
    }
    lemma_u16_read_back(b, at, (v % 0x1_0000) as u16);
    lemma_u16_read_back(b, at + 2, (v / 0x1_0000) as u16);
}

/// A buffer that holds the eight bytes of `v` at `at` holds `v` there.
pub proof fn lemma_u64_read_back(b: Seq<u8>, at: int, v: u64)
    requires
        forall|k: int| 0 <= k < 8 ==> #[trigger] b[at + k] == le64(v)[k],
    ensures
        u64_at(b, at) == v,
{
    broadcast use lemma_le32_len;

    reveal(u64_at);
    reveal(le64);
    assert forall|k: int| 0 <= k < 4 implies #[trigger] b[at + k] == le32(
        (v % 0x1_0000_0000) as u32,
    )[k] by {
        assert(b[at + k] == le64(v)[k]);
    }
    assert forall|k: int| 0 <= k < 4 implies #[trigger] b[at + 4 + k] == le32(
        (v / 0x1_0000_0000) as u32,
    )[k] by {
        assert(b[at + (4 + k)] == le64(v)[4 + k]);
    }
    lemma_u32_read_back(b, at, (v % 0x1_0000_0000) as u32);
    lemma_u32_read_back(b, at + 4, (v / 0x1_0000_0000) as u32);
}

/// A spliced number is read back.
pub broadcast proof fn lemma_splice_u16_hit(b: Seq<u8>, at: int, v: u16)
    requires
        0 <= at,
        at + 2 <= b.len(),
    ensures
        #[trigger] u16_at(splice(b, at, le16(v)), at) == v,
{
    broadcast use lemma_le16_len;

    lemma_u16_read_back(splice(b, at, le16(v)), at, v);
}

/// A spliced number is read back.
pub broadcast proof fn lemma_splice_u32_hit(b: Seq<u8>, at: int, v: u32)
    requires
        0 <= at,
        at + 4 <= b.len(),
    ensures
        #[trigger] u32_at(splice(b, at, le32(v)), at) == v,
{
    broadcast use lemma_le32_len;

    lemma_u32_read_back(splice(b, at, le32(v)), at, v);
}

/// A spliced number is read back.
pub broadcast proof fn lemma_splice_u64_hit(b: Seq<u8>, at: int, v: u64)
    requires
        0 <= at,
        at + 8 <= b.len(),
    ensures
        #[trigger] u64_at(splice(b, at, le64(v)), at) == v,
{
    broadcast use lemma_le64_len;

    lemma_u64_read_back(splice(b, at, le64(v)), at, v);
}

/// A splice leaves numbers elsewhere alone.
pub broadcast proof fn lemma_splice_u16_miss(b: Seq<u8>, at: int, s: Seq<u8>, i: int)
    requires
        0 <= i,
        i + 2 <= b.len(),
        i + 2 <= at || at + s.len() <= i,
    ensures
        #[trigger] u16_at(splice(b, at, s), i) == u16_at(b, i),
{
    lemma_u16_at_same(splice(b, at, s), i, b, i);
}

/// A splice leaves numbers elsewhere alone.
pub broadcast proof fn lemma_splice_u32_miss(b: Seq<u8>, at: int, s: Seq<u8>, i: int)
    requires
        0 <= i,
        i + 4 <= b.len(),
        i + 4 <= at || at + s.len() <= i,
    ensures
        #[trigger] u32_at(splice(b, at, s), i) == u32_at(b, i),
{
    lemma_u32_at_same(splice(b, at, s), i, b, i);
}

/// A splice leaves numbers elsewhere alone.
pub broadcast proof fn lemma_splice_u64_miss(b: Seq<u8>, at: int, s: Seq<u8>, i: int)
    requires
        0 <= i,
        i + 8 <= b.len(),
        i + 8 <= at || at + s.len() <= i,
    ensures
        #[trigger] u64_at(splice(b, at, s), i) == u64_at(b, i),
{
    lemma_u64_at_same(splice(b, at, s), i, b, i);
}

/// Clearing bytes leaves numbers elsewhere alone.
pub broadcast proof fn lemma_zeroed_u16_miss(b: Seq<u8>, from: int, to: int, i: int)
    requires
        0 <= i,
        i + 2 <= b.len(),
        i + 2 <= from || to <= i,
    ensures
        #[trigger] u16_at(zeroed(b, from, to), i) == u16_at(b, i),
{
    lemma_u16_at_same(zeroed(b, from, to), i, b, i);
}

/// Clearing bytes leaves numbers elsewhere alone.
pub broadcast proof fn lemma_zeroed_u32_miss(b: Seq<u8>, from: int, to: int, i: int)
    requires
        0 <= i,
        i + 4 <= b.len(),
        i + 4 <= from || to <= i,
    ensures
        #[trigger] u32_at(zeroed(b, from, to), i) == u32_at(b, i),
{
    lemma_u32_at_same(zeroed(b, from, to), i, b, i);
}

/// Clearing bytes leaves numbers elsewhere alone.
pub broadcast proof fn lemma_zeroed_u64_miss(b: Seq<u8>, from: int, to: int, i: int)
    requires
        0 <= i,
        i + 8 <= b.len(),
        i + 8 <= from || to <= i,
    ensures
        #[trigger] u64_at(zeroed(b, from, to), i) == u64_at(b, i),
{
    lemma_u64_at_same(zeroed(b, from, to), i, b, i);
}

/// A cleared 16-bit number is zero.
pub broadcast proof fn lemma_zeroed_u16_hit(b: Seq<u8>, from: int, to: int, i: int)
    requires
        0 <= i,
        i + 2 <= b.len(),
        from <= i,
        i + 2 <= to,
    ensures
        #[trigger] u16_at(zeroed(b, from, to), i) == 0,
{
    reveal(u16_at);
}

/// A cleared 64-bit number is zero.
pub broadcast proof fn lemma_zeroed_u64_hit(b: Seq<u8>, from: int, to: int, i: int)
    requires
        0 <= i,
        i + 8 <= b.len(),
        from <= i,
        i + 8 <= to,
    ensures
        #[trigger] u64_at(zeroed(b, from, to), i) == 0,
{
    reveal(u16_at);
    reveal(u32_at);
    reveal(u64_at);
}

/// How reads see writes.
pub broadcast group group_codec {
    lemma_le16_len,
    lemma_le32_len,
    lemma_le64_len,
    lemma_splice_u16_hit,
    lemma_splice_u32_hit,
    lemma_splice_u64_hit,
    lemma_splice_u16_miss,
    lemma_splice_u32_miss,
    lemma_splice_u64_miss,
    lemma_zeroed_u16_miss,
    lemma_zeroed_u32_miss,
    lemma_zeroed_u64_miss,
    lemma_zeroed_u16_hit,
    lemma_zeroed_u64_hit,
}

// ---- reads ----------------------------------------------------------------

/// Read the 16-bit number at `at`.
pub fn get_u16(b: &[u8], at: usize) -> (v: u16)
    requires
        at + 2 <= b@.len(),
    ensures
        v == u16_at(b@, at as int),
{
    proof {
        reveal(u16_at);
    }
    b[at] as u16 + 0x100 * (b[at + 1] as u16)
}

/// Read the 32-bit number at `at`.
pub fn get_u32(b: &[u8], at: usize) -> (v: u32)
    requires
        at + 4 <= b@.len(),
    ensures
        v == u32_at(b@, at as int),
{
    proof {
        reveal(u32_at);
        assert(b.len() == b@.len());
    }
    get_u16(b, at) as u32 + 0x1_0000 * (get_u16(b, at + 2) as u32)
}

/// Read the 64-bit number at `at`.
pub fn get_u64(b: &[u8], at: usize) -> (v: u64)
    requires
        at + 8 <= b@.len(),
    ensures
        v == u64_at(b@, at as int),
{
    proof {
        reveal(u64_at);
        assert(b.len() == b@.len());
    }
    get_u32(b, at) as u64 + 0x1_0000_0000 * (get_u32(b, at + 4) as u64)
}

// ---- writes in place ------------------------------------------------------

/// Replace the bytes from `at` on by `s`.
pub fn put_bytes(b: &mut [u8], at: usize, s: &[u8])
    requires
        at + s@.len() <= old(b)@.len(),
    ensures
        final(b)@ == splice(old(b)@, at as int, s@),
{
    let ghost before = b@;
    assert(b.len() == b@.len());
    let mut k: usize = 0;
    while k < s.len()
        invariant
            k <= s@.len(),
            at + s@.len() <= before.len() <= usize::MAX,
            b@ == splice(before, at as int, s@.take(k as int)),
        decreases s@.len() - k,
    {
        b[at + k] = s[k];
        k += 1;
        proof {
            assert(b@ =~= splice(before, at as int, s@.take(k as int)));
        }
    }
    proof {
        assert(s@.take(s@.len() as int) =~= s@);
    }
}

/// Set the bytes `from..to` to zero.
pub fn put_zeros(b: &mut [u8], from: usize, to: usize)
    requires
        from <= to <= old(b)@.len(),
    ensures
        final(b)@ == zeroed(old(b)@, from as int, to as int),
{
    let ghost before = b@;
    let mut k: usize = from;
    proof {
        assert(b@ =~= zeroed(before, from as int, from as int));
    }
    while k < to
        invariant
            from <= k <= to,
            to <= before.len(),
            b@ == zeroed(before, from as int, k as int),
        decreases to - k,
    {
        b[k] = 0;
        k += 1;
        proof {
            assert(b@ =~= zeroed(before, from as int, k as int));
        }
    }
}

/// Write a 16-bit number at `at`.
pub fn put_u16(b: &mut [u8], at: usize, v: u16)
    requires
        at + 2 <= old(b)@.len(),
    ensures
        final(b)@ == splice(old(b)@, at as int, le16(v)),
{
    let ghost before = b@;
    b[at] = (v % 0x100) as u8;
    b[at + 1] = (v / 0x100) as u8;
    proof {
        reveal(le16);
        assert(b@ =~= splice(before, at as int, le16(v)));
    }
}

/// Write a 32-bit number at `at`.
pub fn put_u32(b: &mut [u8], at: usize, v: u32)
    requires
        at + 4 <= old(b)@.len(),
    ensures
        final(b)@ == splice(old(b)@, at as int, le32(v)),
{
    let ghost before = b@;
    assert(b.len() == b@.len());
    put_u16(b, at, (v % 0x1_0000) as u16);
    put_u16(b, at + 2, (v / 0x1_0000) as u16);
    proof {
        broadcast use lemma_le16_len;

        reveal(le32);
        assert(b@ =~= splice(before, at as int, le32(v)));
    }
}

/// Write a 64-bit number at `at`.
pub fn put_u64(b: &mut [u8], at: usize, v: u64)
    requires
        at + 8 <= old(b)@.len(),
    ensures
        final(b)@ == splice(old(b)@, at as int, le64(v)),
{
    let ghost before = b@;
    assert(b.len() == b@.len());
    put_u32(b, at, (v % 0x1_0000_0000) as u32);
    put_u32(b, at + 4, (v / 0x1_0000_0000) as u32);
    proof {
        broadcast use lemma_le32_len;

        reveal(le64);
        assert(b@ =~= splice(before, at as int, le64(v)));
    }
}

// ---- writes at the end of a vector ----------------------------------------

/// Append a 16-bit number.
pub fn push_u16(out: &mut Vec<u8>, v: u16)
    ensures
        final(out)@ == old(out)@ + le16(v),
{
    let ghost before = out@;
    out.push((v % 0x100) as u8);
    out.push((v / 0x100) as u8);
    proof {
        reveal(le16);
        assert(out@ =~= before + le16(v));
    }
}

/// Append a 32-bit number.
pub fn push_u32(out: &mut Vec<u8>, v: u32)
    ensures
        final(out)@ == old(out)@ + le32(v),
{
    let ghost before = out@;
    push_u16(out, (v % 0x1_0000) as u16);
    push_u16(out, (v / 0x1_0000) as u16);
    proof {
        reveal(le32);
        assert(out@ =~= before + le32(v));
    }
}

/// Append a 64-bit number.
pub fn push_u64(out: &mut Vec<u8>, v: u64)
    ensures
        final(out)@ == old(out)@ + le64(v),
{
    let ghost before = out@;
    push_u32(out, (v % 0x1_0000_0000) as u32);
    push_u32(out, (v / 0x1_0000_0000) as u32);
    proof {
        reveal(le64);
        assert(out@ =~= before + le64(v));
    }
}

/// Append a run of bytes.
pub fn push_bytes(out: &mut Vec<u8>, s: &[u8])
    ensures
        final(out)@ == old(out)@ + s@,
{
    let ghost before = out@;
    let mut k: usize = 0;
    while k < s.len()
        invariant
            k <= s@.len(),
            out@ == before + s@.take(k as int),
        decreases s@.len() - k,
    {
        out.push(s[k]);
        k += 1;
        proof {
            assert(out@ =~= before + s@.take(k as int));
        }
    }
    proof {
        assert(s@.take(s@.len() as int) =~= s@);
    }
}

} // verus!

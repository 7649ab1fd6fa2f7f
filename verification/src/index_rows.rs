//! Pages that hold rows of one size: how rows are inserted, changed and cut
//! off, for a leaf and for an inner page alike.
use vstd::prelude::*;

use crate::codec::{
    group_codec, le16, lemma_u16_at_same, put_bytes, put_u16, put_zeros, push_bytes, splice, u16_at,
    zeroed,
};
use crate::page::{
    header_bytes, header_of, law_header_round_trip, PageHeader, PAGE_HEADER_SIZE, PAGE_SIZE,
};

verus! {

/// Rows on the page.
pub open spec fn count_of(b: Seq<u8>) -> u16 {
    u16_at(b, 36)
}

/// Where row `i` lies.
pub open spec fn row_start(base: int, size: int, i: int) -> int {
    base + size * i
}

/// Row `i`.
pub open spec fn row(b: Seq<u8>, base: int, size: int, i: int) -> Seq<u8> {
    b.subrange(row_start(base, size, i), row_start(base, size, i) + size)
}

/// The rows of the page.
pub open spec fn rows(b: Seq<u8>, base: int, size: int) -> Seq<Seq<u8>> {
    Seq::new(count_of(b) as nat, |i: int| row(b, base, size, i))
}

/// The rows lie inside the page.
pub open spec fn rows_fit(b: Seq<u8>, base: int, size: int) -> bool {
    &&& b.len() == PAGE_SIZE
    &&& base >= PAGE_HEADER_SIZE
    &&& size > 0
    &&& row_start(base, size, count_of(b) as int) <= PAGE_SIZE
}

/// The page after a row was inserted before row `p`.
pub open spec fn row_inserted(b: Seq<u8>, base: int, size: int, p: int, r: Seq<u8>) -> Seq<u8> {
    let n = count_of(b) as int;
    splice(
        splice(
            splice(
                b,
                row_start(base, size, p + 1),
                b.subrange(row_start(base, size, p), row_start(base, size, n)),
            ),
            row_start(base, size, p),
            r,
        ),
        36,
        le16((n + 1) as u16),
    )
}

/// The page after the rows from `m` on were cut off.
pub open spec fn rows_cut(b: Seq<u8>, base: int, size: int, m: int) -> Seq<u8> {
    zeroed(
        splice(b, 36, le16(m as u16)),
        row_start(base, size, m),
        row_start(base, size, count_of(b) as int),
    )
}

/// A fresh page that starts with `front` behind its header and holds `body`
/// after that; the rest is zeros.
pub open spec fn built_page(h: PageHeader, front: Seq<u8>, body: Seq<u8>) -> Seq<u8> {
    header_bytes(h) + front + body + Seq::new(
        (PAGE_SIZE - PAGE_HEADER_SIZE - front.len() - body.len()) as nat,
        |i: int| 0u8,
    )
}

/// Rows lie one behind the other.
pub proof fn lemma_row_order(base: int, size: int, i: int, j: int)
    requires
        size > 0,
        i < j,
    ensures
        row_start(base, size, i) + size <= row_start(base, size, j),
        row_start(base, size, i + 1) == row_start(base, size, i) + size,
{
    assert(size * i + size <= size * j) by (nonlinear_arith)
        requires
            size > 0,
            i < j,
    ;
    assert(size * (i + 1) == size * i + size) by (nonlinear_arith);
}

/// Row `i` of a page lies inside it.
pub proof fn lemma_row_inside(b: Seq<u8>, base: int, size: int, i: int)
    requires
        rows_fit(b, base, size),
        0 <= i < count_of(b),
    ensures
        PAGE_HEADER_SIZE <= base <= row_start(base, size, i),
        row_start(base, size, i) + size <= PAGE_SIZE,
        row(b, base, size, i).len() == size,
        rows(b, base, size)[i] == row(b, base, size, i),
{
    lemma_row_order(base, size, i, count_of(b) as int);
    assert(0 <= size * i) by (nonlinear_arith)
        requires
            0 <= i,
            size > 0,
    ;
}

/// An inserted row stands between the rows before it and those behind it.
pub proof fn lemma_row_inserted(b: Seq<u8>, base: int, size: int, p: int, r: Seq<u8>)
    requires
        rows_fit(b, base, size),
        0 <= p <= count_of(b),
        r.len() == size,
        row_start(base, size, count_of(b) + 1) <= PAGE_SIZE,
    ensures
        ({
            let c = row_inserted(b, base, size, p, r);
            &&& c.len() == PAGE_SIZE
            &&& rows_fit(c, base, size)
            &&& count_of(c) == count_of(b) + 1
            &&& rows(c, base, size) == rows(b, base, size).insert(p, r)
            &&& forall|i: int| 0 <= i < base && !(36 <= i < 38) ==> #[trigger] c[i] == b[i]
        }),
{
    broadcast use group_codec;

    let n = count_of(b) as int;
    let c = row_inserted(b, base, size, p, r);
    lemma_row_order(base, size, p, p + 1);
    lemma_row_order(base, size, n, n + 1);
    assert(0 <= size * p <= size * n) by (nonlinear_arith)
        requires
            0 <= p <= n,
            size > 0,
    ;
    let at = row_start(base, size, p);
    let end = row_start(base, size, n);
    let tail = b.subrange(at, end);
    assert(tail.len() == end - at);
    assert(at + size + tail.len() <= PAGE_SIZE);
    assert(n + 1 <= PAGE_SIZE) by (nonlinear_arith)
        requires
            base + size * (n + 1) <= PAGE_SIZE,
            size > 0,
            base >= 0,
            n >= 0,
    ;
    assert(count_of(c) == n + 1);
    assert forall|i: int| 0 <= i < n + 1 implies #[trigger] rows(c, base, size)[i] == rows(
        b,
        base,
        size,
    ).insert(p, r)[i] by {
        let s = row_start(base, size, i);
        assert(0 <= size * i) by (nonlinear_arith)
            requires
                0 <= i,
                size > 0,
        ;
        lemma_row_order(base, size, i, n + 1);
        if i < p {
            lemma_row_order(base, size, i, p);
            lemma_row_inside(b, base, size, i);
            assert(row(c, base, size, i) =~= row(b, base, size, i));
        } else if i == p {
            assert(row(c, base, size, i) =~= r);
        } else {
            lemma_row_order(base, size, i - 1, i);
            lemma_row_inside(b, base, size, i - 1);
            if p < i - 1 {
                lemma_row_order(base, size, p, i - 1);
            }
            assert(row(c, base, size, i) =~= row(b, base, size, i - 1));
        }
    }
    assert(rows(c, base, size) =~= rows(b, base, size).insert(p, r));
}

/// A change inside row `i` changes that row alone.
pub proof fn lemma_row_set(b: Seq<u8>, base: int, size: int, i: int, o: int, x: Seq<u8>)
    requires
        rows_fit(b, base, size),
        0 <= i < count_of(b),
        0 <= o,
        o + x.len() <= size,
    ensures
        ({
            let c = splice(b, row_start(base, size, i) + o, x);
            &&& c.len() == PAGE_SIZE
            &&& rows_fit(c, base, size)
            &&& count_of(c) == count_of(b)
            &&& rows(c, base, size) == rows(b, base, size).update(
                i,
                splice(row(b, base, size, i), o, x),
            )
            &&& forall|j: int| 0 <= j < base ==> #[trigger] c[j] == b[j]
        }),
{
    broadcast use group_codec;

    let n = count_of(b) as int;
    let at = row_start(base, size, i);
    let c = splice(b, at + o, x);
    lemma_row_inside(b, base, size, i);
    assert(count_of(c) == n);
    assert forall|j: int| 0 <= j < n implies #[trigger] rows(c, base, size)[j] == rows(
        b,
        base,
        size,
    ).update(i, splice(row(b, base, size, i), o, x))[j] by {
        lemma_row_inside(b, base, size, j);
        if j < i {
            lemma_row_order(base, size, j, i);
            assert(row(c, base, size, j) =~= row(b, base, size, j));
        } else if j == i {
            assert(row(c, base, size, j) =~= splice(row(b, base, size, i), o, x));
        } else {
            lemma_row_order(base, size, i, j);
            assert(row(c, base, size, j) =~= row(b, base, size, j));
        }
    }
    assert(rows(c, base, size) =~= rows(b, base, size).update(
        i,
        splice(row(b, base, size, i), o, x),
    ));
}

/// Cutting rows off leaves the ones before.
pub proof fn lemma_rows_cut(b: Seq<u8>, base: int, size: int, m: int)
    requires
        rows_fit(b, base, size),
        0 <= m <= count_of(b),
    ensures
        ({
            let c = rows_cut(b, base, size, m);
            &&& c.len() == PAGE_SIZE
            &&& rows_fit(c, base, size)
            &&& count_of(c) == m
            &&& rows(c, base, size) == rows(b, base, size).take(m)
            &&& forall|i: int| 0 <= i < base && !(36 <= i < 38) ==> #[trigger] c[i] == b[i]
        }),
{
    broadcast use group_codec;

    let n = count_of(b) as int;
    let c = rows_cut(b, base, size, m);
    assert(0 <= size * m <= size * n) by (nonlinear_arith)
        requires
            0 <= m <= n,
            size > 0,
    ;
    assert(count_of(c) == m);
    assert forall|i: int| 0 <= i < m implies #[trigger] rows(c, base, size)[i] == rows(
        b,
        base,
        size,
    ).take(m)[i] by {
        lemma_row_order(base, size, i, m);
        lemma_row_inside(b, base, size, i);
        assert(row(c, base, size, i) =~= row(b, base, size, i));
    }
    assert(rows(c, base, size) =~= rows(b, base, size).take(m));
}

/// A page that is built from the rows from `m` on holds those rows.
pub proof fn lemma_built_page(
    b: Seq<u8>,
    base: int,
    size: int,
    m: int,
    h: PageHeader,
    front: Seq<u8>,
)
    requires
        rows_fit(b, base, size),
        0 <= m <= count_of(b),
        base == PAGE_HEADER_SIZE + front.len(),
        h.slot_count == count_of(b) - m,
    ensures
        ({
            let body = b.subrange(
                row_start(base, size, m),
                row_start(base, size, count_of(b) as int),
            );
            let c = built_page(h, front, body);
            &&& c.len() == PAGE_SIZE
            &&& rows_fit(c, base, size)
            &&& count_of(c) == h.slot_count
            &&& rows(c, base, size) == rows(b, base, size).skip(m)
            &&& forall|i: int| 0 <= i < PAGE_HEADER_SIZE ==> #[trigger] c[i] == header_bytes(h)[i]
            &&& c.subrange(PAGE_HEADER_SIZE as int, base) == front
        }),
{
    let n = count_of(b) as int;
    assert(0 <= size * m <= size * n) by (nonlinear_arith)
        requires
            0 <= m <= n,
            size > 0,
    ;
    assert(size * n - size * m == size * (n - m)) by (nonlinear_arith);
    let body = b.subrange(row_start(base, size, m), row_start(base, size, n));
    let c = built_page(h, front, body);
    law_header_round_trip(h);
    assert forall|i: int| 0 <= i < PAGE_HEADER_SIZE implies #[trigger] c[i] == header_bytes(
        h,
    )[i] by {}
    lemma_u16_at_same(c, 36, header_bytes(h), 36);
    assert(header_of(header_bytes(h)).slot_count == h.slot_count);
    assert(c.subrange(PAGE_HEADER_SIZE as int, base) =~= front);
    assert forall|i: int| 0 <= i < n - m implies #[trigger] rows(c, base, size)[i] == rows(
        b,
        base,
        size,
    ).skip(m)[i] by {
        lemma_row_inside(b, base, size, m + i);
        assert(size * (m + i) == size * m + size * i) by (nonlinear_arith);
        assert(0 <= size * i) by (nonlinear_arith)
            requires
                0 <= i,
                size > 0,
        ;
        assert(size * i + size <= size * (n - m)) by (nonlinear_arith)
            requires
                i < n - m,
                size > 0,
        ;
        assert(row(c, base, size, i) =~= row(b, base, size, m + i));
    }
    assert(rows(c, base, size) =~= rows(b, base, size).skip(m));
}

/// A copy of the bytes from `from` to `to`.
pub(crate) fn copy_range(b: &[u8], from: usize, to: usize) -> (out: Vec<u8>)
    requires
        from <= to <= b@.len(),
    ensures
        out@ == b@.subrange(from as int, to as int),
{
    let mut out: Vec<u8> = Vec::new();
    let mut i: usize = from;
    while i < to
        invariant
            from <= i <= to <= b@.len(),
            out@ == b@.subrange(from as int, i as int),
        decreases to - i,
    {
        out.push(b[i]);
        i += 1;
        assert(out@ =~= b@.subrange(from as int, i as int));
    }
    out
}

/// Inserts a row before row `p`.
pub(crate) fn insert_row(b: &mut [u8], base: usize, size: usize, count: u16, p: u16, r: &[u8])
    requires
        rows_fit(old(b)@, base as int, size as int),
        count == count_of(old(b)@),
        p <= count,
        r@.len() == size,
        row_start(base as int, size as int, count + 1) <= PAGE_SIZE,
    ensures
        final(b)@ == row_inserted(old(b)@, base as int, size as int, p as int, r@),
{
    proof {
        lemma_row_order(base as int, size as int, count as int, count + 1);
        lemma_row_order(base as int, size as int, p as int, p + 1);
        if p < count {
            lemma_row_order(base as int, size as int, p as int, count as int);
        }
        assert(0 <= size * p <= size * count) by (nonlinear_arith)
            requires
                0 <= p <= count,
                size > 0,
        ;
        assert(count + 1 <= PAGE_SIZE) by (nonlinear_arith)
            requires
                base + size * (count + 1) <= PAGE_SIZE,
                size > 0,
                base >= 0,
                count >= 0,
        ;
    }
    let at: usize = base + size * p as usize;
    let end: usize = base + size * count as usize;
    let tail = copy_range(b, at, end);
    put_bytes(b, at + size, tail.as_slice());
    put_bytes(b, at, r);
    put_u16(b, 36, count + 1);
}

/// Cuts off the rows from `m` on.
pub(crate) fn cut_rows(b: &mut [u8], base: usize, size: usize, count: u16, m: u16)
    requires
        rows_fit(old(b)@, base as int, size as int),
        count == count_of(old(b)@),
        m <= count,
    ensures
        final(b)@ == rows_cut(old(b)@, base as int, size as int, m as int),
{
    proof {
        assert(0 <= size * m <= size * count) by (nonlinear_arith)
            requires
                0 <= m <= count,
                size > 0,
        ;
    }
    put_u16(b, 36, m);
    put_zeros(b, base + size * m as usize, base + size * count as usize);
}

/// Builds a page from its header and the bytes behind it.
pub(crate) fn build_page(h: &PageHeader, front: &[u8], body: &[u8]) -> (out: Vec<u8>)
    requires
        PAGE_HEADER_SIZE + front@.len() + body@.len() <= PAGE_SIZE,
    ensures
        out@ == built_page(*h, front@, body@),
{
    proof {
        law_header_round_trip(*h);
    }
    let mut out = h.to_bytes();
    push_bytes(&mut out, front);
    push_bytes(&mut out, body);
    let ghost filled = out@;
    while out.len() < PAGE_SIZE
        invariant
            filled.len() <= out@.len() <= PAGE_SIZE,
            out@ == filled + Seq::new((out@.len() - filled.len()) as nat, |i: int| 0u8),
        decreases PAGE_SIZE - out@.len(),
    {
        out.push(0);
        assert(out@ =~= filled + Seq::new((out@.len() - filled.len()) as nat, |i: int| 0u8));
    }
    assert(out@ =~= built_page(*h, front@, body@));
    out
}

} // verus!

//! Big-endian encodings of the fixed-width integers stored in pages.

use vstd::prelude::*;

verus! {

/// `s` with the bytes of `b` written over it, starting at `pos`.
pub open spec fn overwrite(s: Seq<u8>, pos: int, b: Seq<u8>) -> Seq<u8> {
    Seq::new(s.len(), |i: int| if pos <= i < pos + b.len() { b[i - pos] } else { s[i] })
}

/// `page` with the first `n` of `records` written to it one after the other,
/// `stride` bytes apart, from offset `start` on.
pub open spec fn with_records(
    page: Seq<u8>,
    start: int,
    stride: int,
    records: Seq<Seq<u8>>,
    n: nat,
) -> Seq<u8>
    decreases n,
{
    if n == 0 {
        page
    } else {
        overwrite(
            with_records(page, start, stride, records, (n - 1) as nat),
            start + (n - 1) * stride,
            records[n - 1],
        )
    }
}

/// Offsets of consecutive records do not overlap.
pub proof fn lemma_record_offsets(j: int, n: int, s: int)
    by (nonlinear_arith)
    requires
        0 <= j < n,
        0 < s,
    ensures
        0 <= j * s,
        j * s + s <= n * s,
        (j + 1) * s == j * s + s,
{
}

/// Where the records lie in the page that they were written to, and that the
/// rest of the page is as it was.
pub proof fn lemma_with_records(
    page: Seq<u8>,
    start: int,
    stride: int,
    records: Seq<Seq<u8>>,
    n: nat,
)
    requires
        0 <= start,
        0 < stride,
        n <= records.len(),
        forall|j: int| 0 <= j < n ==> (#[trigger] records[j]).len() == stride,
        start + n * stride <= page.len(),
    ensures
        with_records(page, start, stride, records, n).len() == page.len(),
        forall|j: int|
            0 <= j < n ==> #[trigger] with_records(page, start, stride, records, n).subrange(
                start + j * stride,
                start + j * stride + stride,
            ) == records[j],
        forall|i: int|
            0 <= i < start || start + n * stride <= i < page.len() ==> with_records(
                page,
                start,
                stride,
                records,
                n,
            )[i] == page[i],
    decreases n,
{
    if n > 0 {
        let prev = with_records(page, start, stride, records, (n - 1) as nat);
        let cur = with_records(page, start, stride, records, n);
        lemma_record_offsets(n - 1, n as int, stride);
        lemma_with_records(page, start, stride, records, (n - 1) as nat);
        assert forall|j: int| 0 <= j < n implies #[trigger] cur.subrange(
            start + j * stride,
            start + j * stride + stride,
        ) == records[j] by {
            lemma_record_offsets(j, n as int, stride);
            if j < n - 1 {
                lemma_record_offsets(j, n - 1, stride);
                assert(cur.subrange(start + j * stride, start + j * stride + stride)
                    =~= prev.subrange(start + j * stride, start + j * stride + stride));
            } else {
                assert(cur.subrange(start + j * stride, start + j * stride + stride)
                    =~= records[j]);
            }
        }
    }
}

/// The two bytes of `x`, most significant first.
pub open spec fn u16_be(x: u16) -> Seq<u8> {
    seq![(x / 256) as u8, (x % 256) as u8]
}

/// The value whose big-endian bytes are the first two of `b`.
pub open spec fn u16_from_be(b: Seq<u8>) -> u16 {
    (b[0] * 256 + b[1]) as u16
}

/// The four bytes of `x`, most significant first.
pub open spec fn u32_be(x: u32) -> Seq<u8> {
    seq![
        (x / 0x100_0000) as u8,
        (x / 0x1_0000 % 256) as u8,
        (x / 0x100 % 256) as u8,
        (x % 256) as u8,
    ]
}

/// The value whose big-endian bytes are the first four of `b`.
pub open spec fn u32_from_be(b: Seq<u8>) -> u32 {
    (b[0] * 0x100_0000 + b[1] * 0x1_0000 + b[2] * 0x100 + b[3]) as u32
}

/// The eight bytes of `x`, most significant first.
pub open spec fn u64_be(x: u64) -> Seq<u8> {
    u32_be((x / 0x1_0000_0000) as u32) + u32_be((x % 0x1_0000_0000) as u32)
}

/// The value whose big-endian bytes are the first eight of `b`.
pub open spec fn u64_from_be(b: Seq<u8>) -> u64 {
    (u32_from_be(b.subrange(0, 4)) * 0x1_0000_0000 + u32_from_be(b.subrange(4, 8))) as u64
}

/// The two's complement of `x` in 8 bits.
pub open spec fn i8_bits(x: i8) -> u8 {
    if x < 0 { (x + 0x100) as u8 } else { x as u8 }
}

/// The signed value of the 8-bit two's complement `u`.
pub open spec fn i8_from_bits(u: u8) -> i8 {
    if u >= 0x80 { (u - 0x100) as i8 } else { u as i8 }
}

/// The two's complement of `x` in 32 bits.
pub open spec fn i32_bits(x: i32) -> u32 {
    if x < 0 { (x + 0x1_0000_0000) as u32 } else { x as u32 }
}

/// The signed value of the 32-bit two's complement `u`.
pub open spec fn i32_from_bits(u: u32) -> i32 {
    if u >= 0x8000_0000 { (u - 0x1_0000_0000) as i32 } else { u as i32 }
}

/// The two's complement of `x` in 64 bits.
pub open spec fn i64_bits(x: i64) -> u64 {
    if x < 0 { (x + 0x1_0000_0000_0000_0000) as u64 } else { x as u64 }
}

/// The signed value of the 64-bit two's complement `u`.
pub open spec fn i64_from_bits(u: u64) -> i64 {
    if u >= 0x8000_0000_0000_0000 { (u - 0x1_0000_0000_0000_0000) as i64 } else { u as i64 }
}

/// The four bytes of `x` in two's complement, most significant first.
pub open spec fn i32_be(x: i32) -> Seq<u8> {
    u32_be(i32_bits(x))
}

/// The signed value whose big-endian bytes are the first four of `b`.
pub open spec fn i32_from_be(b: Seq<u8>) -> i32 {
    i32_from_bits(u32_from_be(b))
}

/// The eight bytes of `x` in two's complement, most significant first.
pub open spec fn i64_be(x: i64) -> Seq<u8> {
    u64_be(i64_bits(x))
}

/// The signed value whose big-endian bytes are the first eight of `b`.
pub open spec fn i64_from_be(b: Seq<u8>) -> i64 {
    i64_from_bits(u64_from_be(b))
}

/// Decoding a `u16` undoes encoding it.
pub proof fn lemma_u16_round_trip(x: u16)
    ensures
        u16_from_be(u16_be(x)) == x,
        u16_be(x).len() == 2,
{
}

/// Decoding a `u32` undoes encoding it.
pub proof fn lemma_u32_round_trip(x: u32)
    ensures
        u32_from_be(u32_be(x)) == x,
        u32_be(x).len() == 4,
{
}

/// Decoding a `u64` undoes encoding it.
pub proof fn lemma_u64_round_trip(x: u64)
    ensures
        u64_from_be(u64_be(x)) == x,
        u64_be(x).len() == 8,
{
    let hi = (x / 0x1_0000_0000) as u32;
    let lo = (x % 0x1_0000_0000) as u32;
    assert(u64_be(x).subrange(0, 4) =~= u32_be(hi));
    assert(u64_be(x).subrange(4, 8) =~= u32_be(lo));
    lemma_u32_round_trip(hi);
    lemma_u32_round_trip(lo);
}

/// Decoding an `i32` undoes encoding it.
pub proof fn lemma_i32_round_trip(x: i32)
    ensures
        i32_from_be(i32_be(x)) == x,
        i32_be(x).len() == 4,
{
    lemma_u32_round_trip(i32_bits(x));
}

/// Decoding an `i64` undoes encoding it.
pub proof fn lemma_i64_round_trip(x: i64)
    ensures
        i64_from_be(i64_be(x)) == x,
        i64_be(x).len() == 8,
{
    lemma_u64_round_trip(i64_bits(x));
}

/// Reads a big-endian `u16` at `pos`.
pub fn read_u16(buf: &[u8], pos: usize) -> (x: u16)
    requires
        pos + 2 <= buf.len(),
    ensures
        x == u16_from_be(buf@.subrange(pos as int, pos + 2)),
{
    let b0: u16 = buf[pos] as u16;
    let b1: u16 = buf[pos + 1] as u16;
    b0 * 256 + b1
}

/// Reads a big-endian `u32` at `pos`.
pub fn read_u32(buf: &[u8], pos: usize) -> (x: u32)
    requires
        pos + 4 <= buf.len(),
    ensures
        x == u32_from_be(buf@.subrange(pos as int, pos + 4)),
{
    let b0: u32 = buf[pos] as u32;
    let b1: u32 = buf[pos + 1] as u32;
    let b2: u32 = buf[pos + 2] as u32;
    let b3: u32 = buf[pos + 3] as u32;
    b0 * 0x100_0000 + b1 * 0x1_0000 + b2 * 0x100 + b3
}

/// Reads a big-endian `u64` at `pos`.
pub fn read_u64(buf: &[u8], pos: usize) -> (x: u64)
    requires
        pos + 8 <= buf.len(),
    ensures
        x == u64_from_be(buf@.subrange(pos as int, pos + 8)),
{
    let hi: u64 = read_u32(buf, pos) as u64;
    let lo: u64 = read_u32(buf, pos + 4) as u64;
    proof {
        let b = buf@.subrange(pos as int, pos + 8);
        assert(b.subrange(0, 4) =~= buf@.subrange(pos as int, pos + 4));
        assert(b.subrange(4, 8) =~= buf@.subrange(pos + 4, pos + 8));
    }
    hi * 0x1_0000_0000 + lo
}

/// Reads a big-endian two's complement `i32` at `pos`.
pub fn read_i32(buf: &[u8], pos: usize) -> (x: i32)
    requires
        pos + 4 <= buf.len(),
    ensures
        x == i32_from_be(buf@.subrange(pos as int, pos + 4)),
{
    let u: u32 = read_u32(buf, pos);
    if u >= 0x8000_0000 {
        (u as i64 - 0x1_0000_0000) as i32
    } else {
        u as i32
    }
}

/// Reads a big-endian two's complement `i64` at `pos`.
pub fn read_i64(buf: &[u8], pos: usize) -> (x: i64)
    requires
        pos + 8 <= buf.len(),
    ensures
        x == i64_from_be(buf@.subrange(pos as int, pos + 8)),
{
    let u: u64 = read_u64(buf, pos);
    if u >= 0x8000_0000_0000_0000 {
        (u as i128 - 0x1_0000_0000_0000_0000) as i64
    } else {
        u as i64
    }
}

/// Copies `src` over `buf`, starting at `pos`.
pub fn write_bytes(buf: &mut Vec<u8>, pos: usize, src: &[u8])
    requires
        pos + src.len() <= old(buf).len(),
    ensures
        final(buf)@ == overwrite(old(buf)@, pos as int, src@),
{
    let n: usize = src.len();
    let mut i: usize = 0;
    while i < n
        invariant
            i <= n,
            n == src@.len(),
            pos + n <= buf.len(),
            buf@.len() == old(buf)@.len(),
            forall|j: int| 0 <= j < buf@.len() ==> buf@[j] == (if pos <= j < pos + i {
                src@[j - pos]
            } else {
                old(buf)@[j]
            }),
        decreases n - i,
    {
        buf.set(pos + i, src[i]);
        i = i + 1;
    }
    assert(buf@ =~= overwrite(old(buf)@, pos as int, src@));
}

/// Writes `x` big-endian at `pos`.
pub fn write_u16(buf: &mut Vec<u8>, pos: usize, x: u16)
    requires
        pos + 2 <= old(buf).len(),
    ensures
        final(buf)@ == overwrite(old(buf)@, pos as int, u16_be(x)),
{
    buf.set(pos, (x / 256) as u8);
    buf.set(pos + 1, (x % 256) as u8);
    assert(buf@ =~= overwrite(old(buf)@, pos as int, u16_be(x)));
}

/// Writes `x` big-endian at `pos`.
pub fn write_u32(buf: &mut Vec<u8>, pos: usize, x: u32)
    requires
        pos + 4 <= old(buf).len(),
    ensures
        final(buf)@ == overwrite(old(buf)@, pos as int, u32_be(x)),
{
    buf.set(pos, (x / 0x100_0000) as u8);
    buf.set(pos + 1, (x / 0x1_0000 % 256) as u8);
    buf.set(pos + 2, (x / 0x100 % 256) as u8);
    buf.set(pos + 3, (x % 256) as u8);
    assert(buf@ =~= overwrite(old(buf)@, pos as int, u32_be(x)));
}

/// Writes `x` big-endian at `pos`.
pub fn write_u64(buf: &mut Vec<u8>, pos: usize, x: u64)
    requires
        pos + 8 <= old(buf).len(),
    ensures
        final(buf)@ == overwrite(old(buf)@, pos as int, u64_be(x)),
{
    write_u32(buf, pos, (x / 0x1_0000_0000) as u32);
    write_u32(buf, pos + 4, (x % 0x1_0000_0000) as u32);
    assert(buf@ =~= overwrite(old(buf)@, pos as int, u64_be(x)));
}

/// Writes `x` big-endian in two's complement at `pos`.
pub fn write_i32(buf: &mut Vec<u8>, pos: usize, x: i32)
    requires
        pos + 4 <= old(buf).len(),
    ensures
        final(buf)@ == overwrite(old(buf)@, pos as int, i32_be(x)),
{
    let u: u32 = if x < 0 {
        (x as i64 + 0x1_0000_0000) as u32
    } else {
        x as u32
    };
    write_u32(buf, pos, u);
}

/// Writes `x` big-endian in two's complement at `pos`.
pub fn write_i64(buf: &mut Vec<u8>, pos: usize, x: i64)
    requires
        pos + 8 <= old(buf).len(),
    ensures
        final(buf)@ == overwrite(old(buf)@, pos as int, i64_be(x)),
{
    let u: u64 = if x < 0 {
        (x as i128 + 0x1_0000_0000_0000_0000) as u64
    } else {
        x as u64
    };
    write_u64(buf, pos, u);
}

} // verus!

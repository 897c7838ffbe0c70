//! Little-endian integers inside byte buffers.
use vstd::prelude::*;

verus! {

/// The 16-bit integer whose little-endian bytes start at `i`.
pub open spec fn u16_at(s: Seq<u8>, i: int) -> int {
    s[i] + 256 * s[i + 1]
}

/// The 32-bit integer whose little-endian bytes start at `i`.
pub open spec fn u32_at(s: Seq<u8>, i: int) -> int {
    u16_at(s, i) + 0x1_0000 * u16_at(s, i + 2)
}

/// The 64-bit integer whose little-endian bytes start at `i`.
pub open spec fn u64_at(s: Seq<u8>, i: int) -> int {
    u32_at(s, i) + 0x1_0000_0000 * u32_at(s, i + 4)
}

/// The two little-endian bytes of a 16-bit integer.
pub open spec fn u16_bytes(v: int) -> Seq<u8> {
    seq![(v % 256) as u8, (v / 256 % 256) as u8]
}

/// The four little-endian bytes of a 32-bit integer.
pub open spec fn u32_bytes(v: int) -> Seq<u8> {
    u16_bytes(v % 0x1_0000) + u16_bytes(v / 0x1_0000)
}

/// The eight little-endian bytes of a 64-bit integer.
pub open spec fn u64_bytes(v: int) -> Seq<u8> {
    u32_bytes(v % 0x1_0000_0000) + u32_bytes(v / 0x1_0000_0000)
}

/// `s` with the bytes from `at` on replaced by `b`.
pub open spec fn splice(s: Seq<u8>, at: int, b: Seq<u8>) -> Seq<u8> {
    s.take(at) + b + s.skip(at + b.len())
}

/// A splice reads back what it wrote and leaves every byte outside alone.
pub proof fn lemma_splice(s: Seq<u8>, at: int, b: Seq<u8>)
    requires
        0 <= at,
        at + b.len() <= s.len(),
    ensures
        splice(s, at, b).len() == s.len(),
        splice(s, at, b).subrange(at, at + b.len()) == b,
        forall|k: int|
            #![trigger splice(s, at, b)[k]]
            0 <= k < s.len() ==> splice(s, at, b)[k] == if at <= k < at + b.len() {
                b[k - at]
            } else {
                s[k]
            },
        forall|lo: int, hi: int|
            #![trigger splice(s, at, b).subrange(lo, hi)]
            0 <= lo <= hi <= s.len() && (hi <= at || at + b.len() <= lo) ==> splice(
                s,
                at,
                b,
            ).subrange(lo, hi) == s.subrange(lo, hi),
{
    let t = splice(s, at, b);
    assert(t.subrange(at, at + b.len()) =~= b);
    assert forall|lo: int, hi: int|
        #![trigger t.subrange(lo, hi)]
        0 <= lo <= hi <= s.len() && (hi <= at || at + b.len() <= lo) implies t.subrange(lo, hi)
        == s.subrange(lo, hi) by {
        assert(t.subrange(lo, hi) =~= s.subrange(lo, hi));
    }
}

/// Two splices, one right behind the other, are one.
pub proof fn lemma_splice_append(s: Seq<u8>, at: int, a: Seq<u8>, b: Seq<u8>)
    requires
        0 <= at,
        at + a.len() + b.len() <= s.len(),
    ensures
        splice(splice(s, at, a), at + a.len(), b) == splice(s, at, a + b),
{
    assert(splice(splice(s, at, a), at + a.len(), b) =~= splice(s, at, a + b));
}

/// The bytes of a 16-bit integer, wherever they stand, read back as it.
pub proof fn lemma_u16_round_trip(s: Seq<u8>, i: int, v: int)
    requires
        0 <= v < 0x1_0000,
        0 <= i,
        i + 2 <= s.len(),
        s.subrange(i, i + 2) == u16_bytes(v),
    ensures
        u16_at(s, i) == v,
{
    let t = s.subrange(i, i + 2);
    assert(t[0] == s[i] && t[1] == s[i + 1]);
}

/// The bytes of a 32-bit integer, wherever they stand, read back as it.
pub proof fn lemma_u32_round_trip(s: Seq<u8>, i: int, v: int)
    requires
        0 <= v < 0x1_0000_0000,
        0 <= i,
        i + 4 <= s.len(),
        s.subrange(i, i + 4) == u32_bytes(v),
    ensures
        u32_at(s, i) == v,
{
    let t = s.subrange(i, i + 4);
    assert(s.subrange(i, i + 2) =~= t.subrange(0, 2));
    assert(s.subrange(i + 2, i + 4) =~= t.subrange(2, 4));
    assert(t.subrange(0, 2) =~= u16_bytes(v % 0x1_0000));
    assert(t.subrange(2, 4) =~= u16_bytes(v / 0x1_0000));
    lemma_u16_round_trip(s, i, v % 0x1_0000);
    lemma_u16_round_trip(s, i + 2, v / 0x1_0000);
}

/// The bytes of a 64-bit integer, wherever they stand, read back as it.
pub proof fn lemma_u64_round_trip(s: Seq<u8>, i: int, v: int)
    requires
        0 <= v < 0x1_0000_0000_0000_0000,
        0 <= i,
        i + 8 <= s.len(),
        s.subrange(i, i + 8) == u64_bytes(v),
    ensures
        u64_at(s, i) == v,
{
    let t = s.subrange(i, i + 8);
    assert(s.subrange(i, i + 4) =~= t.subrange(0, 4));
    assert(s.subrange(i + 4, i + 8) =~= t.subrange(4, 8));
    assert(t.subrange(0, 4) =~= u32_bytes(v % 0x1_0000_0000));
    assert(t.subrange(4, 8) =~= u32_bytes(v / 0x1_0000_0000));
    lemma_u32_round_trip(s, i, v % 0x1_0000_0000);
    lemma_u32_round_trip(s, i + 4, v / 0x1_0000_0000);
}

/// Two halves fall apart again.
proof fn lemma_halves(low: int, high: int, base: int)
    by (nonlinear_arith)
    requires
        0 <= low < base,
        0 <= high < base,
    ensures
        (low + base * high) % base == low,
        (low + base * high) / base == high,
        0 <= low + base * high < base * base,
{
}

/// The bytes of the 16-bit integer at an index are the bytes that stand there.
pub proof fn lemma_u16_bytes_at(s: Seq<u8>, i: int)
    requires
        0 <= i,
        i + 2 <= s.len(),
    ensures
        u16_bytes(u16_at(s, i)) == s.subrange(i, i + 2),
        0 <= u16_at(s, i) < 0x1_0000,
{
    assert(u16_bytes(u16_at(s, i)) =~= s.subrange(i, i + 2));
}

/// The bytes of the 32-bit integer at an index are the bytes that stand there.
pub proof fn lemma_u32_bytes_at(s: Seq<u8>, i: int)
    requires
        0 <= i,
        i + 4 <= s.len(),
    ensures
        u32_bytes(u32_at(s, i)) == s.subrange(i, i + 4),
        0 <= u32_at(s, i) < 0x1_0000_0000,
{
    lemma_u16_bytes_at(s, i);
    lemma_u16_bytes_at(s, i + 2);
    lemma_halves(u16_at(s, i), u16_at(s, i + 2), 0x1_0000);
    assert(s.subrange(i, i + 4) =~= s.subrange(i, i + 2) + s.subrange(i + 2, i + 4));
}

/// The bytes of the 64-bit integer at an index are the bytes that stand there.
pub proof fn lemma_u64_bytes_at(s: Seq<u8>, i: int)
    requires
        0 <= i,
        i + 8 <= s.len(),
    ensures
        u64_bytes(u64_at(s, i)) == s.subrange(i, i + 8),
        0 <= u64_at(s, i) < 0x1_0000_0000_0000_0000,
{
    lemma_u32_bytes_at(s, i);
    lemma_u32_bytes_at(s, i + 4);
    lemma_halves(u32_at(s, i), u32_at(s, i + 4), 0x1_0000_0000);
    assert(s.subrange(i, i + 8) =~= s.subrange(i, i + 4) + s.subrange(i + 4, i + 8));
}

/// Reads a little-endian 16-bit integer.
pub fn read_u16(buf: &[u8], at: usize) -> (r: u16)
    requires
        at + 2 <= buf.len(),
    ensures
        r == u16_at(buf@, at as int),
{
    buf[at] as u16 + 256 * (buf[at + 1] as u16)
}

/// Reads a little-endian 32-bit integer.
pub fn read_u32(buf: &[u8], at: usize) -> (r: u32)
    requires
        at + 4 <= buf.len(),
    ensures
        r == u32_at(buf@, at as int),
{
    read_u16(buf, at) as u32 + 0x1_0000 * (read_u16(buf, at + 2) as u32)
}

/// Reads a little-endian 64-bit integer.
pub fn read_u64(buf: &[u8], at: usize) -> (r: u64)
    requires
        at + 8 <= buf.len(),
    ensures
        r == u64_at(buf@, at as int),
{
    read_u32(buf, at) as u64 + 0x1_0000_0000 * (read_u32(buf, at + 4) as u64)
}

/// Writes a byte.
pub fn write_u8(buf: &mut [u8], at: usize, v: u8)
    requires
        at < old(buf).len(),
    ensures
        final(buf)@ == splice(old(buf)@, at as int, seq![v]),
{
    buf[at] = v;
    assert(buf@ =~= splice(old(buf)@, at as int, seq![v]));
}

/// Writes a 16-bit integer in little-endian order.
pub fn write_u16(buf: &mut [u8], at: usize, v: u16)
    requires
        at + 2 <= old(buf).len(),
    ensures
        final(buf)@ == splice(old(buf)@, at as int, u16_bytes(v as int)),
{
    buf[at] = (v % 256) as u8;
    buf[at + 1] = (v / 256) as u8;
    assert(buf@ =~= splice(old(buf)@, at as int, u16_bytes(v as int)));
}

/// Writes a 32-bit integer in little-endian order.
pub fn write_u32(buf: &mut [u8], at: usize, v: u32)
    requires
        at + 4 <= old(buf).len(),
    ensures
        final(buf)@ == splice(old(buf)@, at as int, u32_bytes(v as int)),
{
    write_u16(buf, at, (v % 0x1_0000) as u16);
    write_u16(buf, at + 2, (v / 0x1_0000) as u16);
    proof {
        lemma_splice_append(
            old(buf)@,
            at as int,
            u16_bytes(v as int % 0x1_0000),
            u16_bytes(v as int / 0x1_0000),
        );
    }
}

/// Writes a 64-bit integer in little-endian order.
pub fn write_u64(buf: &mut [u8], at: usize, v: u64)
    requires
        at + 8 <= old(buf).len(),
    ensures
        final(buf)@ == splice(old(buf)@, at as int, u64_bytes(v as int)),
{
    write_u32(buf, at, (v % 0x1_0000_0000) as u32);
    write_u32(buf, at + 4, (v / 0x1_0000_0000) as u32);
    proof {
        lemma_splice_append(
            old(buf)@,
            at as int,
            u32_bytes(v as int % 0x1_0000_0000),
            u32_bytes(v as int / 0x1_0000_0000),
        );
    }
}

} // verus!

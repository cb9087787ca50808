//! Wire-level helpers: big-endian 32-bit numbers and the CRC-32 of PNG chunks.
use vstd::prelude::*;

verus! {

/// The unsigned big-endian number held by the four bytes of `b` from `at` on.
pub open spec fn be32_at(b: Seq<u8>, at: int) -> int {
    b[at] as int * 0x100_0000 + b[at + 1] as int * 0x1_0000 + b[at + 2] as int * 0x100
        + b[at + 3] as int
}

/// The four big-endian bytes of `x`.
#[verifier::opaque]
pub open spec fn be32_bytes(x: u32) -> Seq<u8> {
    seq![
        (x / 0x100_0000) as u8,
        (x / 0x1_0000 % 0x100) as u8,
        (x / 0x100 % 0x100) as u8,
        (x % 0x100) as u8,
    ]
}

/// A number takes four bytes.
pub proof fn lemma_be32_bytes_len(x: u32)
    ensures
        be32_bytes(x).len() == 4,
{
    reveal(be32_bytes);
}

/// Reading back the bytes of a number, wherever they stand, gives the number.
pub proof fn lemma_be32_round_trip(x: u32, pre: Seq<u8>, post: Seq<u8>)
    ensures
        be32_at(pre + be32_bytes(x) + post, pre.len() as int) == x as int,
{
    reveal(be32_bytes);
    let b = pre + be32_bytes(x) + post;
    let at = pre.len() as int;
    assert(b[at] == be32_bytes(x)[0]);
    assert(b[at + 1] == be32_bytes(x)[1]);
    assert(b[at + 2] == be32_bytes(x)[2]);
    assert(b[at + 3] == be32_bytes(x)[3]);
    let v = x as int;
    assert(v == (v / 0x100_0000) * 0x100_0000 + (v / 0x1_0000 % 0x100) * 0x1_0000 + (v / 0x100
        % 0x100) * 0x100 + v % 0x100) by (nonlinear_arith)
        requires
            0 <= v < 0x1_0000_0000,
    ;
}

/// Reads the big-endian `u32` at `at`.
pub fn read_be32(b: &Vec<u8>, at: usize) -> (r: u32)
    requires
        at + 4 <= b@.len(),
    ensures
        r as int == be32_at(b@, at as int),
{
    let n = b.len();
    assert(at + 3 < n);
    b[at] as u32 * 0x100_0000 + b[at + 1] as u32 * 0x1_0000 + b[at + 2] as u32 * 0x100
        + b[at + 3] as u32
}

/// Appends the four big-endian bytes of `x`.
pub fn push_be32(out: &mut Vec<u8>, x: u32)
    ensures
        final(out)@ == old(out)@ + be32_bytes(x),
{
    out.push((x / 0x100_0000) as u8);
    out.push((x / 0x1_0000 % 0x100) as u8);
    out.push((x / 0x100 % 0x100) as u8);
    out.push((x % 0x100) as u8);
    reveal(be32_bytes);
    assert(final(out)@ =~= old(out)@ + be32_bytes(x));
}

/// The reflected CRC-32 polynomial that PNG uses.
pub const CRC_POLY: u32 = 0xEDB8_8320;

/// One bit of CRC-32 division.
pub open spec fn crc_bit(c: u32) -> u32 {
    if c & 1 == 1 {
        CRC_POLY ^ (c >> 1)
    } else {
        c >> 1
    }
}

/// The CRC register after taking in one byte.
pub open spec fn crc_byte(c: u32, x: u8) -> u32 {
    let c0 = c ^ (x as u32);
    crc_bit(crc_bit(crc_bit(crc_bit(crc_bit(crc_bit(crc_bit(crc_bit(c0))))))))
}

/// The CRC register after taking in the bytes of `s` in order.
pub open spec fn crc_update(c: u32, s: Seq<u8>) -> u32
    decreases s.len(),
{
    if s.len() == 0 {
        c
    } else {
        crc_byte(crc_update(c, s.drop_last()), s.last())
    }
}

/// The CRC-32 of `s` as PNG stores it: register preset to all ones, result
/// complemented.
#[verifier::opaque]
pub open spec fn crc32(s: Seq<u8>) -> u32 {
    crc_update(0xFFFF_FFFF, s) ^ 0xFFFF_FFFF
}

/// One bit of division is linear, and sends only zero to zero.
proof fn lemma_crc_bit_linear(a: u32, b: u32)
    ensures
        crc_bit(a) ^ crc_bit(b) == crc_bit(a ^ b),
        a != b ==> crc_bit(a) != crc_bit(b),
{
    assert((if a & 1 == 1 {
        0xEDB8_8320u32 ^ (a >> 1)
    } else {
        a >> 1
    }) ^ (if b & 1 == 1 {
        0xEDB8_8320u32 ^ (b >> 1)
    } else {
        b >> 1
    }) == (if (a ^ b) & 1 == 1 {
        0xEDB8_8320u32 ^ ((a ^ b) >> 1)
    } else {
        (a ^ b) >> 1
    })) by (bit_vector);
    assert(a != b ==> (if a & 1 == 1 {
        0xEDB8_8320u32 ^ (a >> 1)
    } else {
        a >> 1
    }) != (if b & 1 == 1 {
        0xEDB8_8320u32 ^ (b >> 1)
    } else {
        b >> 1
    })) by (bit_vector);
}

/// Taking in one byte: the results for two registers differ exactly when
/// the registers, each combined with its byte, differ.
proof fn lemma_crc_byte_injective(c1: u32, x1: u8, c2: u32, x2: u8)
    requires
        c1 ^ (x1 as u32) != c2 ^ (x2 as u32),
    ensures
        crc_byte(c1, x1) != crc_byte(c2, x2),
{
    let mut a = c1 ^ (x1 as u32);
    let mut b = c2 ^ (x2 as u32);
    lemma_crc_bit_linear(a, b);
    a = crc_bit(a);
    b = crc_bit(b);
    lemma_crc_bit_linear(a, b);
    a = crc_bit(a);
    b = crc_bit(b);
    lemma_crc_bit_linear(a, b);
    a = crc_bit(a);
    b = crc_bit(b);
    lemma_crc_bit_linear(a, b);
    a = crc_bit(a);
    b = crc_bit(b);
    lemma_crc_bit_linear(a, b);
    a = crc_bit(a);
    b = crc_bit(b);
    lemma_crc_bit_linear(a, b);
    a = crc_bit(a);
    b = crc_bit(b);
    lemma_crc_bit_linear(a, b);
    a = crc_bit(a);
    b = crc_bit(b);
    lemma_crc_bit_linear(a, b);
}

/// Two different registers stay different whatever bytes follow.
proof fn lemma_crc_update_injective(c1: u32, c2: u32, q: Seq<u8>)
    requires
        c1 != c2,
    ensures
        crc_update(c1, q) != crc_update(c2, q),
    decreases q.len(),
{
    if q.len() > 0 {
        let u1 = crc_update(c1, q.drop_last());
        let u2 = crc_update(c2, q.drop_last());
        lemma_crc_update_injective(c1, c2, q.drop_last());
        let x = q.last();
        assert(u1 ^ (x as u32) != u2 ^ (x as u32)) by (bit_vector)
            requires
                u1 != u2,
        ;
        lemma_crc_byte_injective(u1, x, u2, x);
    }
}

/// Taking in `p + q` is taking in `p`, then `q`.
proof fn lemma_crc_update_concat(c: u32, p: Seq<u8>, q: Seq<u8>)
    ensures
        crc_update(c, p + q) == crc_update(crc_update(c, p), q),
    decreases q.len(),
{
    if q.len() == 0 {
        assert(p + q =~= p);
    } else {
        assert((p + q).drop_last() =~= p + q.drop_last());
        assert((p + q).last() == q.last());
        lemma_crc_update_concat(c, p, q.drop_last());
    }
}

/// The CRC-32 tells apart two byte sequences that differ in one byte.
pub proof fn lemma_crc32_detects_one_byte(p: Seq<u8>, x: u8, y: u8, q: Seq<u8>)
    requires
        x != y,
    ensures
        crc32(p.push(x) + q) != crc32(p.push(y) + q),
{
    reveal(crc32);
    let u = crc_update(0xFFFF_FFFF, p);
    assert(p.push(x).drop_last() =~= p);
    assert(p.push(y).drop_last() =~= p);
    assert(u ^ (x as u32) != u ^ (y as u32)) by (bit_vector)
        requires
            x != y,
    ;
    lemma_crc_byte_injective(u, x, u, y);
    lemma_crc_update_concat(0xFFFF_FFFF, p.push(x), q);
    lemma_crc_update_concat(0xFFFF_FFFF, p.push(y), q);
    let r1 = crc_update(0xFFFF_FFFF, p.push(x));
    let r2 = crc_update(0xFFFF_FFFF, p.push(y));
    lemma_crc_update_injective(r1, r2, q);
    let f1 = crc_update(r1, q);
    let f2 = crc_update(r2, q);
    assert(f1 ^ 0xFFFF_FFFF != f2 ^ 0xFFFF_FFFF) by (bit_vector)
        requires
            f1 != f2,
    ;
}

fn crc_bit_exec(c: u32) -> (r: u32)
    ensures
        r == crc_bit(c),
{
    if c & 1 == 1 {
        CRC_POLY ^ (c >> 1)
    } else {
        c >> 1
    }
}

fn crc_byte_exec(c: u32, x: u8) -> (r: u32)
    ensures
        r == crc_byte(c, x),
{
    let mut r = c ^ (x as u32);
    r = crc_bit_exec(r);
    r = crc_bit_exec(r);
    r = crc_bit_exec(r);
    r = crc_bit_exec(r);
    r = crc_bit_exec(r);
    r = crc_bit_exec(r);
    r = crc_bit_exec(r);
    r = crc_bit_exec(r);
    r
}

/// The CRC-32 of the bytes of `b` in `start..end`.
pub fn crc32_of_range(b: &Vec<u8>, start: usize, end: usize) -> (r: u32)
    requires
        start <= end <= b@.len(),
    ensures
        r == crc32(b@.subrange(start as int, end as int)),
{
    let mut c: u32 = 0xFFFF_FFFF;
    let mut i: usize = start;
    while i < end
        invariant
            start <= i <= end <= b@.len(),
            c == crc_update(0xFFFF_FFFF, b@.subrange(start as int, i as int)),
        decreases end - i,
    {
        assert(b@.subrange(start as int, i + 1).drop_last() =~= b@.subrange(start as int, i as int));
        c = crc_byte_exec(c, b[i]);
        i = i + 1;
    }
    reveal(crc32);
    c ^ 0xFFFF_FFFF
}

/// Appends the bytes of `src`.
pub fn append_slice(out: &mut Vec<u8>, src: &[u8])
    ensures
        final(out)@ == old(out)@ + src@,
{
    let n = src.len();
    let mut k: usize = 0;
    while k < n
        invariant
            n == src@.len(),
            k <= n,
            out@ =~= old(out)@ + src@.subrange(0, k as int),
        decreases n - k,
    {
        out.push(src[k]);
        k = k + 1;
    }
    assert(src@.subrange(0, n as int) =~= src@);
}

/// Appends the bytes of `b` in `start..end`.
pub fn append_range(out: &mut Vec<u8>, b: &Vec<u8>, start: usize, end: usize)
    requires
        start <= end <= b@.len(),
    ensures
        final(out)@ == old(out)@ + b@.subrange(start as int, end as int),
{
    let mut k: usize = start;
    while k < end
        invariant
            start <= k <= end <= b@.len(),
            out@ =~= old(out)@ + b@.subrange(start as int, k as int),
        decreases end - k,
    {
        out.push(b[k]);
        k = k + 1;
    }
}

} // verus!

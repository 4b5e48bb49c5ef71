//! Little-endian integers in byte sequences.

use vstd::prelude::*;

verus! {

/// The `u16` stored little-endian at `at`.
pub open spec fn le_u16(s: Seq<u8>, at: int) -> int {
    s[at] + s[at + 1] * 256
}

/// The `u32` stored little-endian at `at`.
pub open spec fn le_u32(s: Seq<u8>, at: int) -> int {
    s[at] + s[at + 1] * 0x100 + s[at + 2] * 0x1_0000 + s[at + 3] * 0x100_0000
}

/// The `u64` stored little-endian at `at`.
pub open spec fn le_u64(s: Seq<u8>, at: int) -> int {
    le_u32(s, at) + le_u32(s, at + 4) * 0x1_0000_0000
}

/// The little-endian bytes of a `u16`.
pub open spec fn u16_bytes(x: u16) -> Seq<u8> {
    seq![(x % 0x100) as u8, (x / 0x100) as u8]
}

/// The little-endian bytes of a `u32`.
pub open spec fn u32_bytes(x: u32) -> Seq<u8> {
    seq![
        (x % 0x100) as u8,
        ((x / 0x100) % 0x100) as u8,
        ((x / 0x1_0000) % 0x100) as u8,
        (x / 0x100_0000) as u8,
    ]
}

/// The little-endian bytes of a `u64`.
pub open spec fn u64_bytes(x: u64) -> Seq<u8> {
    u32_bytes((x % 0x1_0000_0000) as u32) + u32_bytes((x / 0x1_0000_0000) as u32)
}

pub proof fn lemma_u32_bytes(x: u32)
    ensures
        u32_bytes(x).len() == 4,
        le_u32(u32_bytes(x), 0) == x,
{
    let b = u32_bytes(x);
    assert(b[0] == x % 0x100);
    assert(b[1] == (x / 0x100) % 0x100);
    assert(b[2] == (x / 0x1_0000) % 0x100);
    assert(b[3] == x / 0x100_0000);
    assert(x % 0x100 + ((x / 0x100) % 0x100) * 0x100 + ((x / 0x1_0000) % 0x100) * 0x1_0000 + (x
        / 0x100_0000) * 0x100_0000 == x) by (nonlinear_arith);
}

pub proof fn lemma_u64_bytes(x: u64)
    ensures
        u64_bytes(x).len() == 8,
        le_u64(u64_bytes(x), 0) == x,
{
    let lo = (x % 0x1_0000_0000) as u32;
    let hi = (x / 0x1_0000_0000) as u32;
    lemma_u32_bytes(lo);
    lemma_u32_bytes(hi);
    let b = u64_bytes(x);
    assert(b.subrange(0, 4) =~= u32_bytes(lo));
    assert(b.subrange(4, 8) =~= u32_bytes(hi));
    assert(le_u32(b, 0) == le_u32(u32_bytes(lo), 0));
    assert(le_u32(b, 4) == le_u32(u32_bytes(hi), 0));
    assert(x % 0x1_0000_0000 + (x / 0x1_0000_0000) * 0x1_0000_0000 == x) by (nonlinear_arith);
}

/// Reading a value back from a longer sequence that holds its bytes at `at`.
pub proof fn lemma_le_u32_at(s: Seq<u8>, at: int, x: u32)
    requires
        0 <= at,
        at + 4 <= s.len(),
        s.subrange(at, at + 4) == u32_bytes(x),
    ensures
        le_u32(s, at) == x,
{
    lemma_u32_bytes(x);
    let b = u32_bytes(x);
    assert(s[at] == b[0] && s[at + 1] == b[1] && s[at + 2] == b[2] && s[at + 3] == b[3]) by {
        assert(s.subrange(at, at + 4)[0] == s[at]);
        assert(s.subrange(at, at + 4)[1] == s[at + 1]);
        assert(s.subrange(at, at + 4)[2] == s[at + 2]);
        assert(s.subrange(at, at + 4)[3] == s[at + 3]);
    }
}

pub proof fn lemma_le_u64_at(s: Seq<u8>, at: int, x: u64)
    requires
        0 <= at,
        at + 8 <= s.len(),
        s.subrange(at, at + 8) == u64_bytes(x),
    ensures
        le_u64(s, at) == x,
{
    lemma_u64_bytes(x);
    let lo = (x % 0x1_0000_0000) as u32;
    let hi = (x / 0x1_0000_0000) as u32;
    assert(s.subrange(at, at + 4) =~= u32_bytes(lo)) by {
        assert forall|i: int| 0 <= i < 4 implies s.subrange(at, at + 4)[i] == u32_bytes(lo)[i] by {
            assert(s.subrange(at, at + 8)[i] == u64_bytes(x)[i]);
        }
    }
    assert(s.subrange(at + 4, at + 8) =~= u32_bytes(hi)) by {
        assert forall|i: int| 0 <= i < 4 implies s.subrange(at + 4, at + 8)[i] == u32_bytes(hi)[i] by {
            assert(s.subrange(at, at + 8)[i + 4] == u64_bytes(x)[i + 4]);
        }
    }
    lemma_le_u32_at(s, at, lo);
    lemma_le_u32_at(s, at + 4, hi);
    assert(x % 0x1_0000_0000 + (x / 0x1_0000_0000) * 0x1_0000_0000 == x) by (nonlinear_arith);
}

pub fn read_u32(data: &[u8], at: usize) -> (r: u32)
    requires
        at + 4 <= data@.len(),
    ensures
        r == le_u32(data@, at as int),
{
    data[at] as u32 + (data[at + 1] as u32) * 0x100 + (data[at + 2] as u32) * 0x1_0000 + (data[at
        + 3] as u32) * 0x100_0000
}

pub fn read_u64(data: &[u8], at: usize) -> (r: u64)
    requires
        at + 8 <= data@.len(),
    ensures
        r == le_u64(data@, at as int),
{
    let lo = read_u32(data, at) as u64;
    assert(data@.len() == data.len());
    let hi = read_u32(data, at + 4) as u64;
    lo + hi * 0x1_0000_0000
}

pub fn push_u16(out: &mut Vec<u8>, x: u16)
    ensures
        final(out)@ == old(out)@ + u16_bytes(x),
{
    out.push((x % 0x100) as u8);
    out.push((x / 0x100) as u8);
    assert(final(out)@ =~= old(out)@ + u16_bytes(x));
}

pub fn push_u32(out: &mut Vec<u8>, x: u32)
    ensures
        final(out)@ == old(out)@ + u32_bytes(x),
{
    out.push((x % 0x100) as u8);
    out.push(((x / 0x100) % 0x100) as u8);
    out.push(((x / 0x1_0000) % 0x100) as u8);
    out.push((x / 0x100_0000) as u8);
    assert(out@ =~= old(out)@ + u32_bytes(x));
}

pub fn push_u64(out: &mut Vec<u8>, x: u64)
    ensures
        final(out)@ == old(out)@ + u64_bytes(x),
{
    push_u32(out, (x % 0x1_0000_0000) as u32);
    push_u32(out, (x / 0x1_0000_0000) as u32);
    assert(out@ =~= old(out)@ + u64_bytes(x));
}

/// Appends the bytes of `b`.
pub fn push_bytes(out: &mut Vec<u8>, b: &[u8])
    ensures
        final(out)@ == old(out)@ + b@,
{
    let ghost before = out@;
    let mut j: usize = 0;
    while j < b.len()
        invariant
            j <= b@.len(),
            out@ == before + b@.take(j as int),
        decreases b@.len() - j,
    {
        out.push(b[j]);
        proof {
            assert(out@ =~= before + b@.take(j + 1));
        }
        j = j + 1;
    }
    assert(b@.take(b@.len() as int) =~= b@);
}

} // verus!

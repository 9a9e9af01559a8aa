//! Big-endian byte images of the fixed-width unsigned integers, the
//! primitive layer every encoded value is built from.

use vstd::prelude::*;

verus! {

/// The four-byte big-endian image of a 32-bit value.
pub open spec fn be4(x: u32) -> Seq<u8> {
    seq![
        ((x >> 24) & 0xff) as u8,
        ((x >> 16) & 0xff) as u8,
        ((x >> 8) & 0xff) as u8,
        (x & 0xff) as u8,
    ]
}

/// The 32-bit value a four-byte big-endian image stands for.
pub open spec fn be4_val(b: Seq<u8>) -> u32
    recommends
        b.len() == 4,
{
    ((b[0] as u32) << 24) | ((b[1] as u32) << 16) | ((b[2] as u32) << 8) | (b[3] as u32)
}

/// The eight-byte big-endian image of a 64-bit value.
pub open spec fn be8(x: u64) -> Seq<u8> {
    seq![
        ((x >> 56) & 0xff) as u8,
        ((x >> 48) & 0xff) as u8,
        ((x >> 40) & 0xff) as u8,
        ((x >> 32) & 0xff) as u8,
        ((x >> 24) & 0xff) as u8,
        ((x >> 16) & 0xff) as u8,
        ((x >> 8) & 0xff) as u8,
        (x & 0xff) as u8,
    ]
}

/// The 64-bit value an eight-byte big-endian image stands for.
pub open spec fn be8_val(b: Seq<u8>) -> u64
    recommends
        b.len() == 8,
{
    ((b[0] as u64) << 56) | ((b[1] as u64) << 48) | ((b[2] as u64) << 40) | ((b[3] as u64) << 32)
        | ((b[4] as u64) << 24) | ((b[5] as u64) << 16) | ((b[6] as u64) << 8) | (b[7] as u64)
}

/// The sixteen-byte big-endian image of a 128-bit value, written as the
/// images of its two 64-bit halves.
pub open spec fn be16(x: u128) -> Seq<u8> {
    be8(((x >> 64) & 0xffff_ffff_ffff_ffff) as u64) + be8((x & 0xffff_ffff_ffff_ffff) as u64)
}

/// The 128-bit value a sixteen-byte big-endian image stands for.
pub open spec fn be16_val(b: Seq<u8>) -> u128
    recommends
        b.len() == 16,
{
    ((be8_val(b.subrange(0, 8)) as u128) << 64) | (be8_val(b.subrange(8, 16)) as u128)
}

pub proof fn lemma_be4_roundtrip(x: u32)
    ensures
        be4(x).len() == 4,
        be4_val(be4(x)) == x,
{
    assert((((((x >> 24) & 0xff) as u8) as u32) << 24) | (((((x >> 16) & 0xff) as u8) as u32)
        << 16) | (((((x >> 8) & 0xff) as u8) as u32) << 8) | (((x & 0xff) as u8) as u32) == x)
        by (bit_vector);
}

pub proof fn lemma_be8_roundtrip(x: u64)
    ensures
        be8(x).len() == 8,
        be8_val(be8(x)) == x,
{
    assert((((((x >> 56) & 0xff) as u8) as u64) << 56) | (((((x >> 48) & 0xff) as u8) as u64)
        << 48) | (((((x >> 40) & 0xff) as u8) as u64) << 40) | (((((x >> 32) & 0xff) as u8) as u64)
        << 32) | (((((x >> 24) & 0xff) as u8) as u64) << 24) | (((((x >> 16) & 0xff) as u8) as u64)
        << 16) | (((((x >> 8) & 0xff) as u8) as u64) << 8) | (((x & 0xff) as u8) as u64) == x)
        by (bit_vector);
}

pub proof fn lemma_be16_roundtrip(x: u128)
    ensures
        be16(x).len() == 16,
        be16_val(be16(x)) == x,
{
    let hi = ((x >> 64) & 0xffff_ffff_ffff_ffff) as u64;
    let lo = (x & 0xffff_ffff_ffff_ffff) as u64;
    lemma_be8_roundtrip(hi);
    lemma_be8_roundtrip(lo);
    assert(be16(x).subrange(0, 8) =~= be8(hi));
    assert(be16(x).subrange(8, 16) =~= be8(lo));
    assert(((hi as u128) << 64) | (lo as u128) == x) by (bit_vector)
        requires
            hi == ((x >> 64) & 0xffff_ffff_ffff_ffff) as u64,
            lo == (x & 0xffff_ffff_ffff_ffff) as u64,
    ;
}

/// Appends the four-byte image of `x`.
pub fn push_be4(out: &mut Vec<u8>, x: u32)
    ensures
        final(out)@ == old(out)@ + be4(x),
{
    out.push(((x >> 24) & 0xff) as u8);
    out.push(((x >> 16) & 0xff) as u8);
    out.push(((x >> 8) & 0xff) as u8);
    out.push((x & 0xff) as u8);
    assert(out@ =~= old(out)@ + be4(x));
}

/// Appends the eight-byte image of `x`.
pub fn push_be8(out: &mut Vec<u8>, x: u64)
    ensures
        final(out)@ == old(out)@ + be8(x),
{
    out.push(((x >> 56) & 0xff) as u8);
    out.push(((x >> 48) & 0xff) as u8);
    out.push(((x >> 40) & 0xff) as u8);
    out.push(((x >> 32) & 0xff) as u8);
    out.push(((x >> 24) & 0xff) as u8);
    out.push(((x >> 16) & 0xff) as u8);
    out.push(((x >> 8) & 0xff) as u8);
    out.push((x & 0xff) as u8);
    assert(out@ =~= old(out)@ + be8(x));
}

/// Appends the sixteen-byte image of `x`.
pub fn push_be16(out: &mut Vec<u8>, x: u128)
    ensures
        final(out)@ == old(out)@ + be16(x),
{
    push_be8(out, ((x >> 64) & 0xffff_ffff_ffff_ffff) as u64);
    push_be8(out, (x & 0xffff_ffff_ffff_ffff) as u64);
    assert(out@ =~= old(out)@ + be16(x));
}

/// Reads the 32-bit value whose image starts at `i`.
pub fn read_be4(b: &Vec<u8>, i: usize) -> (x: u32)
    requires
        i + 4 <= b.len(),
    ensures
        x == be4_val(b@.subrange(i as int, i as int + 4)),
{
    let x = ((b[i] as u32) << 24) | ((b[i + 1] as u32) << 16) | ((b[i + 2] as u32) << 8) | (b[i
        + 3] as u32);
    proof {
        let s = b@.subrange(i as int, i as int + 4);
        assert(s[0] == b@[i as int] && s[1] == b@[i as int + 1] && s[2] == b@[i as int + 2] && s[3]
            == b@[i as int + 3]);
    }
    x
}

/// Reads the 64-bit value whose image starts at `i`.
pub fn read_be8(b: &Vec<u8>, i: usize) -> (x: u64)
    requires
        i + 8 <= b.len(),
    ensures
        x == be8_val(b@.subrange(i as int, i as int + 8)),
{
    let x = ((b[i] as u64) << 56) | ((b[i + 1] as u64) << 48) | ((b[i + 2] as u64) << 40) | ((b[i
        + 3] as u64) << 32) | ((b[i + 4] as u64) << 24) | ((b[i + 5] as u64) << 16) | ((b[i
        + 6] as u64) << 8) | (b[i + 7] as u64);
    proof {
        let s = b@.subrange(i as int, i as int + 8);
        assert(forall|k: int| 0 <= k < 8 ==> s[k] == b@[i as int + k]);
    }
    x
}

/// Reads the 128-bit value whose image starts at `i`.
pub fn read_be16(b: &Vec<u8>, i: usize) -> (x: u128)
    requires
        i + 16 <= b.len(),
    ensures
        x == be16_val(b@.subrange(i as int, i as int + 16)),
{
    let hi = read_be8(b, i);
    let lo = read_be8(b, i + 8);
    proof {
        let s = b@.subrange(i as int, i as int + 16);
        assert(s.subrange(0, 8) =~= b@.subrange(i as int, i as int + 8));
        assert(s.subrange(8, 16) =~= b@.subrange(i as int + 8, i as int + 16));
    }
    ((hi as u128) << 64) | (lo as u128)
}

/// Copies the bytes of `b` between `i` and `j` into a fresh vector.
pub fn copy_range(b: &Vec<u8>, i: usize, j: usize) -> (out: Vec<u8>)
    requires
        i <= j <= b@.len(),
    ensures
        out@ == b@.subrange(i as int, j as int),
{
    let mut out: Vec<u8> = Vec::new();
    let mut k = i;
    while k < j
        invariant
            i <= k <= j <= b@.len(),
            out@ == b@.subrange(i as int, k as int),
        decreases j - k,
    {
        out.push(b[k]);
        assert(out@ =~= b@.subrange(i as int, k as int + 1));
        k = k + 1;
    }
    out
}

/// True when the two byte vectors hold the same bytes.
pub fn bytes_eq(a: &Vec<u8>, b: &Vec<u8>) -> (r: bool)
    ensures
        r == (a@ == b@),
{
    if a.len() != b.len() {
        return false;
    }
    let mut k: usize = 0;
    while k < a.len()
        invariant
            k <= a@.len(),
            a@.len() == b@.len(),
            forall|j: int| 0 <= j < k ==> a@[j] == b@[j],
        decreases a@.len() - k,
    {
        if a[k] != b[k] {
            return false;
        }
        k = k + 1;
    }
    assert(a@ =~= b@);
    true
}

} // verus!

//! The value codec: every supported shape encodes to a tagged byte
//! string, and decoding an encoding yields the value back.
//!
//! Layout, by shape family:
//! - fixed-width integers: a tag byte, then the big-endian image;
//! - variable-length payloads: a tag byte, a four-byte big-endian
//!   length, then the payload;
//! - the fixed 32-byte string: a tag byte, then exactly 32 bytes;
//! - composites: a tag byte, then the fields' encodings in order;
//! - optionals: a tag byte, a presence flag byte, then the value when
//!   present; results: a tag byte, an arm flag byte, then the value or
//!   the error code;
//! - the ordered map: a tag byte, a four-byte entry count, then the
//!   entries in canonical (key-sorted) order — decoding rejects any
//!   other order, so equal maps have exactly one encoding.
//!
//! Every `p_*` spec parser returns the decoded view and the position
//! after it; `lemma_*_prefix` proves it recovers exactly what the
//! matching `enc_*` laid down, wherever the encoding sits in a larger
//! buffer.

use vstd::prelude::*;

use crate::bytes::{
    be4, be4_val, be8, be8_val, be16, be16_val, lemma_be4_roundtrip, lemma_be8_roundtrip,
    lemma_be16_roundtrip, push_be4, push_be8, push_be16, read_be4, read_be8, read_be16,
    copy_range,
};
use crate::error::{CodecError, ContractError, error_code, error_of_code, error_from_code};
use crate::values::{
    Address, Bytes32, ComplexData, ComplexDataV, Data, DataV, DeepData2, DeepData2V, Duration,
    OptionalData, OptionalDataV, Symbol, Text, TextMap, Timepoint, I256, U256, bytes32_wf,
    complex_wf, data_wf, deep_wf, entries_view, len_bounded, map_entries_sorted, map_wf,
    optional_wf, symbol_wf,
};

verus! {

pub const TAG_U32: u8 = 1;

pub const TAG_I32: u8 = 2;

pub const TAG_U64: u8 = 3;

pub const TAG_I64: u8 = 4;

pub const TAG_U128: u8 = 5;

pub const TAG_I128: u8 = 6;

pub const TAG_U256: u8 = 7;

pub const TAG_I256: u8 = 8;

pub const TAG_BYTES: u8 = 9;

pub const TAG_BYTES32: u8 = 10;

pub const TAG_TEXT: u8 = 11;

pub const TAG_SYMBOL: u8 = 12;

pub const TAG_DURATION: u8 = 13;

pub const TAG_TIMEPOINT: u8 = 14;

pub const TAG_ADDRESS: u8 = 15;

pub const TAG_MAP: u8 = 16;

pub const TAG_VEC: u8 = 17;

pub const TAG_OPTION: u8 = 18;

pub const TAG_RESULT: u8 = 19;

pub const TAG_DATA: u8 = 20;

pub const TAG_DEEP: u8 = 21;

pub const TAG_COMPLEX: u8 = 22;

pub const TAG_OPTIONAL: u8 = 23;

// ---------------------------------------------------------------------
// Core layouts shared by the shapes: tagged fixed-width words, tagged
// length-prefixed payloads, and the tagged fixed 32-byte payload.
// ---------------------------------------------------------------------

pub open spec fn enc_tag4(tag: u8, x: u32) -> Seq<u8> {
    seq![tag] + be4(x)
}

pub open spec fn p_tag4(b: Seq<u8>, i: int, tag: u8) -> Option<(u32, int)> {
    if 0 <= i && i + 5 <= b.len() && b[i] == tag {
        Some((be4_val(b.subrange(i + 1, i + 5)), i + 5))
    } else {
        None
    }
}

pub open spec fn enc_tag8(tag: u8, x: u64) -> Seq<u8> {
    seq![tag] + be8(x)
}

pub open spec fn p_tag8(b: Seq<u8>, i: int, tag: u8) -> Option<(u64, int)> {
    if 0 <= i && i + 9 <= b.len() && b[i] == tag {
        Some((be8_val(b.subrange(i + 1, i + 9)), i + 9))
    } else {
        None
    }
}

pub open spec fn enc_tag16(tag: u8, x: u128) -> Seq<u8> {
    seq![tag] + be16(x)
}

pub open spec fn p_tag16(b: Seq<u8>, i: int, tag: u8) -> Option<(u128, int)> {
    if 0 <= i && i + 17 <= b.len() && b[i] == tag {
        Some((be16_val(b.subrange(i + 1, i + 17)), i + 17))
    } else {
        None
    }
}

/// Four 64-bit words, most significant first: the 256-bit layout.
pub open spec fn enc_tag32(tag: u8, w0: u64, w1: u64, w2: u64, w3: u64) -> Seq<u8> {
    seq![tag] + be8(w0) + be8(w1) + be8(w2) + be8(w3)
}

pub open spec fn p_tag32(b: Seq<u8>, i: int, tag: u8) -> Option<((u64, u64, u64, u64), int)> {
    if 0 <= i && i + 33 <= b.len() && b[i] == tag {
        Some(
            (
                (
                    be8_val(b.subrange(i + 1, i + 9)),
                    be8_val(b.subrange(i + 9, i + 17)),
                    be8_val(b.subrange(i + 17, i + 25)),
                    be8_val(b.subrange(i + 25, i + 33)),
                ),
                i + 33,
            ),
        )
    } else {
        None
    }
}

pub open spec fn enc_lp(tag: u8, p: Seq<u8>) -> Seq<u8>
    recommends
        len_bounded(p),
{
    seq![tag] + be4(p.len() as u32) + p
}

pub open spec fn p_lp(b: Seq<u8>, i: int, tag: u8) -> Option<(Seq<u8>, int)> {
    if 0 <= i && i + 5 <= b.len() && b[i] == tag {
        let n = be4_val(b.subrange(i + 1, i + 5)) as int;
        if i + 5 + n <= b.len() {
            Some((b.subrange(i + 5, i + 5 + n), i + 5 + n))
        } else {
            None
        }
    } else {
        None
    }
}

pub open spec fn enc_fix32(tag: u8, p: Seq<u8>) -> Seq<u8>
    recommends
        p.len() == 32,
{
    seq![tag] + p
}

pub open spec fn p_fix32(b: Seq<u8>, i: int, tag: u8) -> Option<(Seq<u8>, int)> {
    if 0 <= i && i + 33 <= b.len() && b[i] == tag {
        Some((b.subrange(i + 1, i + 33), i + 33))
    } else {
        None
    }
}

/// An untagged length-prefixed payload, used inside map entries.
pub open spec fn enc_lpraw(p: Seq<u8>) -> Seq<u8>
    recommends
        len_bounded(p),
{
    be4(p.len() as u32) + p
}

pub open spec fn p_lpraw(b: Seq<u8>, i: int) -> Option<(Seq<u8>, int)> {
    if 0 <= i && i + 4 <= b.len() {
        let n = be4_val(b.subrange(i, i + 4)) as int;
        if i + 4 + n <= b.len() {
            Some((b.subrange(i + 4, i + 4 + n), i + 4 + n))
        } else {
            None
        }
    } else {
        None
    }
}

/// An untagged big-endian 32-bit word, used inside map entries and
/// sequences.
pub open spec fn p_raw4(b: Seq<u8>, i: int) -> Option<(u32, int)> {
    if 0 <= i && i + 4 <= b.len() {
        Some((be4_val(b.subrange(i, i + 4)), i + 4))
    } else {
        None
    }
}

/// Splitting a known concatenation: each half is the matching subrange.
pub proof fn lemma_split(b: Seq<u8>, i: int, s1: Seq<u8>, s2: Seq<u8>)
    requires
        0 <= i,
        i + s1.len() + s2.len() <= b.len(),
        b.subrange(i, i + s1.len() + s2.len()) == s1 + s2,
    ensures
        b.subrange(i, i + s1.len()) == s1,
        b.subrange(i + s1.len(), i + s1.len() + s2.len()) == s2,
{
    assert forall|k: int| 0 <= k < s1.len() implies b.subrange(i, i + s1.len())[k] == s1[k] by {
        assert(b.subrange(i, i + s1.len())[k] == b[i + k]);
        assert(b.subrange(i, i + s1.len() + s2.len())[k] == b[i + k]);
        assert((s1 + s2)[k] == s1[k]);
    }
    assert(b.subrange(i, i + s1.len()) =~= s1);
    assert forall|k: int|
        0 <= k < s2.len() implies b.subrange(i + s1.len(), i + s1.len() + s2.len())[k] == s2[k] by {
        assert(b.subrange(i + s1.len(), i + s1.len() + s2.len())[k] == b[i + s1.len() + k]);
        assert(b.subrange(i, i + s1.len() + s2.len())[s1.len() + k] == b[i + s1.len() + k]);
        assert((s1 + s2)[s1.len() + k] == s2[k]);
    }
    assert(b.subrange(i + s1.len(), i + s1.len() + s2.len()) =~= s2);
}

/// The head byte of a known subrange.
pub proof fn lemma_head(b: Seq<u8>, i: int, t: u8)
    requires
        0 <= i,
        i + 1 <= b.len(),
        b.subrange(i, i + 1) == seq![t],
    ensures
        b[i] == t,
{
    assert(b.subrange(i, i + 1)[0] == b[i]);
}

pub proof fn lemma_tag4_prefix(b: Seq<u8>, i: int, tag: u8, x: u32)
    requires
        0 <= i,
        i + 5 <= b.len(),
        b.subrange(i, i + 5) == enc_tag4(tag, x),
    ensures
        p_tag4(b, i, tag) == Some((x, i + 5)),
{
    lemma_be4_roundtrip(x);
    lemma_split(b, i, seq![tag], be4(x));
    lemma_head(b, i, tag);
}

pub proof fn lemma_tag8_prefix(b: Seq<u8>, i: int, tag: u8, x: u64)
    requires
        0 <= i,
        i + 9 <= b.len(),
        b.subrange(i, i + 9) == enc_tag8(tag, x),
    ensures
        p_tag8(b, i, tag) == Some((x, i + 9)),
{
    lemma_be8_roundtrip(x);
    lemma_split(b, i, seq![tag], be8(x));
    lemma_head(b, i, tag);
}

pub proof fn lemma_tag16_prefix(b: Seq<u8>, i: int, tag: u8, x: u128)
    requires
        0 <= i,
        i + 17 <= b.len(),
        b.subrange(i, i + 17) == enc_tag16(tag, x),
    ensures
        p_tag16(b, i, tag) == Some((x, i + 17)),
{
    lemma_be16_roundtrip(x);
    lemma_split(b, i, seq![tag], be16(x));
    lemma_head(b, i, tag);
}

pub proof fn lemma_tag32_prefix(b: Seq<u8>, i: int, tag: u8, w0: u64, w1: u64, w2: u64, w3: u64)
    requires
        0 <= i,
        i + 33 <= b.len(),
        b.subrange(i, i + 33) == enc_tag32(tag, w0, w1, w2, w3),
    ensures
        p_tag32(b, i, tag) == Some(((w0, w1, w2, w3), i + 33)),
{
    lemma_be8_roundtrip(w0);
    lemma_be8_roundtrip(w1);
    lemma_be8_roundtrip(w2);
    lemma_be8_roundtrip(w3);
    assert(enc_tag32(tag, w0, w1, w2, w3) =~= seq![tag] + (be8(w0) + (be8(w1) + (be8(w2) + be8(
        w3,
    )))));
    lemma_split(b, i, seq![tag], be8(w0) + (be8(w1) + (be8(w2) + be8(w3))));
    lemma_head(b, i, tag);
    lemma_split(b, i + 1, be8(w0), be8(w1) + (be8(w2) + be8(w3)));
    lemma_split(b, i + 9, be8(w1), be8(w2) + be8(w3));
    lemma_split(b, i + 17, be8(w2), be8(w3));
}

pub proof fn lemma_lp_prefix(b: Seq<u8>, i: int, tag: u8, p: Seq<u8>)
    requires
        len_bounded(p),
        0 <= i,
        i + enc_lp(tag, p).len() <= b.len(),
        b.subrange(i, i + enc_lp(tag, p).len()) == enc_lp(tag, p),
    ensures
        enc_lp(tag, p).len() == 5 + p.len(),
        p_lp(b, i, tag) == Some((p, i + 5 + p.len())),
{
    lemma_be4_roundtrip(p.len() as u32);
    assert(enc_lp(tag, p) =~= seq![tag] + (be4(p.len() as u32) + p));
    lemma_split(b, i, seq![tag], be4(p.len() as u32) + p);
    lemma_head(b, i, tag);
    lemma_split(b, i + 1, be4(p.len() as u32), p);
}

pub proof fn lemma_fix32_prefix(b: Seq<u8>, i: int, tag: u8, p: Seq<u8>)
    requires
        p.len() == 32,
        0 <= i,
        i + 33 <= b.len(),
        b.subrange(i, i + 33) == enc_fix32(tag, p),
    ensures
        p_fix32(b, i, tag) == Some((p, i + 33)),
{
    lemma_split(b, i, seq![tag], p);
    lemma_head(b, i, tag);
}

pub proof fn lemma_lpraw_prefix(b: Seq<u8>, i: int, p: Seq<u8>)
    requires
        len_bounded(p),
        0 <= i,
        i + enc_lpraw(p).len() <= b.len(),
        b.subrange(i, i + enc_lpraw(p).len()) == enc_lpraw(p),
    ensures
        enc_lpraw(p).len() == 4 + p.len(),
        p_lpraw(b, i) == Some((p, i + 4 + p.len())),
{
    lemma_be4_roundtrip(p.len() as u32);
    lemma_split(b, i, be4(p.len() as u32), p);
}

pub proof fn lemma_raw4_prefix(b: Seq<u8>, i: int, x: u32)
    requires
        0 <= i,
        i + 4 <= b.len(),
        b.subrange(i, i + 4) == be4(x),
    ensures
        p_raw4(b, i) == Some((x, i + 4)),
{
    lemma_be4_roundtrip(x);
}

// ---------------------------------------------------------------------
// Exec helpers shared by the shapes.
// ---------------------------------------------------------------------

/// Appends all bytes of `p`.
fn push_bytes(out: &mut Vec<u8>, p: &Vec<u8>)
    ensures
        final(out)@ == old(out)@ + p@,
{
    let mut k: usize = 0;
    let ghost base = out@;
    while k < p.len()
        invariant
            k <= p@.len(),
            out@ == base + p@.take(k as int),
        decreases p@.len() - k,
    {
        out.push(p[k]);
        assert(out@ =~= base + p@.take(k as int + 1));
        k = k + 1;
    }
    assert(out@ =~= base + p@);
}

/// Appends a tagged length-prefixed payload.
fn emit_lp(out: &mut Vec<u8>, tag: u8, p: &Vec<u8>)
    requires
        len_bounded(p@),
    ensures
        final(out)@ == old(out)@ + enc_lp(tag, p@),
{
    out.push(tag);
    push_be4(out, p.len() as u32);
    push_bytes(out, p);
    assert(out@ =~= old(out)@ + enc_lp(tag, p@));
}

/// Appends a tagged 32-bit word.
fn emit_tag4(out: &mut Vec<u8>, tag: u8, x: u32)
    ensures
        final(out)@ == old(out)@ + enc_tag4(tag, x),
{
    out.push(tag);
    push_be4(out, x);
    assert(out@ =~= old(out)@ + enc_tag4(tag, x));
}

/// Appends a tagged 64-bit word.
fn emit_tag8(out: &mut Vec<u8>, tag: u8, x: u64)
    ensures
        final(out)@ == old(out)@ + enc_tag8(tag, x),
{
    out.push(tag);
    push_be8(out, x);
    assert(out@ =~= old(out)@ + enc_tag8(tag, x));
}

/// Appends a tagged 128-bit word.
fn emit_tag16(out: &mut Vec<u8>, tag: u8, x: u128)
    ensures
        final(out)@ == old(out)@ + enc_tag16(tag, x),
{
    out.push(tag);
    push_be16(out, x);
    assert(out@ =~= old(out)@ + enc_tag16(tag, x));
}

/// Appends a tagged 256-bit value given as four words.
fn emit_tag32(out: &mut Vec<u8>, tag: u8, w0: u64, w1: u64, w2: u64, w3: u64)
    ensures
        final(out)@ == old(out)@ + enc_tag32(tag, w0, w1, w2, w3),
{
    out.push(tag);
    push_be8(out, w0);
    push_be8(out, w1);
    push_be8(out, w2);
    push_be8(out, w3);
    assert(out@ =~= old(out)@ + enc_tag32(tag, w0, w1, w2, w3));
}

/// Parses a tagged 32-bit word.
fn parse_tag4(b: &Vec<u8>, i: usize, tag: u8) -> (r: Option<(u32, usize)>)
    ensures
        r matches Some(p) ==> p_tag4(b@, i as int, tag) == Some((p.0, p.1 as int)) && p.1
            <= b.len(),
        r is None ==> p_tag4(b@, i as int, tag) is None,
{
    let n = b.len();
    if i < n && n - i >= 5 && b[i] == tag {
        let x = read_be4(b, i + 1);
        Some((x, i + 5))
    } else {
        None
    }
}

/// Parses a tagged 64-bit word.
fn parse_tag8(b: &Vec<u8>, i: usize, tag: u8) -> (r: Option<(u64, usize)>)
    ensures
        r matches Some(p) ==> p_tag8(b@, i as int, tag) == Some((p.0, p.1 as int)) && p.1
            <= b.len(),
        r is None ==> p_tag8(b@, i as int, tag) is None,
{
    let n = b.len();
    if i < n && n - i >= 9 && b[i] == tag {
        let x = read_be8(b, i + 1);
        Some((x, i + 9))
    } else {
        None
    }
}

/// Parses a tagged 128-bit word.
fn parse_tag16(b: &Vec<u8>, i: usize, tag: u8) -> (r: Option<(u128, usize)>)
    ensures
        r matches Some(p) ==> p_tag16(b@, i as int, tag) == Some((p.0, p.1 as int)) && p.1
            <= b.len(),
        r is None ==> p_tag16(b@, i as int, tag) is None,
{
    let n = b.len();
    if i < n && n - i >= 17 && b[i] == tag {
        let x = read_be16(b, i + 1);
        Some((x, i + 17))
    } else {
        None
    }
}

/// Parses a tagged 256-bit value into its four words.
fn parse_tag32(b: &Vec<u8>, i: usize, tag: u8) -> (r: Option<((u64, u64, u64, u64), usize)>)
    ensures
        r matches Some(p) ==> p_tag32(b@, i as int, tag) == Some((p.0, p.1 as int)) && p.1
            <= b.len(),
        r is None ==> p_tag32(b@, i as int, tag) is None,
{
    let n = b.len();
    if i < n && n - i >= 33 && b[i] == tag {
        let w0 = read_be8(b, i + 1);
        let w1 = read_be8(b, i + 9);
        let w2 = read_be8(b, i + 17);
        let w3 = read_be8(b, i + 25);
        Some(((w0, w1, w2, w3), i + 33))
    } else {
        None
    }
}

/// Parses a tagged length-prefixed payload.
fn parse_lp(b: &Vec<u8>, i: usize, tag: u8) -> (r: Option<(Vec<u8>, usize)>)
    ensures
        r matches Some(p) ==> p_lp(b@, i as int, tag) == Some((p.0@, p.1 as int)) && p.1
            <= b.len(),
        r is None ==> p_lp(b@, i as int, tag) is None,
{
    let n = b.len();
    if i < n && n - i >= 5 && b[i] == tag {
        let len = read_be4(b, i + 1);
        if (len as usize) <= n - (i + 5) {
            let payload = copy_range(b, i + 5, i + 5 + (len as usize));
            Some((payload, i + 5 + (len as usize)))
        } else {
            None
        }
    } else {
        None
    }
}

/// Parses a tagged fixed 32-byte payload.
fn parse_fix32(b: &Vec<u8>, i: usize, tag: u8) -> (r: Option<(Vec<u8>, usize)>)
    ensures
        r matches Some(p) ==> p_fix32(b@, i as int, tag) == Some((p.0@, p.1 as int)) && p.1
            <= b.len() && p.0@.len() == 32,
        r is None ==> p_fix32(b@, i as int, tag) is None,
{
    let n = b.len();
    if i < n && n - i >= 33 && b[i] == tag {
        let payload = copy_range(b, i + 1, i + 33);
        Some((payload, i + 33))
    } else {
        None
    }
}

/// Parses an untagged length-prefixed payload.
fn parse_lpraw(b: &Vec<u8>, i: usize) -> (r: Option<(Vec<u8>, usize)>)
    ensures
        r matches Some(p) ==> p_lpraw(b@, i as int) == Some((p.0@, p.1 as int)) && p.1 <= b.len(),
        r is None ==> p_lpraw(b@, i as int) is None,
{
    let n = b.len();
    if i <= n && n - i >= 4 {
        let len = read_be4(b, i);
        if (len as usize) <= n - (i + 4) {
            let payload = copy_range(b, i + 4, i + 4 + (len as usize));
            Some((payload, i + 4 + (len as usize)))
        } else {
            None
        }
    } else {
        None
    }
}

/// Parses an untagged 32-bit word.
fn parse_raw4(b: &Vec<u8>, i: usize) -> (r: Option<(u32, usize)>)
    ensures
        r matches Some(p) ==> p_raw4(b@, i as int) == Some((p.0, p.1 as int)) && p.1 <= b.len(),
        r is None ==> p_raw4(b@, i as int) is None,
{
    let n = b.len();
    if i <= n && n - i >= 4 {
        let x = read_be4(b, i);
        Some((x, i + 4))
    } else {
        None
    }
}

// ---------------------------------------------------------------------
// The primitive shapes.
// ---------------------------------------------------------------------

/// A parse is a full decode when it consumes the whole buffer.
pub open spec fn dec_ok<T>(p: Option<(T, int)>, n: int) -> Option<T> {
    match p {
        Some((v, j)) => if j == n {
            Some(v)
        } else {
            None
        },
        None => None,
    }
}

pub open spec fn enc_u32(x: u32) -> Seq<u8> {
    enc_tag4(TAG_U32, x)
}

pub open spec fn p_u32(b: Seq<u8>, i: int) -> Option<(u32, int)> {
    p_tag4(b, i, TAG_U32)
}

pub open spec fn enc_i32(x: i32) -> Seq<u8> {
    enc_tag4(TAG_I32, x as u32)
}

pub open spec fn p_i32(b: Seq<u8>, i: int) -> Option<(i32, int)> {
    match p_tag4(b, i, TAG_I32) {
        Some((x, j)) => Some((x as i32, j)),
        None => None,
    }
}

pub open spec fn enc_u64(x: u64) -> Seq<u8> {
    enc_tag8(TAG_U64, x)
}

pub open spec fn p_u64(b: Seq<u8>, i: int) -> Option<(u64, int)> {
    p_tag8(b, i, TAG_U64)
}

pub open spec fn enc_i64(x: i64) -> Seq<u8> {
    enc_tag8(TAG_I64, x as u64)
}

pub open spec fn p_i64(b: Seq<u8>, i: int) -> Option<(i64, int)> {
    match p_tag8(b, i, TAG_I64) {
        Some((x, j)) => Some((x as i64, j)),
        None => None,
    }
}

pub open spec fn enc_u128(x: u128) -> Seq<u8> {
    enc_tag16(TAG_U128, x)
}

pub open spec fn p_u128(b: Seq<u8>, i: int) -> Option<(u128, int)> {
    p_tag16(b, i, TAG_U128)
}

pub open spec fn enc_i128(x: i128) -> Seq<u8> {
    enc_tag16(TAG_I128, x as u128)
}

pub open spec fn p_i128(b: Seq<u8>, i: int) -> Option<(i128, int)> {
    match p_tag16(b, i, TAG_I128) {
        Some((x, j)) => Some((x as i128, j)),
        None => None,
    }
}

pub open spec fn enc_u256(v: U256) -> Seq<u8> {
    enc_tag32(TAG_U256, v.w0, v.w1, v.w2, v.w3)
}

pub open spec fn p_u256(b: Seq<u8>, i: int) -> Option<(U256, int)> {
    match p_tag32(b, i, TAG_U256) {
        Some((w, j)) => Some((U256 { w0: w.0, w1: w.1, w2: w.2, w3: w.3 }, j)),
        None => None,
    }
}

pub open spec fn enc_i256(v: I256) -> Seq<u8> {
    enc_tag32(TAG_I256, v.w0, v.w1, v.w2, v.w3)
}

pub open spec fn p_i256(b: Seq<u8>, i: int) -> Option<(I256, int)> {
    match p_tag32(b, i, TAG_I256) {
        Some((w, j)) => Some((I256 { w0: w.0, w1: w.1, w2: w.2, w3: w.3 }, j)),
        None => None,
    }
}

pub open spec fn enc_duration(x: u64) -> Seq<u8> {
    enc_tag8(TAG_DURATION, x)
}

pub open spec fn p_duration(b: Seq<u8>, i: int) -> Option<(u64, int)> {
    p_tag8(b, i, TAG_DURATION)
}

pub open spec fn enc_timepoint(x: u64) -> Seq<u8> {
    enc_tag8(TAG_TIMEPOINT, x)
}

pub open spec fn p_timepoint(b: Seq<u8>, i: int) -> Option<(u64, int)> {
    p_tag8(b, i, TAG_TIMEPOINT)
}

pub open spec fn enc_bytes(p: Seq<u8>) -> Seq<u8> {
    enc_lp(TAG_BYTES, p)
}

pub open spec fn p_bytes(b: Seq<u8>, i: int) -> Option<(Seq<u8>, int)> {
    p_lp(b, i, TAG_BYTES)
}

pub open spec fn enc_bytes32(p: Seq<u8>) -> Seq<u8> {
    enc_fix32(TAG_BYTES32, p)
}

pub open spec fn p_bytes32(b: Seq<u8>, i: int) -> Option<(Seq<u8>, int)> {
    p_fix32(b, i, TAG_BYTES32)
}

pub open spec fn enc_text(p: Seq<u8>) -> Seq<u8> {
    enc_lp(TAG_TEXT, p)
}

pub open spec fn p_text(b: Seq<u8>, i: int) -> Option<(Seq<u8>, int)> {
    p_lp(b, i, TAG_TEXT)
}

pub open spec fn enc_symbol(p: Seq<u8>) -> Seq<u8> {
    enc_lp(TAG_SYMBOL, p)
}

pub open spec fn p_symbol(b: Seq<u8>, i: int) -> Option<(Seq<u8>, int)> {
    p_lp(b, i, TAG_SYMBOL)
}

pub open spec fn enc_address(p: Seq<u8>) -> Seq<u8> {
    enc_lp(TAG_ADDRESS, p)
}

pub open spec fn p_address(b: Seq<u8>, i: int) -> Option<(Seq<u8>, int)> {
    p_lp(b, i, TAG_ADDRESS)
}

// ---------------------------------------------------------------------
// Round trips for the primitive shapes: decoding an encoding yields
// the encoded value and consumes it whole.
// ---------------------------------------------------------------------

pub proof fn lemma_roundtrip_u32(x: u32)
    ensures
        p_u32(enc_u32(x), 0) == Some((x, enc_u32(x).len() as int)),
{
    let e = enc_u32(x);
    assert(e.subrange(0, e.len() as int) =~= e);
    lemma_tag4_prefix(e, 0, TAG_U32, x);
}

pub proof fn lemma_roundtrip_i32(x: i32)
    ensures
        p_i32(enc_i32(x), 0) == Some((x, enc_i32(x).len() as int)),
{
    let e = enc_i32(x);
    assert(e.subrange(0, e.len() as int) =~= e);
    lemma_tag4_prefix(e, 0, TAG_I32, x as u32);
    assert(((x as u32) as i32) == x) by (bit_vector);
}

pub proof fn lemma_roundtrip_u64(x: u64)
    ensures
        p_u64(enc_u64(x), 0) == Some((x, enc_u64(x).len() as int)),
{
    let e = enc_u64(x);
    assert(e.subrange(0, e.len() as int) =~= e);
    lemma_tag8_prefix(e, 0, TAG_U64, x);
}

pub proof fn lemma_roundtrip_i64(x: i64)
    ensures
        p_i64(enc_i64(x), 0) == Some((x, enc_i64(x).len() as int)),
{
    let e = enc_i64(x);
    assert(e.subrange(0, e.len() as int) =~= e);
    lemma_tag8_prefix(e, 0, TAG_I64, x as u64);
    assert(((x as u64) as i64) == x) by (bit_vector);
}

pub proof fn lemma_roundtrip_u128(x: u128)
    ensures
        p_u128(enc_u128(x), 0) == Some((x, enc_u128(x).len() as int)),
{
    let e = enc_u128(x);
    assert(e.subrange(0, e.len() as int) =~= e);
    lemma_tag16_prefix(e, 0, TAG_U128, x);
}

pub proof fn lemma_roundtrip_i128(x: i128)
    ensures
        p_i128(enc_i128(x), 0) == Some((x, enc_i128(x).len() as int)),
{
    let e = enc_i128(x);
    assert(e.subrange(0, e.len() as int) =~= e);
    lemma_tag16_prefix(e, 0, TAG_I128, x as u128);
    assert(((x as u128) as i128) == x) by (bit_vector);
}

pub proof fn lemma_roundtrip_u256(v: U256)
    ensures
        p_u256(enc_u256(v), 0) == Some((v, enc_u256(v).len() as int)),
{
    let e = enc_u256(v);
    assert(e.subrange(0, e.len() as int) =~= e);
    lemma_tag32_prefix(e, 0, TAG_U256, v.w0, v.w1, v.w2, v.w3);
}

pub proof fn lemma_roundtrip_i256(v: I256)
    ensures
        p_i256(enc_i256(v), 0) == Some((v, enc_i256(v).len() as int)),
{
    let e = enc_i256(v);
    assert(e.subrange(0, e.len() as int) =~= e);
    lemma_tag32_prefix(e, 0, TAG_I256, v.w0, v.w1, v.w2, v.w3);
}

pub proof fn lemma_roundtrip_duration(x: u64)
    ensures
        p_duration(enc_duration(x), 0) == Some((x, enc_duration(x).len() as int)),
{
    let e = enc_duration(x);
    assert(e.subrange(0, e.len() as int) =~= e);
    lemma_tag8_prefix(e, 0, TAG_DURATION, x);
}

pub proof fn lemma_roundtrip_timepoint(x: u64)
    ensures
        p_timepoint(enc_timepoint(x), 0) == Some((x, enc_timepoint(x).len() as int)),
{
    let e = enc_timepoint(x);
    assert(e.subrange(0, e.len() as int) =~= e);
    lemma_tag8_prefix(e, 0, TAG_TIMEPOINT, x);
}

pub proof fn lemma_roundtrip_bytes(p: Seq<u8>)
    requires
        len_bounded(p),
    ensures
        p_bytes(enc_bytes(p), 0) == Some((p, enc_bytes(p).len() as int)),
{
    let e = enc_bytes(p);
    assert(e.subrange(0, e.len() as int) =~= e);
    lemma_lp_prefix(e, 0, TAG_BYTES, p);
}

pub proof fn lemma_roundtrip_bytes32(p: Seq<u8>)
    requires
        p.len() == 32,
    ensures
        p_bytes32(enc_bytes32(p), 0) == Some((p, enc_bytes32(p).len() as int)),
{
    let e = enc_bytes32(p);
    assert(e.subrange(0, e.len() as int) =~= e);
    lemma_fix32_prefix(e, 0, TAG_BYTES32, p);
}

pub proof fn lemma_roundtrip_text(p: Seq<u8>)
    requires
        len_bounded(p),
    ensures
        p_text(enc_text(p), 0) == Some((p, enc_text(p).len() as int)),
{
    let e = enc_text(p);
    assert(e.subrange(0, e.len() as int) =~= e);
    lemma_lp_prefix(e, 0, TAG_TEXT, p);
}

pub proof fn lemma_roundtrip_symbol(p: Seq<u8>)
    requires
        len_bounded(p),
    ensures
        p_symbol(enc_symbol(p), 0) == Some((p, enc_symbol(p).len() as int)),
{
    let e = enc_symbol(p);
    assert(e.subrange(0, e.len() as int) =~= e);
    lemma_lp_prefix(e, 0, TAG_SYMBOL, p);
}

pub proof fn lemma_roundtrip_address(p: Seq<u8>)
    requires
        len_bounded(p),
    ensures
        p_address(enc_address(p), 0) == Some((p, enc_address(p).len() as int)),
{
    let e = enc_address(p);
    assert(e.subrange(0, e.len() as int) =~= e);
    lemma_lp_prefix(e, 0, TAG_ADDRESS, p);
}

// ---------------------------------------------------------------------
// The composite shapes: sequences, maps, optionals, tagged results,
// records and the nested composites.
// ---------------------------------------------------------------------

pub open spec fn enc_u32s(s: Seq<u32>) -> Seq<u8>
    decreases s.len(),
{
    if s.len() == 0 {
        Seq::empty()
    } else {
        be4(s[0]) + enc_u32s(s.skip(1))
    }
}

pub open spec fn p_u32s(b: Seq<u8>, i: int, n: nat) -> Option<(Seq<u32>, int)>
    decreases n,
{
    if n == 0 {
        if 0 <= i <= b.len() {
            Some((Seq::empty(), i))
        } else {
            None
        }
    } else {
        match p_raw4(b, i) {
            Some((x, j)) => match p_u32s(b, j, (n - 1) as nat) {
                Some((s, j2)) => Some((seq![x] + s, j2)),
                None => None,
            },
            None => None,
        }
    }
}

pub open spec fn enc_vec(s: Seq<u32>) -> Seq<u8>
    recommends
        s.len() < 0x1_0000_0000,
{
    seq![TAG_VEC] + be4(s.len() as u32) + enc_u32s(s)
}

pub open spec fn p_vec(b: Seq<u8>, i: int) -> Option<(Seq<u32>, int)> {
    if 0 <= i && i + 5 <= b.len() && b[i] == TAG_VEC {
        let n = be4_val(b.subrange(i + 1, i + 5));
        p_u32s(b, i + 5, n as nat)
    } else {
        None
    }
}

pub proof fn lemma_enc_u32s_len(s: Seq<u32>)
    ensures
        enc_u32s(s).len() == 4 * s.len(),
    decreases s.len(),
{
    if s.len() > 0 {
        lemma_enc_u32s_len(s.skip(1));
    }
}

pub proof fn lemma_u32s_prefix(b: Seq<u8>, i: int, s: Seq<u32>)
    requires
        0 <= i,
        i + 4 * s.len() <= b.len(),
        b.subrange(i, i + 4 * s.len()) == enc_u32s(s),
    ensures
        p_u32s(b, i, s.len()) == Some((s, i + 4 * s.len())),
    decreases s.len(),
{
    lemma_enc_u32s_len(s);
    if s.len() == 0 {
        assert(s =~= Seq::<u32>::empty());
    } else {
        lemma_enc_u32s_len(s.skip(1));
        lemma_split(b, i, be4(s[0]), enc_u32s(s.skip(1)));
        lemma_raw4_prefix(b, i, s[0]);
        lemma_u32s_prefix(b, i + 4, s.skip(1));
        assert(seq![s[0]] + s.skip(1) =~= s);
    }
}

pub proof fn lemma_vec_prefix(b: Seq<u8>, i: int, s: Seq<u32>)
    requires
        s.len() < 0x1_0000_0000,
        0 <= i,
        i + enc_vec(s).len() <= b.len(),
        b.subrange(i, i + enc_vec(s).len()) == enc_vec(s),
    ensures
        enc_vec(s).len() == 5 + 4 * s.len(),
        p_vec(b, i) == Some((s, i + 5 + 4 * s.len())),
{
    lemma_enc_u32s_len(s);
    lemma_be4_roundtrip(s.len() as u32);
    assert(enc_vec(s) =~= seq![TAG_VEC] + (be4(s.len() as u32) + enc_u32s(s)));
    lemma_split(b, i, seq![TAG_VEC], be4(s.len() as u32) + enc_u32s(s));
    lemma_head(b, i, TAG_VEC);
    lemma_split(b, i + 1, be4(s.len() as u32), enc_u32s(s));
    lemma_u32s_prefix(b, i + 5, s);
}

pub proof fn lemma_roundtrip_vec(s: Seq<u32>)
    requires
        s.len() < 0x1_0000_0000,
    ensures
        p_vec(enc_vec(s), 0) == Some((s, enc_vec(s).len() as int)),
{
    let e = enc_vec(s);
    assert(e.subrange(0, e.len() as int) =~= e);
    lemma_vec_prefix(e, 0, s);
}

pub open spec fn enc_entry(k: Seq<u8>, v: u32) -> Seq<u8>
    recommends
        len_bounded(k),
{
    enc_lpraw(k) + be4(v)
}

pub open spec fn p_entry(b: Seq<u8>, i: int) -> Option<((Seq<u8>, u32), int)> {
    match p_lpraw(b, i) {
        Some((k, j)) => match p_raw4(b, j) {
            Some((v, j2)) => Some(((k, v), j2)),
            None => None,
        },
        None => None,
    }
}

pub open spec fn enc_entries(m: Seq<(Seq<u8>, u32)>) -> Seq<u8>
    decreases m.len(),
{
    if m.len() == 0 {
        Seq::empty()
    } else {
        enc_entry(m[0].0, m[0].1) + enc_entries(m.skip(1))
    }
}

pub open spec fn p_entries(b: Seq<u8>, i: int, n: nat) -> Option<(Seq<(Seq<u8>, u32)>, int)>
    decreases n,
{
    if n == 0 {
        if 0 <= i <= b.len() {
            Some((Seq::empty(), i))
        } else {
            None
        }
    } else {
        match p_entry(b, i) {
            Some((e, j)) => match p_entries(b, j, (n - 1) as nat) {
                Some((m, j2)) => Some((seq![e] + m, j2)),
                None => None,
            },
            None => None,
        }
    }
}

/// The canonical map encoding: count, then entries in key order.
/// Decoding rejects any other order, so a mapping has exactly one
/// accepted byte image.
pub open spec fn enc_map(m: Seq<(Seq<u8>, u32)>) -> Seq<u8>
    recommends
        map_wf(m),
{
    seq![TAG_MAP] + be4(m.len() as u32) + enc_entries(m)
}

pub open spec fn p_map(b: Seq<u8>, i: int) -> Option<(Seq<(Seq<u8>, u32)>, int)> {
    if 0 <= i && i + 5 <= b.len() && b[i] == TAG_MAP {
        let n = be4_val(b.subrange(i + 1, i + 5));
        match p_entries(b, i + 5, n as nat) {
            Some((m, j)) => if map_entries_sorted(m) {
                Some((m, j))
            } else {
                None
            },
            None => None,
        }
    } else {
        None
    }
}

pub proof fn lemma_entry_prefix(b: Seq<u8>, i: int, k: Seq<u8>, v: u32)
    requires
        len_bounded(k),
        0 <= i,
        i + enc_entry(k, v).len() <= b.len(),
        b.subrange(i, i + enc_entry(k, v).len()) == enc_entry(k, v),
    ensures
        enc_entry(k, v).len() == 8 + k.len(),
        p_entry(b, i) == Some(((k, v), i + 8 + k.len())),
{
    lemma_split(b, i, enc_lpraw(k), be4(v));
    lemma_lpraw_prefix(b, i, k);
    lemma_raw4_prefix(b, i + 4 + k.len(), v);
}

pub proof fn lemma_entries_prefix(b: Seq<u8>, i: int, m: Seq<(Seq<u8>, u32)>)
    requires
        forall|t: int| 0 <= t < m.len() ==> len_bounded(#[trigger] m[t].0),
        0 <= i,
        i + enc_entries(m).len() <= b.len(),
        b.subrange(i, i + enc_entries(m).len()) == enc_entries(m),
    ensures
        p_entries(b, i, m.len()) == Some((m, i + enc_entries(m).len())),
    decreases m.len(),
{
    if m.len() == 0 {
        assert(m =~= Seq::<(Seq<u8>, u32)>::empty());
    } else {
        lemma_split(b, i, enc_entry(m[0].0, m[0].1), enc_entries(m.skip(1)));
        lemma_entry_prefix(b, i, m[0].0, m[0].1);
        assert((m[0].0, m[0].1) == m[0]);
        lemma_entries_prefix(b, i + enc_entry(m[0].0, m[0].1).len(), m.skip(1));
        assert(seq![m[0]] + m.skip(1) =~= m);
    }
}

pub proof fn lemma_map_prefix(b: Seq<u8>, i: int, m: Seq<(Seq<u8>, u32)>)
    requires
        map_wf(m),
        0 <= i,
        i + enc_map(m).len() <= b.len(),
        b.subrange(i, i + enc_map(m).len()) == enc_map(m),
    ensures
        enc_map(m).len() == 5 + enc_entries(m).len(),
        p_map(b, i) == Some((m, i + enc_map(m).len())),
{
    lemma_be4_roundtrip(m.len() as u32);
    assert(enc_map(m) =~= seq![TAG_MAP] + (be4(m.len() as u32) + enc_entries(m)));
    lemma_split(b, i, seq![TAG_MAP], be4(m.len() as u32) + enc_entries(m));
    lemma_head(b, i, TAG_MAP);
    lemma_split(b, i + 1, be4(m.len() as u32), enc_entries(m));
    lemma_entries_prefix(b, i + 5, m);
}

/// Equal maps encode identically: the canonical representation is
/// unique, so one mapping has exactly one byte image.
pub proof fn lemma_equal_maps_encode_identically(m1: Seq<(Seq<u8>, u32)>, m2: Seq<(Seq<u8>, u32)>)
    requires
        map_wf(m1),
        map_wf(m2),
        crate::values::map_view(m1) == crate::values::map_view(m2),
    ensures
        enc_map(m1) == enc_map(m2),
{
    crate::values::lemma_canonical_representation(m1, m2);
}

pub proof fn lemma_roundtrip_map(m: Seq<(Seq<u8>, u32)>)
    requires
        map_wf(m),
    ensures
        p_map(enc_map(m), 0) == Some((m, enc_map(m).len() as int)),
{
    let e = enc_map(m);
    assert(e.subrange(0, e.len() as int) =~= e);
    lemma_map_prefix(e, 0, m);
}

pub open spec fn enc_opt_u32(o: Option<u32>) -> Seq<u8> {
    match o {
        None => seq![TAG_OPTION, 0u8],
        Some(x) => seq![TAG_OPTION, 1u8] + enc_u32(x),
    }
}

pub open spec fn p_opt_u32(b: Seq<u8>, i: int) -> Option<(Option<u32>, int)> {
    if 0 <= i && i + 2 <= b.len() && b[i] == TAG_OPTION {
        if b[i + 1] == 0 {
            Some((None, i + 2))
        } else if b[i + 1] == 1 {
            match p_u32(b, i + 2) {
                Some((x, j)) => Some((Some(x), j)),
                None => None,
            }
        } else {
            None
        }
    } else {
        None
    }
}

pub open spec fn enc_opt_addr(o: Option<Seq<u8>>) -> Seq<u8> {
    match o {
        None => seq![TAG_OPTION, 0u8],
        Some(a) => seq![TAG_OPTION, 1u8] + enc_address(a),
    }
}

pub open spec fn p_opt_addr(b: Seq<u8>, i: int) -> Option<(Option<Seq<u8>>, int)> {
    if 0 <= i && i + 2 <= b.len() && b[i] == TAG_OPTION {
        if b[i + 1] == 0 {
            Some((None, i + 2))
        } else if b[i + 1] == 1 {
            match p_address(b, i + 2) {
                Some((a, j)) => Some((Some(a), j)),
                None => None,
            }
        } else {
            None
        }
    } else {
        None
    }
}

pub proof fn lemma_opt_u32_prefix(b: Seq<u8>, i: int, o: Option<u32>)
    requires
        0 <= i,
        i + enc_opt_u32(o).len() <= b.len(),
        b.subrange(i, i + enc_opt_u32(o).len()) == enc_opt_u32(o),
    ensures
        p_opt_u32(b, i) == Some((o, i + enc_opt_u32(o).len())),
{
    match o {
        None => {
            assert(b.subrange(i, i + 2)[0] == b[i]);
            assert(b.subrange(i, i + 2)[1] == b[i + 1]);
        },
        Some(x) => {
            lemma_split(b, i, seq![TAG_OPTION, 1u8], enc_u32(x));
            assert(b.subrange(i, i + 2)[0] == b[i]);
            assert(b.subrange(i, i + 2)[1] == b[i + 1]);
            lemma_tag4_prefix(b, i + 2, TAG_U32, x);
        },
    }
}

pub proof fn lemma_opt_addr_prefix(b: Seq<u8>, i: int, o: Option<Seq<u8>>)
    requires
        o matches Some(a) ==> len_bounded(a),
        0 <= i,
        i + enc_opt_addr(o).len() <= b.len(),
        b.subrange(i, i + enc_opt_addr(o).len()) == enc_opt_addr(o),
    ensures
        p_opt_addr(b, i) == Some((o, i + enc_opt_addr(o).len())),
{
    match o {
        None => {
            assert(b.subrange(i, i + 2)[0] == b[i]);
            assert(b.subrange(i, i + 2)[1] == b[i + 1]);
        },
        Some(a) => {
            lemma_split(b, i, seq![TAG_OPTION, 1u8], enc_address(a));
            assert(b.subrange(i, i + 2)[0] == b[i]);
            assert(b.subrange(i, i + 2)[1] == b[i + 1]);
            lemma_lp_prefix(b, i + 2, TAG_ADDRESS, a);
        },
    }
}

pub open spec fn enc_result(r: Result<u32, ContractError>) -> Seq<u8> {
    match r {
        Ok(x) => seq![TAG_RESULT, 0u8] + enc_u32(x),
        Err(e) => seq![TAG_RESULT, 1u8, error_code(e)],
    }
}

pub open spec fn p_result(b: Seq<u8>, i: int) -> Option<(Result<u32, ContractError>, int)> {
    if 0 <= i && i + 2 <= b.len() && b[i] == TAG_RESULT {
        if b[i + 1] == 0 {
            match p_u32(b, i + 2) {
                Some((x, j)) => Some((Ok(x), j)),
                None => None,
            }
        } else if b[i + 1] == 1 {
            if i + 3 <= b.len() {
                match error_of_code(b[i + 2]) {
                    Some(e) => Some((Err(e), i + 3)),
                    None => None,
                }
            } else {
                None
            }
        } else {
            None
        }
    } else {
        None
    }
}

pub proof fn lemma_result_prefix(b: Seq<u8>, i: int, r: Result<u32, ContractError>)
    requires
        0 <= i,
        i + enc_result(r).len() <= b.len(),
        b.subrange(i, i + enc_result(r).len()) == enc_result(r),
    ensures
        p_result(b, i) == Some((r, i + enc_result(r).len())),
{
    match r {
        Ok(x) => {
            lemma_split(b, i, seq![TAG_RESULT, 0u8], enc_u32(x));
            assert(b.subrange(i, i + 2)[0] == b[i]);
            assert(b.subrange(i, i + 2)[1] == b[i + 1]);
            lemma_tag4_prefix(b, i + 2, TAG_U32, x);
        },
        Err(e) => {
            assert(b.subrange(i, i + 3)[0] == b[i]);
            assert(b.subrange(i, i + 3)[1] == b[i + 1]);
            assert(b.subrange(i, i + 3)[2] == b[i + 2]);
            assert(error_of_code(error_code(e)) == Some(e));
        },
    }
}

pub open spec fn enc_data(d: DataV) -> Seq<u8>
    recommends
        data_wf(d),
{
    seq![TAG_DATA] + enc_address(d.admin) + enc_u32(d.counter) + enc_text(d.message)
}

pub open spec fn p_data(b: Seq<u8>, i: int) -> Option<(DataV, int)> {
    if 0 <= i && i < b.len() && b[i] == TAG_DATA {
        match p_address(b, i + 1) {
            Some((a, j)) => match p_u32(b, j) {
                Some((c, j2)) => match p_text(b, j2) {
                    Some((msg, j3)) => Some((DataV { admin: a, counter: c, message: msg }, j3)),
                    None => None,
                },
                None => None,
            },
            None => None,
        }
    } else {
        None
    }
}

pub proof fn lemma_data_prefix(b: Seq<u8>, i: int, d: DataV)
    requires
        data_wf(d),
        0 <= i,
        i + enc_data(d).len() <= b.len(),
        b.subrange(i, i + enc_data(d).len()) == enc_data(d),
    ensures
        enc_data(d).len() == 16 + d.admin.len() + d.message.len(),
        p_data(b, i) == Some((d, i + enc_data(d).len())),
{
    let e1 = enc_address(d.admin);
    let e2 = enc_u32(d.counter);
    let e3 = enc_text(d.message);
    assert(enc_data(d) =~= seq![TAG_DATA] + (e1 + (e2 + e3)));
    lemma_split(b, i, seq![TAG_DATA], e1 + (e2 + e3));
    lemma_head(b, i, TAG_DATA);
    lemma_split(b, i + 1, e1, e2 + e3);
    lemma_lp_prefix(b, i + 1, TAG_ADDRESS, d.admin);
    lemma_split(b, i + 1 + e1.len(), e2, e3);
    lemma_tag4_prefix(b, i + 1 + e1.len(), TAG_U32, d.counter);
    lemma_lp_prefix(b, i + 1 + e1.len() + e2.len(), TAG_TEXT, d.message);
    assert(DataV { admin: d.admin, counter: d.counter, message: d.message } =~= d);
}

pub proof fn lemma_roundtrip_data(d: DataV)
    requires
        data_wf(d),
    ensures
        p_data(enc_data(d), 0) == Some((d, enc_data(d).len() as int)),
{
    let e = enc_data(d);
    assert(e.subrange(0, e.len() as int) =~= e);
    lemma_data_prefix(e, 0, d);
}

pub open spec fn enc_optional(o: OptionalDataV) -> Seq<u8>
    recommends
        optional_wf(o),
{
    seq![TAG_OPTIONAL] + enc_opt_u32(o.maybe_u32) + enc_opt_addr(o.maybe_address)
}

pub open spec fn p_optional(b: Seq<u8>, i: int) -> Option<(OptionalDataV, int)> {
    if 0 <= i && i < b.len() && b[i] == TAG_OPTIONAL {
        match p_opt_u32(b, i + 1) {
            Some((mu, j)) => match p_opt_addr(b, j) {
                Some((ma, j2)) => Some(
                    (OptionalDataV { maybe_u32: mu, maybe_address: ma }, j2),
                ),
                None => None,
            },
            None => None,
        }
    } else {
        None
    }
}

pub proof fn lemma_optional_prefix(b: Seq<u8>, i: int, o: OptionalDataV)
    requires
        optional_wf(o),
        0 <= i,
        i + enc_optional(o).len() <= b.len(),
        b.subrange(i, i + enc_optional(o).len()) == enc_optional(o),
    ensures
        p_optional(b, i) == Some((o, i + enc_optional(o).len())),
{
    let e1 = enc_opt_u32(o.maybe_u32);
    let e2 = enc_opt_addr(o.maybe_address);
    assert(enc_optional(o) =~= seq![TAG_OPTIONAL] + (e1 + e2));
    lemma_split(b, i, seq![TAG_OPTIONAL], e1 + e2);
    lemma_head(b, i, TAG_OPTIONAL);
    lemma_split(b, i + 1, e1, e2);
    lemma_opt_u32_prefix(b, i + 1, o.maybe_u32);
    lemma_opt_addr_prefix(b, i + 1 + e1.len(), o.maybe_address);
    assert(OptionalDataV { maybe_u32: o.maybe_u32, maybe_address: o.maybe_address } =~= o);
}

pub proof fn lemma_roundtrip_optional(o: OptionalDataV)
    requires
        optional_wf(o),
    ensures
        p_optional(enc_optional(o), 0) == Some((o, enc_optional(o).len() as int)),
{
    let e = enc_optional(o);
    assert(e.subrange(0, e.len() as int) =~= e);
    lemma_optional_prefix(e, 0, o);
}

pub open spec fn enc_complex(c: ComplexDataV) -> Seq<u8>
    recommends
        complex_wf(c),
{
    seq![TAG_COMPLEX] + enc_address(c.admin) + enc_data(c.data) + enc_bytes(c.bytes) + enc_bytes32(
        c.bytes_n,
    ) + enc_duration(c.duration) + enc_timepoint(c.timepoint) + enc_map(c.map) + enc_vec(c.vec)
        + enc_symbol(c.symbol)
}

pub open spec fn p_complex(b: Seq<u8>, i: int) -> Option<(ComplexDataV, int)> {
    if 0 <= i && i < b.len() && b[i] == TAG_COMPLEX {
        match p_address(b, i + 1) {
            Some((admin, j1)) => match p_data(b, j1) {
                Some((data, j2)) => match p_bytes(b, j2) {
                    Some((bs, j3)) => match p_bytes32(b, j3) {
                        Some((bn, j4)) => match p_duration(b, j4) {
                            Some((du, j5)) => match p_timepoint(b, j5) {
                                Some((tp, j6)) => match p_map(b, j6) {
                                    Some((mp, j7)) => match p_vec(b, j7) {
                                        Some((vc, j8)) => match p_symbol(b, j8) {
                                            Some((sy, j9)) => Some(
                                                (
                                                    ComplexDataV {
                                                        admin,
                                                        data,
                                                        bytes: bs,
                                                        bytes_n: bn,
                                                        duration: du,
                                                        timepoint: tp,
                                                        map: mp,
                                                        vec: vc,
                                                        symbol: sy,
                                                    },
                                                    j9,
                                                ),
                                            ),
                                            None => None,
                                        },
                                        None => None,
                                    },
                                    None => None,
                                },
                                None => None,
                            },
                            None => None,
                        },
                        None => None,
                    },
                    None => None,
                },
                None => None,
            },
            None => None,
        }
    } else {
        None
    }
}

#[verifier::rlimit(100)]
#[verifier::spinoff_prover]
pub proof fn lemma_complex_prefix(b: Seq<u8>, i: int, c: ComplexDataV)
    requires
        complex_wf(c),
        0 <= i,
        i + enc_complex(c).len() <= b.len(),
        b.subrange(i, i + enc_complex(c).len()) == enc_complex(c),
    ensures
        p_complex(b, i) == Some((c, i + enc_complex(c).len())),
{
    let e1 = enc_address(c.admin);
    let e2 = enc_data(c.data);
    let e3 = enc_bytes(c.bytes);
    let e4 = enc_bytes32(c.bytes_n);
    let e5 = enc_duration(c.duration);
    let e6 = enc_timepoint(c.timepoint);
    let e7 = enc_map(c.map);
    let e8 = enc_vec(c.vec);
    let e9 = enc_symbol(c.symbol);
    assert(enc_complex(c) =~= seq![TAG_COMPLEX] + (e1 + (e2 + (e3 + (e4 + (e5 + (e6 + (e7 + (e8
        + e9)))))))));
    lemma_split(b, i, seq![TAG_COMPLEX], e1 + (e2 + (e3 + (e4 + (e5 + (e6 + (e7 + (e8 + e9))))))));
    lemma_head(b, i, TAG_COMPLEX);
    let i1 = i + 1;
    lemma_split(b, i1, e1, e2 + (e3 + (e4 + (e5 + (e6 + (e7 + (e8 + e9)))))));
    lemma_lp_prefix(b, i1, TAG_ADDRESS, c.admin);
    let i2 = i1 + e1.len();
    lemma_split(b, i2, e2, e3 + (e4 + (e5 + (e6 + (e7 + (e8 + e9))))));
    lemma_data_prefix(b, i2, c.data);
    let i3 = i2 + e2.len();
    lemma_split(b, i3, e3, e4 + (e5 + (e6 + (e7 + (e8 + e9)))));
    lemma_lp_prefix(b, i3, TAG_BYTES, c.bytes);
    let i4 = i3 + e3.len();
    lemma_split(b, i4, e4, e5 + (e6 + (e7 + (e8 + e9))));
    lemma_fix32_prefix(b, i4, TAG_BYTES32, c.bytes_n);
    let i5 = i4 + e4.len();
    lemma_split(b, i5, e5, e6 + (e7 + (e8 + e9)));
    lemma_tag8_prefix(b, i5, TAG_DURATION, c.duration);
    let i6 = i5 + e5.len();
    lemma_split(b, i6, e6, e7 + (e8 + e9));
    lemma_tag8_prefix(b, i6, TAG_TIMEPOINT, c.timepoint);
    let i7 = i6 + e6.len();
    lemma_split(b, i7, e7, e8 + e9);
    lemma_map_prefix(b, i7, c.map);
    let i8 = i7 + e7.len();
    lemma_split(b, i8, e8, e9);
    lemma_vec_prefix(b, i8, c.vec);
    let i9 = i8 + e8.len();
    lemma_lp_prefix(b, i9, TAG_SYMBOL, c.symbol);
    assert(ComplexDataV {
        admin: c.admin,
        data: c.data,
        bytes: c.bytes,
        bytes_n: c.bytes_n,
        duration: c.duration,
        timepoint: c.timepoint,
        map: c.map,
        vec: c.vec,
        symbol: c.symbol,
    } =~= c);
}

#[verifier::rlimit(100)]
#[verifier::spinoff_prover]
pub proof fn lemma_roundtrip_complex(c: ComplexDataV)
    requires
        complex_wf(c),
    ensures
        p_complex(enc_complex(c), 0) == Some((c, enc_complex(c).len() as int)),
{
    let e = enc_complex(c);
    assert(e.subrange(0, e.len() as int) =~= e);
    lemma_complex_prefix(e, 0, c);
}

pub open spec fn enc_deep(d: DeepData2V) -> Seq<u8>
    recommends
        deep_wf(d),
{
    seq![TAG_DEEP] + enc_address(d.admin) + enc_data(d.data) + enc_complex(d.complex)
}

pub open spec fn p_deep(b: Seq<u8>, i: int) -> Option<(DeepData2V, int)> {
    if 0 <= i && i < b.len() && b[i] == TAG_DEEP {
        match p_address(b, i + 1) {
            Some((admin, j1)) => match p_data(b, j1) {
                Some((data, j2)) => match p_complex(b, j2) {
                    Some((cx, j3)) => Some((DeepData2V { admin, data, complex: cx }, j3)),
                    None => None,
                },
                None => None,
            },
            None => None,
        }
    } else {
        None
    }
}

#[verifier::rlimit(100)]
#[verifier::spinoff_prover]
pub proof fn lemma_deep_prefix(b: Seq<u8>, i: int, d: DeepData2V)
    requires
        deep_wf(d),
        0 <= i,
        i + enc_deep(d).len() <= b.len(),
        b.subrange(i, i + enc_deep(d).len()) == enc_deep(d),
    ensures
        p_deep(b, i) == Some((d, i + enc_deep(d).len())),
{
    let e1 = enc_address(d.admin);
    let e2 = enc_data(d.data);
    let e3 = enc_complex(d.complex);
    assert(enc_deep(d) =~= seq![TAG_DEEP] + (e1 + (e2 + e3)));
    lemma_split(b, i, seq![TAG_DEEP], e1 + (e2 + e3));
    lemma_head(b, i, TAG_DEEP);
    lemma_split(b, i + 1, e1, e2 + e3);
    lemma_lp_prefix(b, i + 1, TAG_ADDRESS, d.admin);
    lemma_split(b, i + 1 + e1.len(), e2, e3);
    lemma_data_prefix(b, i + 1 + e1.len(), d.data);
    lemma_complex_prefix(b, i + 1 + e1.len() + e2.len(), d.complex);
    assert(DeepData2V { admin: d.admin, data: d.data, complex: d.complex } =~= d);
}

#[verifier::rlimit(100)]
#[verifier::spinoff_prover]
pub proof fn lemma_roundtrip_deep(d: DeepData2V)
    requires
        deep_wf(d),
    ensures
        p_deep(enc_deep(d), 0) == Some((d, enc_deep(d).len() as int)),
{
    let e = enc_deep(d);
    assert(e.subrange(0, e.len() as int) =~= e);
    lemma_deep_prefix(e, 0, d);
}

pub proof fn lemma_roundtrip_opt_u32(o: Option<u32>)
    ensures
        p_opt_u32(enc_opt_u32(o), 0) == Some((o, enc_opt_u32(o).len() as int)),
{
    let e = enc_opt_u32(o);
    assert(e.subrange(0, e.len() as int) =~= e);
    lemma_opt_u32_prefix(e, 0, o);
}

pub proof fn lemma_roundtrip_opt_addr(o: Option<Seq<u8>>)
    requires
        o matches Some(a) ==> len_bounded(a),
    ensures
        p_opt_addr(enc_opt_addr(o), 0) == Some((o, enc_opt_addr(o).len() as int)),
{
    let e = enc_opt_addr(o);
    assert(e.subrange(0, e.len() as int) =~= e);
    lemma_opt_addr_prefix(e, 0, o);
}

pub proof fn lemma_roundtrip_result(r: Result<u32, ContractError>)
    ensures
        p_result(enc_result(r), 0) == Some((r, enc_result(r).len() as int)),
{
    let e = enc_result(r);
    assert(e.subrange(0, e.len() as int) =~= e);
    lemma_result_prefix(e, 0, r);
}

// ---------------------------------------------------------------------
// Executable encode and decode for the primitive shapes.
// ---------------------------------------------------------------------

/// Encodes a value of the `u32` shape.
pub fn encode_u32(x: u32) -> (out: Vec<u8>)
    ensures
        out@ == enc_u32(x),
{
    let mut out: Vec<u8> = Vec::new();
    emit_tag4(&mut out, TAG_U32, x);
    proof {
        assert(out@ =~= enc_u32(x));
    }
    out
}

/// Decodes a value of the `u32` shape from a whole buffer.
pub fn decode_u32(b: &Vec<u8>) -> (r: Result<u32, CodecError>)
    ensures
        dec_ok(p_u32(b@, 0), b@.len() as int) matches Some(v) ==> r == Ok::<u32, CodecError>(v),
        r matches Ok(v) ==> dec_ok(p_u32(b@, 0), b@.len() as int) == Some(v),
        r matches Err(e) ==> dec_ok(p_u32(b@, 0), b@.len() as int) is None && ((e
            == CodecError::TypeMismatch) <==> (b@.len() > 0 && b@[0] != TAG_U32)),
{
    let n = b.len();
    if n > 0 && b[0] != TAG_U32 {
        return Err(CodecError::TypeMismatch);
    }
    match parse_tag4(b, 0, TAG_U32) {
        Some((v, j)) => if j == n {
            Ok(v)
        } else {
            Err(CodecError::Decode)
        },
        None => Err(CodecError::Decode),
    }
}

/// Encodes a value of the `i32` shape.
pub fn encode_i32(x: i32) -> (out: Vec<u8>)
    ensures
        out@ == enc_i32(x),
{
    let mut out: Vec<u8> = Vec::new();
    emit_tag4(&mut out, TAG_I32, #[verifier::truncate] (x as u32));
    proof {
        assert(out@ =~= enc_i32(x));
    }
    out
}

/// Decodes a value of the `i32` shape from a whole buffer.
pub fn decode_i32(b: &Vec<u8>) -> (r: Result<i32, CodecError>)
    ensures
        dec_ok(p_i32(b@, 0), b@.len() as int) matches Some(v) ==> r == Ok::<i32, CodecError>(v),
        r matches Ok(v) ==> dec_ok(p_i32(b@, 0), b@.len() as int) == Some(v),
        r matches Err(e) ==> dec_ok(p_i32(b@, 0), b@.len() as int) is None && ((e
            == CodecError::TypeMismatch) <==> (b@.len() > 0 && b@[0] != TAG_I32)),
{
    let n = b.len();
    if n > 0 && b[0] != TAG_I32 {
        return Err(CodecError::TypeMismatch);
    }
    match parse_tag4(b, 0, TAG_I32) {
        Some((v, j)) => if j == n {
            Ok(#[verifier::truncate] (v as i32))
        } else {
            Err(CodecError::Decode)
        },
        None => Err(CodecError::Decode),
    }
}

/// Encodes a value of the `u64` shape.
pub fn encode_u64(x: u64) -> (out: Vec<u8>)
    ensures
        out@ == enc_u64(x),
{
    let mut out: Vec<u8> = Vec::new();
    emit_tag8(&mut out, TAG_U64, x);
    proof {
        assert(out@ =~= enc_u64(x));
    }
    out
}

/// Decodes a value of the `u64` shape from a whole buffer.
pub fn decode_u64(b: &Vec<u8>) -> (r: Result<u64, CodecError>)
    ensures
        dec_ok(p_u64(b@, 0), b@.len() as int) matches Some(v) ==> r == Ok::<u64, CodecError>(v),
        r matches Ok(v) ==> dec_ok(p_u64(b@, 0), b@.len() as int) == Some(v),
        r matches Err(e) ==> dec_ok(p_u64(b@, 0), b@.len() as int) is None && ((e
            == CodecError::TypeMismatch) <==> (b@.len() > 0 && b@[0] != TAG_U64)),
{
    let n = b.len();
    if n > 0 && b[0] != TAG_U64 {
        return Err(CodecError::TypeMismatch);
    }
    match parse_tag8(b, 0, TAG_U64) {
        Some((v, j)) => if j == n {
            Ok(v)
        } else {
            Err(CodecError::Decode)
        },
        None => Err(CodecError::Decode),
    }
}

/// Encodes a value of the `i64` shape.
pub fn encode_i64(x: i64) -> (out: Vec<u8>)
    ensures
        out@ == enc_i64(x),
{
    let mut out: Vec<u8> = Vec::new();
    emit_tag8(&mut out, TAG_I64, #[verifier::truncate] (x as u64));
    proof {
        assert(out@ =~= enc_i64(x));
    }
    out
}

/// Decodes a value of the `i64` shape from a whole buffer.
pub fn decode_i64(b: &Vec<u8>) -> (r: Result<i64, CodecError>)
    ensures
        dec_ok(p_i64(b@, 0), b@.len() as int) matches Some(v) ==> r == Ok::<i64, CodecError>(v),
        r matches Ok(v) ==> dec_ok(p_i64(b@, 0), b@.len() as int) == Some(v),
        r matches Err(e) ==> dec_ok(p_i64(b@, 0), b@.len() as int) is None && ((e
            == CodecError::TypeMismatch) <==> (b@.len() > 0 && b@[0] != TAG_I64)),
{
    let n = b.len();
    if n > 0 && b[0] != TAG_I64 {
        return Err(CodecError::TypeMismatch);
    }
    match parse_tag8(b, 0, TAG_I64) {
        Some((v, j)) => if j == n {
            Ok(#[verifier::truncate] (v as i64))
        } else {
            Err(CodecError::Decode)
        },
        None => Err(CodecError::Decode),
    }
}

/// Encodes a value of the `u128` shape.
pub fn encode_u128(x: u128) -> (out: Vec<u8>)
    ensures
        out@ == enc_u128(x),
{
    let mut out: Vec<u8> = Vec::new();
    emit_tag16(&mut out, TAG_U128, x);
    proof {
        assert(out@ =~= enc_u128(x));
    }
    out
}

/// Decodes a value of the `u128` shape from a whole buffer.
pub fn decode_u128(b: &Vec<u8>) -> (r: Result<u128, CodecError>)
    ensures
        dec_ok(p_u128(b@, 0), b@.len() as int) matches Some(v) ==> r == Ok::<u128, CodecError>(v),
        r matches Ok(v) ==> dec_ok(p_u128(b@, 0), b@.len() as int) == Some(v),
        r matches Err(e) ==> dec_ok(p_u128(b@, 0), b@.len() as int) is None && ((e
            == CodecError::TypeMismatch) <==> (b@.len() > 0 && b@[0] != TAG_U128)),
{
    let n = b.len();
    if n > 0 && b[0] != TAG_U128 {
        return Err(CodecError::TypeMismatch);
    }
    match parse_tag16(b, 0, TAG_U128) {
        Some((v, j)) => if j == n {
            Ok(v)
        } else {
            Err(CodecError::Decode)
        },
        None => Err(CodecError::Decode),
    }
}

/// Encodes a value of the `i128` shape.
pub fn encode_i128(x: i128) -> (out: Vec<u8>)
    ensures
        out@ == enc_i128(x),
{
    let mut out: Vec<u8> = Vec::new();
    emit_tag16(&mut out, TAG_I128, #[verifier::truncate] (x as u128));
    proof {
        assert(out@ =~= enc_i128(x));
    }
    out
}

/// Decodes a value of the `i128` shape from a whole buffer.
pub fn decode_i128(b: &Vec<u8>) -> (r: Result<i128, CodecError>)
    ensures
        dec_ok(p_i128(b@, 0), b@.len() as int) matches Some(v) ==> r == Ok::<i128, CodecError>(v),
        r matches Ok(v) ==> dec_ok(p_i128(b@, 0), b@.len() as int) == Some(v),
        r matches Err(e) ==> dec_ok(p_i128(b@, 0), b@.len() as int) is None && ((e
            == CodecError::TypeMismatch) <==> (b@.len() > 0 && b@[0] != TAG_I128)),
{
    let n = b.len();
    if n > 0 && b[0] != TAG_I128 {
        return Err(CodecError::TypeMismatch);
    }
    match parse_tag16(b, 0, TAG_I128) {
        Some((v, j)) => if j == n {
            Ok(#[verifier::truncate] (v as i128))
        } else {
            Err(CodecError::Decode)
        },
        None => Err(CodecError::Decode),
    }
}

/// Encodes a value of the `u256` shape.
pub fn encode_u256(v: &U256) -> (out: Vec<u8>)
    ensures
        out@ == enc_u256(*v),
{
    let mut out: Vec<u8> = Vec::new();
    emit_tag32(&mut out, TAG_U256, v.w0, v.w1, v.w2, v.w3);
    proof {
        assert(out@ =~= enc_u256(*v));
    }
    out
}

/// Decodes a value of the `u256` shape from a whole buffer.
pub fn decode_u256(b: &Vec<u8>) -> (r: Result<U256, CodecError>)
    ensures
        dec_ok(p_u256(b@, 0), b@.len() as int) matches Some(v) ==> r == Ok::<U256, CodecError>(v),
        r matches Ok(v) ==> dec_ok(p_u256(b@, 0), b@.len() as int) == Some(v),
        r matches Err(e) ==> dec_ok(p_u256(b@, 0), b@.len() as int) is None && ((e
            == CodecError::TypeMismatch) <==> (b@.len() > 0 && b@[0] != TAG_U256)),
{
    let n = b.len();
    if n > 0 && b[0] != TAG_U256 {
        return Err(CodecError::TypeMismatch);
    }
    match parse_tag32(b, 0, TAG_U256) {
        Some((v, j)) => if j == n {
            Ok(U256 { w0: v.0, w1: v.1, w2: v.2, w3: v.3 })
        } else {
            Err(CodecError::Decode)
        },
        None => Err(CodecError::Decode),
    }
}

/// Encodes a value of the `i256` shape.
pub fn encode_i256(v: &I256) -> (out: Vec<u8>)
    ensures
        out@ == enc_i256(*v),
{
    let mut out: Vec<u8> = Vec::new();
    emit_tag32(&mut out, TAG_I256, v.w0, v.w1, v.w2, v.w3);
    proof {
        assert(out@ =~= enc_i256(*v));
    }
    out
}

/// Decodes a value of the `i256` shape from a whole buffer.
pub fn decode_i256(b: &Vec<u8>) -> (r: Result<I256, CodecError>)
    ensures
        dec_ok(p_i256(b@, 0), b@.len() as int) matches Some(v) ==> r == Ok::<I256, CodecError>(v),
        r matches Ok(v) ==> dec_ok(p_i256(b@, 0), b@.len() as int) == Some(v),
        r matches Err(e) ==> dec_ok(p_i256(b@, 0), b@.len() as int) is None && ((e
            == CodecError::TypeMismatch) <==> (b@.len() > 0 && b@[0] != TAG_I256)),
{
    let n = b.len();
    if n > 0 && b[0] != TAG_I256 {
        return Err(CodecError::TypeMismatch);
    }
    match parse_tag32(b, 0, TAG_I256) {
        Some((v, j)) => if j == n {
            Ok(I256 { w0: v.0, w1: v.1, w2: v.2, w3: v.3 })
        } else {
            Err(CodecError::Decode)
        },
        None => Err(CodecError::Decode),
    }
}

/// Encodes a value of the `duration` shape.
pub fn encode_duration(v: &Duration) -> (out: Vec<u8>)
    ensures
        out@ == enc_duration(v.secs),
{
    let mut out: Vec<u8> = Vec::new();
    emit_tag8(&mut out, TAG_DURATION, v.secs);
    proof {
        assert(out@ =~= enc_duration(v.secs));
    }
    out
}

/// Decodes a value of the `duration` shape from a whole buffer.
pub fn decode_duration(b: &Vec<u8>) -> (r: Result<Duration, CodecError>)
    ensures
        dec_ok(p_duration(b@, 0), b@.len() as int) matches Some(v) ==> r matches Ok(d) && d.secs == v,
        r matches Ok(d) ==> dec_ok(p_duration(b@, 0), b@.len() as int) == Some(d.secs),
        r matches Err(e) ==> dec_ok(p_duration(b@, 0), b@.len() as int) is None && ((e
            == CodecError::TypeMismatch) <==> (b@.len() > 0 && b@[0] != TAG_DURATION)),
{
    let n = b.len();
    if n > 0 && b[0] != TAG_DURATION {
        return Err(CodecError::TypeMismatch);
    }
    match parse_tag8(b, 0, TAG_DURATION) {
        Some((v, j)) => if j == n {
            Ok(Duration { secs: v })
        } else {
            Err(CodecError::Decode)
        },
        None => Err(CodecError::Decode),
    }
}

/// Encodes a value of the `timepoint` shape.
pub fn encode_timepoint(v: &Timepoint) -> (out: Vec<u8>)
    ensures
        out@ == enc_timepoint(v.secs),
{
    let mut out: Vec<u8> = Vec::new();
    emit_tag8(&mut out, TAG_TIMEPOINT, v.secs);
    proof {
        assert(out@ =~= enc_timepoint(v.secs));
    }
    out
}

/// Decodes a value of the `timepoint` shape from a whole buffer.
pub fn decode_timepoint(b: &Vec<u8>) -> (r: Result<Timepoint, CodecError>)
    ensures
        dec_ok(p_timepoint(b@, 0), b@.len() as int) matches Some(v) ==> r matches Ok(d) && d.secs == v,
        r matches Ok(d) ==> dec_ok(p_timepoint(b@, 0), b@.len() as int) == Some(d.secs),
        r matches Err(e) ==> dec_ok(p_timepoint(b@, 0), b@.len() as int) is None && ((e
            == CodecError::TypeMismatch) <==> (b@.len() > 0 && b@[0] != TAG_TIMEPOINT)),
{
    let n = b.len();
    if n > 0 && b[0] != TAG_TIMEPOINT {
        return Err(CodecError::TypeMismatch);
    }
    match parse_tag8(b, 0, TAG_TIMEPOINT) {
        Some((v, j)) => if j == n {
            Ok(Timepoint { secs: v })
        } else {
            Err(CodecError::Decode)
        },
        None => Err(CodecError::Decode),
    }
}

/// Encodes a value of the `bytes` shape.
pub fn encode_bytes(p: &Vec<u8>) -> (out: Vec<u8>)
    requires
        len_bounded(p@),
    ensures
        out@ == enc_bytes(p@),
{
    let mut out: Vec<u8> = Vec::new();
    emit_lp(&mut out, TAG_BYTES, p);
    proof {
        assert(out@ =~= enc_bytes(p@));
    }
    out
}

/// Decodes a value of the `bytes` shape from a whole buffer.
pub fn decode_bytes(b: &Vec<u8>) -> (r: Result<Vec<u8>, CodecError>)
    ensures
        dec_ok(p_bytes(b@, 0), b@.len() as int) matches Some(v) ==> r matches Ok(w) && w@ == v,
        r matches Ok(w) ==> dec_ok(p_bytes(b@, 0), b@.len() as int) == Some(w@),
        r matches Err(e) ==> dec_ok(p_bytes(b@, 0), b@.len() as int) is None && ((e
            == CodecError::TypeMismatch) <==> (b@.len() > 0 && b@[0] != TAG_BYTES)),
{
    let n = b.len();
    if n > 0 && b[0] != TAG_BYTES {
        return Err(CodecError::TypeMismatch);
    }
    match parse_lp(b, 0, TAG_BYTES) {
        Some((v, j)) => if j == n {
            Ok(v)
        } else {
            Err(CodecError::Decode)
        },
        None => Err(CodecError::Decode),
    }
}

/// Encodes a value of the `bytes32` shape.
pub fn encode_bytes32(p: &Bytes32) -> (out: Vec<u8>)
    requires
        bytes32_wf(p@),
    ensures
        out@ == enc_bytes32(p@),
{
    let mut out: Vec<u8> = Vec::new();
    out.push(TAG_BYTES32);
    push_bytes(&mut out, &p.bytes);
    proof {
        assert(out@ =~= enc_bytes32(p@));
    }
    out
}

/// Decodes a value of the `bytes32` shape from a whole buffer.
pub fn decode_bytes32(b: &Vec<u8>) -> (r: Result<Bytes32, CodecError>)
    ensures
        dec_ok(p_bytes32(b@, 0), b@.len() as int) matches Some(v) ==> r matches Ok(w) && w@ == v,
        r matches Ok(w) ==> dec_ok(p_bytes32(b@, 0), b@.len() as int) == Some(w@),
        r matches Err(e) ==> dec_ok(p_bytes32(b@, 0), b@.len() as int) is None && ((e
            == CodecError::TypeMismatch) <==> (b@.len() > 0 && b@[0] != TAG_BYTES32)),
{
    let n = b.len();
    if n > 0 && b[0] != TAG_BYTES32 {
        return Err(CodecError::TypeMismatch);
    }
    match parse_fix32(b, 0, TAG_BYTES32) {
        Some((v, j)) => if j == n {
            Ok(Bytes32 { bytes: v })
        } else {
            Err(CodecError::Decode)
        },
        None => Err(CodecError::Decode),
    }
}

/// Encodes a value of the `text` shape.
pub fn encode_text(p: &Text) -> (out: Vec<u8>)
    requires
        len_bounded(p@),
    ensures
        out@ == enc_text(p@),
{
    let mut out: Vec<u8> = Vec::new();
    emit_lp(&mut out, TAG_TEXT, &p.bytes);
    proof {
        assert(out@ =~= enc_text(p@));
    }
    out
}

/// Decodes a value of the `text` shape from a whole buffer.
pub fn decode_text(b: &Vec<u8>) -> (r: Result<Text, CodecError>)
    ensures
        dec_ok(p_text(b@, 0), b@.len() as int) matches Some(v) ==> r matches Ok(w) && w@ == v,
        r matches Ok(w) ==> dec_ok(p_text(b@, 0), b@.len() as int) == Some(w@),
        r matches Err(e) ==> dec_ok(p_text(b@, 0), b@.len() as int) is None && ((e
            == CodecError::TypeMismatch) <==> (b@.len() > 0 && b@[0] != TAG_TEXT)),
{
    let n = b.len();
    if n > 0 && b[0] != TAG_TEXT {
        return Err(CodecError::TypeMismatch);
    }
    match parse_lp(b, 0, TAG_TEXT) {
        Some((v, j)) => if j == n {
            Ok(Text { bytes: v })
        } else {
            Err(CodecError::Decode)
        },
        None => Err(CodecError::Decode),
    }
}

/// Encodes a value of the `symbol` shape.
pub fn encode_symbol(p: &Symbol) -> (out: Vec<u8>)
    requires
        symbol_wf(p@),
    ensures
        out@ == enc_symbol(p@),
{
    let mut out: Vec<u8> = Vec::new();
    emit_lp(&mut out, TAG_SYMBOL, &p.bytes);
    proof {
        assert(out@ =~= enc_symbol(p@));
    }
    out
}

/// Decodes a value of the `symbol` shape from a whole buffer.
pub fn decode_symbol(b: &Vec<u8>) -> (r: Result<Symbol, CodecError>)
    ensures
        dec_ok(p_symbol(b@, 0), b@.len() as int) matches Some(v) ==> r matches Ok(w) && w@ == v,
        r matches Ok(w) ==> dec_ok(p_symbol(b@, 0), b@.len() as int) == Some(w@),
        r matches Err(e) ==> dec_ok(p_symbol(b@, 0), b@.len() as int) is None && ((e
            == CodecError::TypeMismatch) <==> (b@.len() > 0 && b@[0] != TAG_SYMBOL)),
{
    let n = b.len();
    if n > 0 && b[0] != TAG_SYMBOL {
        return Err(CodecError::TypeMismatch);
    }
    match parse_lp(b, 0, TAG_SYMBOL) {
        Some((v, j)) => if j == n {
            Ok(Symbol { bytes: v })
        } else {
            Err(CodecError::Decode)
        },
        None => Err(CodecError::Decode),
    }
}

/// Encodes a value of the `address` shape.
pub fn encode_address(p: &Address) -> (out: Vec<u8>)
    requires
        len_bounded(p@),
    ensures
        out@ == enc_address(p@),
{
    let mut out: Vec<u8> = Vec::new();
    emit_lp(&mut out, TAG_ADDRESS, &p.bytes);
    proof {
        assert(out@ =~= enc_address(p@));
    }
    out
}

/// Decodes a value of the `address` shape from a whole buffer.
pub fn decode_address(b: &Vec<u8>) -> (r: Result<Address, CodecError>)
    ensures
        dec_ok(p_address(b@, 0), b@.len() as int) matches Some(v) ==> r matches Ok(w) && w@ == v,
        r matches Ok(w) ==> dec_ok(p_address(b@, 0), b@.len() as int) == Some(w@),
        r matches Err(e) ==> dec_ok(p_address(b@, 0), b@.len() as int) is None && ((e
            == CodecError::TypeMismatch) <==> (b@.len() > 0 && b@[0] != TAG_ADDRESS)),
{
    let n = b.len();
    if n > 0 && b[0] != TAG_ADDRESS {
        return Err(CodecError::TypeMismatch);
    }
    match parse_lp(b, 0, TAG_ADDRESS) {
        Some((v, j)) => if j == n {
            Ok(Address { bytes: v })
        } else {
            Err(CodecError::Decode)
        },
        None => Err(CodecError::Decode),
    }
}

// ---------------------------------------------------------------------
// Executable encode for the composite shapes.
// ---------------------------------------------------------------------

/// Appending one element extends the element encoding at the end.
proof fn lemma_enc_u32s_push(s: Seq<u32>, x: u32)
    ensures
        enc_u32s(s.push(x)) == enc_u32s(s) + be4(x),
    decreases s.len(),
{
    if s.len() == 0 {
        assert(s.push(x)[0] == x);
        assert(s.push(x).skip(1) =~= Seq::<u32>::empty());
        assert(enc_u32s(Seq::<u32>::empty()) == Seq::<u8>::empty());
        assert(enc_u32s(s.push(x)) =~= enc_u32s(s) + be4(x));
    } else {
        assert(s.push(x)[0] == s[0]);
        assert(s.push(x).skip(1) =~= s.skip(1).push(x));
        lemma_enc_u32s_push(s.skip(1), x);
        vstd::seq_lib::lemma_concat_associative(be4(s[0]), enc_u32s(s.skip(1)), be4(x));
    }
}

/// Appending one entry extends the entry encoding at the end.
proof fn lemma_enc_entries_push(m: Seq<(Seq<u8>, u32)>, e: (Seq<u8>, u32))
    ensures
        enc_entries(m.push(e)) == enc_entries(m) + enc_entry(e.0, e.1),
    decreases m.len(),
{
    if m.len() == 0 {
        assert(m.push(e)[0] == e);
        assert(m.push(e).skip(1) =~= Seq::<(Seq<u8>, u32)>::empty());
        assert(enc_entries(Seq::<(Seq<u8>, u32)>::empty()) == Seq::<u8>::empty());
        assert(enc_entries(m.push(e)) =~= enc_entries(m) + enc_entry(e.0, e.1));
    } else {
        assert(m.push(e)[0] == m[0]);
        assert(m.push(e).skip(1) =~= m.skip(1).push(e));
        lemma_enc_entries_push(m.skip(1), e);
        vstd::seq_lib::lemma_concat_associative(
            enc_entry(m[0].0, m[0].1),
            enc_entries(m.skip(1)),
            enc_entry(e.0, e.1),
        );
    }
}

/// Appends an untagged length-prefixed payload.
pub(crate) fn emit_lpraw(out: &mut Vec<u8>, p: &Vec<u8>)
    requires
        len_bounded(p@),
    ensures
        final(out)@ == old(out)@ + enc_lpraw(p@),
{
    push_be4(out, p.len() as u32);
    push_bytes(out, p);
    assert(out@ =~= old(out)@ + enc_lpraw(p@));
}

/// Appends the elements of a `u32` sequence.
fn emit_u32s(out: &mut Vec<u8>, v: &Vec<u32>)
    ensures
        final(out)@ == old(out)@ + enc_u32s(v@),
{
    let ghost base = out@;
    let mut k: usize = 0;
    proof {
        assert(v@.take(0) =~= Seq::<u32>::empty());
        assert(base + enc_u32s(v@.take(0)) =~= base);
    }
    while k < v.len()
        invariant
            k <= v@.len(),
            out@ == base + enc_u32s(v@.take(k as int)),
        decreases v@.len() - k,
    {
        push_be4(out, v[k]);
        proof {
            assert(v@.take(k as int + 1) =~= v@.take(k as int).push(v@[k as int]));
            lemma_enc_u32s_push(v@.take(k as int), v@[k as int]);
            assert(out@ =~= base + enc_u32s(v@.take(k as int + 1)));
        }
        k = k + 1;
    }
    proof {
        assert(v@.take(v@.len() as int) =~= v@);
    }
}

/// Encodes a value of the `vec` shape.
pub fn encode_vec_u32(v: &Vec<u32>) -> (out: Vec<u8>)
    requires
        v@.len() < 0x1_0000_0000,
    ensures
        out@ == enc_vec(v@),
{
    let mut out: Vec<u8> = Vec::new();
    out.push(TAG_VEC);
    push_be4(&mut out, v.len() as u32);
    emit_u32s(&mut out, v);
    proof {
        assert(out@ =~= enc_vec(v@));
    }
    out
}

/// Encodes a value of the `map` shape, in canonical order.
pub fn encode_map(m: &TextMap) -> (out: Vec<u8>)
    requires
        map_wf(m@),
    ensures
        out@ == enc_map(m@),
{
    let mut out: Vec<u8> = Vec::new();
    out.push(TAG_MAP);
    let n = m.len();
    push_be4(&mut out, n as u32);
    let ghost base = out@;
    let mut k: usize = 0;
    proof {
        assert(m@.take(0) =~= Seq::<(Seq<u8>, u32)>::empty());
        assert(base + enc_entries(m@.take(0)) =~= base);
    }
    while k < n
        invariant
            map_wf(m@),
            n == m@.len(),
            k <= n,
            out@ == base + enc_entries(m@.take(k as int)),
        decreases n - k,
    {
        let e = m.entry_at(k);
        emit_lpraw(&mut out, &e.0.bytes);
        push_be4(&mut out, e.1);
        proof {
            assert(m@.take(k as int + 1) =~= m@.take(k as int).push(m@[k as int]));
            lemma_enc_entries_push(m@.take(k as int), m@[k as int]);
            assert(out@ =~= base + enc_entries(m@.take(k as int + 1)));
        }
        k = k + 1;
    }
    proof {
        assert(m@.take(m@.len() as int) =~= m@);
        assert(out@ =~= enc_map(m@));
    }
    out
}

/// Appends an optional `u32`.
fn emit_opt_u32(out: &mut Vec<u8>, o: Option<u32>)
    ensures
        final(out)@ == old(out)@ + enc_opt_u32(o),
{
    out.push(TAG_OPTION);
    match o {
        None => {
            out.push(0);
            assert(out@ =~= old(out)@ + enc_opt_u32(o));
        },
        Some(x) => {
            out.push(1);
            emit_tag4(out, TAG_U32, x);
            assert(out@ =~= old(out)@ + enc_opt_u32(o));
        },
    }
}

/// Appends an optional address.
fn emit_opt_addr(out: &mut Vec<u8>, o: &Option<Address>)
    requires
        o matches Some(a) ==> len_bounded(a@),
    ensures
        final(out)@ == old(out)@ + enc_opt_addr(opt_addr_view(*o)),
{
    out.push(TAG_OPTION);
    match o {
        None => {
            out.push(0);
            assert(out@ =~= old(out)@ + enc_opt_addr(opt_addr_view(*o)));
        },
        Some(a) => {
            out.push(1);
            emit_lp(out, TAG_ADDRESS, &a.bytes);
            assert(out@ =~= old(out)@ + enc_opt_addr(opt_addr_view(*o)));
        },
    }
}

/// The identity bytes an optional address stands for.
pub open spec fn opt_addr_view(o: Option<Address>) -> Option<Seq<u8>> {
    match o {
        Some(a) => Some(a@),
        None => None,
    }
}

/// Encodes a value of the `option of u32` shape.
pub fn encode_opt_u32(o: Option<u32>) -> (out: Vec<u8>)
    ensures
        out@ == enc_opt_u32(o),
{
    let mut out: Vec<u8> = Vec::new();
    emit_opt_u32(&mut out, o);
    proof {
        assert(out@ =~= enc_opt_u32(o));
    }
    out
}

/// Encodes a value of the `option of address` shape.
pub fn encode_opt_address(o: &Option<Address>) -> (out: Vec<u8>)
    requires
        o matches Some(a) ==> len_bounded(a@),
    ensures
        out@ == enc_opt_addr(opt_addr_view(*o)),
{
    let mut out: Vec<u8> = Vec::new();
    emit_opt_addr(&mut out, o);
    proof {
        assert(out@ =~= enc_opt_addr(opt_addr_view(*o)));
    }
    out
}

/// Encodes a value of the tagged-result shape.
pub fn encode_result(r: Result<u32, ContractError>) -> (out: Vec<u8>)
    ensures
        out@ == enc_result(r),
{
    let mut out: Vec<u8> = Vec::new();
    out.push(TAG_RESULT);
    match r {
        Ok(x) => {
            out.push(0);
            emit_tag4(&mut out, TAG_U32, x);
        },
        Err(e) => {
            out.push(1);
            out.push(e.code());
        },
    }
    proof {
        assert(out@ =~= enc_result(r));
    }
    out
}

/// Appends a record.
fn emit_data(out: &mut Vec<u8>, d: &Data)
    requires
        data_wf(d@),
    ensures
        final(out)@ == old(out)@ + enc_data(d@),
{
    out.push(TAG_DATA);
    emit_lp(out, TAG_ADDRESS, &d.admin.bytes);
    emit_tag4(out, TAG_U32, d.counter);
    emit_lp(out, TAG_TEXT, &d.message.bytes);
    assert(out@ =~= old(out)@ + enc_data(d@));
}

/// Encodes a value of the record shape.
pub fn encode_data(d: &Data) -> (out: Vec<u8>)
    requires
        data_wf(d@),
    ensures
        out@ == enc_data(d@),
{
    let mut out: Vec<u8> = Vec::new();
    emit_data(&mut out, d);
    proof {
        assert(out@ =~= enc_data(d@));
    }
    out
}

/// Encodes a value of the two-optional-fields shape.
pub fn encode_optional_data(o: &OptionalData) -> (out: Vec<u8>)
    requires
        optional_wf(o@),
    ensures
        out@ == enc_optional(o@),
{
    let mut out: Vec<u8> = Vec::new();
    out.push(TAG_OPTIONAL);
    emit_opt_u32(&mut out, o.maybe_u32);
    emit_opt_addr(&mut out, &o.maybe_address);
    proof {
        assert(out@ =~= enc_optional(o@));
    }
    out
}

/// Appends a `ComplexData` value.
#[verifier::rlimit(100)]
#[verifier::spinoff_prover]
fn emit_complex(out: &mut Vec<u8>, c: &ComplexData)
    requires
        complex_wf(c@),
    ensures
        final(out)@ == old(out)@ + enc_complex(c@),
{
    out.push(TAG_COMPLEX);
    emit_lp(out, TAG_ADDRESS, &c.admin.bytes);
    emit_data(out, &c.data);
    emit_lp(out, TAG_BYTES, &c.bytes);
    out.push(TAG_BYTES32);
    push_bytes(out, &c.bytes_n.bytes);
    emit_tag8(out, TAG_DURATION, c.duration.secs);
    emit_tag8(out, TAG_TIMEPOINT, c.timepoint.secs);
    let mp = encode_map(&c.map);
    push_bytes(out, &mp);
    let vc = encode_vec_u32(&c.vec);
    push_bytes(out, &vc);
    emit_lp(out, TAG_SYMBOL, &c.symbol.bytes);
    assert(out@ =~= old(out)@ + enc_complex(c@));
}

/// Encodes a value of the all-shapes composite.
pub fn encode_complex(c: &ComplexData) -> (out: Vec<u8>)
    requires
        complex_wf(c@),
    ensures
        out@ == enc_complex(c@),
{
    let mut out: Vec<u8> = Vec::new();
    emit_complex(&mut out, c);
    proof {
        assert(out@ =~= enc_complex(c@));
    }
    out
}

/// Encodes a value of the nested composite shape.
#[verifier::rlimit(100)]
#[verifier::spinoff_prover]
pub fn encode_deep(d: &DeepData2) -> (out: Vec<u8>)
    requires
        deep_wf(d@),
    ensures
        out@ == enc_deep(d@),
{
    let mut out: Vec<u8> = Vec::new();
    out.push(TAG_DEEP);
    emit_lp(&mut out, TAG_ADDRESS, &d.admin.bytes);
    emit_data(&mut out, &d.data);
    emit_complex(&mut out, &d.complex);
    proof {
        assert(out@ =~= enc_deep(d@));
    }
    out
}

// ---------------------------------------------------------------------
// Executable parse and decode for the composite shapes.
// ---------------------------------------------------------------------

/// Parses `n` consecutive 32-bit words.
fn parse_u32s(b: &Vec<u8>, i: usize, n: u32) -> (r: Option<(Vec<u32>, usize)>)
    ensures
        r matches Some(p) ==> p_u32s(b@, i as int, n as nat) == Some((p.0@, p.1 as int)) && p.1
            <= b.len(),
        r is None ==> p_u32s(b@, i as int, n as nat) is None,
    decreases n,
{
    if n == 0 {
        if i <= b.len() {
            Some((Vec::new(), i))
        } else {
            None
        }
    } else {
        match parse_raw4(b, i) {
            Some((x, j)) => match parse_u32s(b, j, n - 1) {
                Some((rest, j2)) => {
                    let mut v = rest;
                    v.insert(0, x);
                    proof {
                        assert(v@ =~= seq![x] + v@.subrange(1, v@.len() as int));
                    }
                    Some((v, j2))
                },
                None => None,
            },
            None => None,
        }
    }
}

/// Parses a sequence of 32-bit words.
fn parse_vec(b: &Vec<u8>, i: usize) -> (r: Option<(Vec<u32>, usize)>)
    ensures
        r matches Some(p) ==> p_vec(b@, i as int) == Some((p.0@, p.1 as int)) && p.1 <= b.len()
            && p.0@.len() < 0x1_0000_0000,
        r is None ==> p_vec(b@, i as int) is None,
{
    let nb = b.len();
    if i < nb && nb - i >= 5 && b[i] == TAG_VEC {
        let cnt = read_be4(b, i + 1);
        let r = parse_u32s(b, i + 5, cnt);
        proof {
            if p_u32s(b@, i as int + 5, cnt as nat) matches Some(p) {
                lemma_p_u32s_len(b@, i as int + 5, cnt as nat);
            }
        }
        r
    } else {
        None
    }
}

/// A counted word parse yields exactly the count.
proof fn lemma_p_u32s_len(b: Seq<u8>, i: int, n: nat)
    ensures
        p_u32s(b, i, n) matches Some(p) ==> p.0.len() == n,
    decreases n,
{
    if n != 0 {
        match p_raw4(b, i) {
            Some((x, j)) => {
                lemma_p_u32s_len(b, j, (n - 1) as nat);
            },
            None => {},
        }
    }
}

/// Parses one map entry.
fn parse_entry(b: &Vec<u8>, i: usize) -> (r: Option<((Text, u32), usize)>)
    ensures
        r matches Some(p) ==> p_entry(b@, i as int) == Some((((p.0).0@, (p.0).1), p.1 as int))
            && p.1 <= b.len(),
        r is None ==> p_entry(b@, i as int) is None,
{
    match parse_lpraw(b, i) {
        Some((k, j)) => match parse_raw4(b, j) {
            Some((v, j2)) => Some(((Text { bytes: k }, v), j2)),
            None => None,
        },
        None => None,
    }
}

/// Parses `n` consecutive map entries.
fn parse_entries(b: &Vec<u8>, i: usize, n: u32) -> (r: Option<(Vec<(Text, u32)>, usize)>)
    ensures
        r matches Some(p) ==> p_entries(b@, i as int, n as nat) == Some(
            (entries_view(p.0@), p.1 as int),
        ) && p.1 <= b.len(),
        r is None ==> p_entries(b@, i as int, n as nat) is None,
    decreases n,
{
    if n == 0 {
        let v: Vec<(Text, u32)> = Vec::new();
        proof {
            assert(entries_view(v@) =~= Seq::<(Seq<u8>, u32)>::empty());
        }
        if i <= b.len() {
            Some((v, i))
        } else {
            None
        }
    } else {
        match parse_entry(b, i) {
            Some((e, j)) => match parse_entries(b, j, n - 1) {
                Some((rest, j2)) => {
                    let ghost ev = (e.0@, e.1);
                    let ghost restv = entries_view(rest@);
                    let mut v = rest;
                    v.insert(0, e);
                    proof {
                        assert(entries_view(v@) =~= seq![ev] + restv);
                    }
                    Some((v, j2))
                },
                None => None,
            },
            None => None,
        }
    }
}

/// Every key a counted entry parse yields is bounded, and the count is
/// exact.
proof fn lemma_p_entries_bounded(b: Seq<u8>, i: int, n: nat)
    ensures
        p_entries(b, i, n) matches Some(p) ==> p.0.len() == n && forall|t: int|
            0 <= t < p.0.len() ==> len_bounded(#[trigger] p.0[t].0),
    decreases n,
{
    if n != 0 {
        match p_entry(b, i) {
            Some((e, j)) => {
                lemma_p_entries_bounded(b, j, (n - 1) as nat);
            },
            None => {},
        }
    }
}

/// Parses an ordered map, rejecting any entry order other than the
/// canonical one.
fn parse_map(b: &Vec<u8>, i: usize) -> (r: Option<(TextMap, usize)>)
    ensures
        r matches Some(p) ==> p_map(b@, i as int) == Some((p.0@, p.1 as int)) && p.1 <= b.len()
            && map_wf(p.0@),
        r is None ==> p_map(b@, i as int) is None,
{
    let nb = b.len();
    if i < nb && nb - i >= 5 && b[i] == TAG_MAP {
        let cnt = read_be4(b, i + 1);
        match parse_entries(b, i + 5, cnt) {
            Some((es, j)) => {
                proof {
                    lemma_p_entries_bounded(b@, i as int + 5, cnt as nat);
                }
                if crate::values::check_sorted(&es) {
                    let m = TextMap::from_sorted(es);
                    Some((m, j))
                } else {
                    None
                }
            },
            None => None,
        }
    } else {
        None
    }
}

/// Parses an optional 32-bit value.
fn parse_opt_u32(b: &Vec<u8>, i: usize) -> (r: Option<(Option<u32>, usize)>)
    ensures
        r matches Some(p) ==> p_opt_u32(b@, i as int) == Some((p.0, p.1 as int)) && p.1
            <= b.len(),
        r is None ==> p_opt_u32(b@, i as int) is None,
{
    let nb = b.len();
    if i < nb && nb - i >= 2 && b[i] == TAG_OPTION {
        let flag = b[i + 1];
        if flag == 0 {
            Some((None, i + 2))
        } else if flag == 1 {
            match parse_tag4(b, i + 2, TAG_U32) {
                Some((x, j)) => Some((Some(x), j)),
                None => None,
            }
        } else {
            None
        }
    } else {
        None
    }
}

/// Parses an optional address.
fn parse_opt_addr(b: &Vec<u8>, i: usize) -> (r: Option<(Option<Address>, usize)>)
    ensures
        r matches Some(p) ==> p_opt_addr(b@, i as int) == Some((opt_addr_view(p.0), p.1 as int))
            && p.1 <= b.len(),
        r is None ==> p_opt_addr(b@, i as int) is None,
{
    let nb = b.len();
    if i < nb && nb - i >= 2 && b[i] == TAG_OPTION {
        let flag = b[i + 1];
        if flag == 0 {
            Some((None, i + 2))
        } else if flag == 1 {
            match parse_lp(b, i + 2, TAG_ADDRESS) {
                Some((a, j)) => Some((Some(Address { bytes: a }), j)),
                None => None,
            }
        } else {
            None
        }
    } else {
        None
    }
}

/// Parses a tagged success-or-error result.
fn parse_result(b: &Vec<u8>, i: usize) -> (r: Option<(Result<u32, ContractError>, usize)>)
    ensures
        r matches Some(p) ==> p_result(b@, i as int) == Some((p.0, p.1 as int)) && p.1
            <= b.len(),
        r is None ==> p_result(b@, i as int) is None,
{
    let nb = b.len();
    if i < nb && nb - i >= 2 && b[i] == TAG_RESULT {
        let flag = b[i + 1];
        if flag == 0 {
            match parse_tag4(b, i + 2, TAG_U32) {
                Some((x, j)) => Some((Ok(x), j)),
                None => None,
            }
        } else if flag == 1 {
            if nb - i >= 3 {
                match error_from_code(b[i + 2]) {
                    Some(e) => Some((Err(e), i + 3)),
                    None => None,
                }
            } else {
                None
            }
        } else {
            None
        }
    } else {
        None
    }
}

/// Parses an address value.
fn parse_address_at(b: &Vec<u8>, i: usize) -> (r: Option<(Address, usize)>)
    ensures
        r matches Some(p) ==> p_address(b@, i as int) == Some((p.0@, p.1 as int)) && p.1
            <= b.len(),
        r is None ==> p_address(b@, i as int) is None,
{
    match parse_lp(b, i, TAG_ADDRESS) {
        Some((a, j)) => Some((Address { bytes: a }, j)),
        None => None,
    }
}

/// Parses a text value.
fn parse_text_at(b: &Vec<u8>, i: usize) -> (r: Option<(Text, usize)>)
    ensures
        r matches Some(p) ==> p_text(b@, i as int) == Some((p.0@, p.1 as int)) && p.1 <= b.len(),
        r is None ==> p_text(b@, i as int) is None,
{
    match parse_lp(b, i, TAG_TEXT) {
        Some((t, j)) => Some((Text { bytes: t }, j)),
        None => None,
    }
}

/// Parses a record.
fn parse_data(b: &Vec<u8>, i: usize) -> (r: Option<(Data, usize)>)
    ensures
        r matches Some(p) ==> p_data(b@, i as int) == Some((p.0@, p.1 as int)) && p.1 <= b.len(),
        r is None ==> p_data(b@, i as int) is None,
{
    let nb = b.len();
    if i < nb && b[i] == TAG_DATA {
        match parse_address_at(b, i + 1) {
            Some((a, j)) => match parse_tag4(b, j, TAG_U32) {
                Some((c, j2)) => match parse_text_at(b, j2) {
                    Some((msg, j3)) => Some((Data { admin: a, counter: c, message: msg }, j3)),
                    None => None,
                },
                None => None,
            },
            None => None,
        }
    } else {
        None
    }
}

/// Parses a two-optional-fields composite.
fn parse_optional(b: &Vec<u8>, i: usize) -> (r: Option<(OptionalData, usize)>)
    ensures
        r matches Some(p) ==> p_optional(b@, i as int) == Some((p.0@, p.1 as int)) && p.1
            <= b.len(),
        r is None ==> p_optional(b@, i as int) is None,
{
    let nb = b.len();
    if i < nb && b[i] == TAG_OPTIONAL {
        match parse_opt_u32(b, i + 1) {
            Some((mu, j)) => match parse_opt_addr(b, j) {
                Some((ma, j2)) => Some(
                    (OptionalData { maybe_u32: mu, maybe_address: ma }, j2),
                ),
                None => None,
            },
            None => None,
        }
    } else {
        None
    }
}

/// Parses an all-shapes composite.
#[verifier::rlimit(100)]
#[verifier::spinoff_prover]
fn parse_complex(b: &Vec<u8>, i: usize) -> (r: Option<(ComplexData, usize)>)
    ensures
        r matches Some(p) ==> p_complex(b@, i as int) == Some((p.0@, p.1 as int)) && p.1
            <= b.len(),
        r is None ==> p_complex(b@, i as int) is None,
{
    let nb = b.len();
    if i < nb && b[i] == TAG_COMPLEX {
        match parse_address_at(b, i + 1) {
            Some((admin, j1)) => match parse_data(b, j1) {
                Some((data, j2)) => match parse_lp(b, j2, TAG_BYTES) {
                    Some((bs, j3)) => match parse_fix32(b, j3, TAG_BYTES32) {
                        Some((bn, j4)) => match parse_tag8(b, j4, TAG_DURATION) {
                            Some((du, j5)) => match parse_tag8(b, j5, TAG_TIMEPOINT) {
                                Some((tp, j6)) => match parse_map(b, j6) {
                                    Some((mp, j7)) => match parse_vec(b, j7) {
                                        Some((vc, j8)) => match parse_lp(b, j8, TAG_SYMBOL) {
                                            Some((sy, j9)) => Some(
                                                (
                                                    ComplexData {
                                                        admin,
                                                        data,
                                                        bytes: bs,
                                                        bytes_n: Bytes32 { bytes: bn },
                                                        duration: Duration { secs: du },
                                                        timepoint: Timepoint { secs: tp },
                                                        map: mp,
                                                        vec: vc,
                                                        symbol: Symbol { bytes: sy },
                                                    },
                                                    j9,
                                                ),
                                            ),
                                            None => None,
                                        },
                                        None => None,
                                    },
                                    None => None,
                                },
                                None => None,
                            },
                            None => None,
                        },
                        None => None,
                    },
                    None => None,
                },
                None => None,
            },
            None => None,
        }
    } else {
        None
    }
}

/// Parses a nested composite.
#[verifier::rlimit(100)]
#[verifier::spinoff_prover]
fn parse_deep(b: &Vec<u8>, i: usize) -> (r: Option<(DeepData2, usize)>)
    ensures
        r matches Some(p) ==> p_deep(b@, i as int) == Some((p.0@, p.1 as int)) && p.1 <= b.len(),
        r is None ==> p_deep(b@, i as int) is None,
{
    let nb = b.len();
    if i < nb && b[i] == TAG_DEEP {
        match parse_address_at(b, i + 1) {
            Some((admin, j1)) => match parse_data(b, j1) {
                Some((data, j2)) => match parse_complex(b, j2) {
                    Some((cx, j3)) => Some((DeepData2 { admin, data, complex: cx }, j3)),
                    None => None,
                },
                None => None,
            },
            None => None,
        }
    } else {
        None
    }
}

/// Decodes a value of the `vec` shape from a whole buffer.
pub fn decode_vec_u32(b: &Vec<u8>) -> (r: Result<Vec<u32>, CodecError>)
    ensures
        dec_ok(p_vec(b@, 0), b@.len() as int) matches Some(v) ==> r matches Ok(w) && w@ == v,
        r matches Ok(w) ==> dec_ok(p_vec(b@, 0), b@.len() as int) == Some(w@),
        r matches Err(e) ==> dec_ok(p_vec(b@, 0), b@.len() as int) is None && ((e
            == CodecError::TypeMismatch) <==> (b@.len() > 0 && b@[0] != TAG_VEC)),
{
    let n = b.len();
    if n > 0 && b[0] != TAG_VEC {
        return Err(CodecError::TypeMismatch);
    }
    match parse_vec(b, 0) {
        Some((v, j)) => if j == n {
            Ok(v)
        } else {
            Err(CodecError::Decode)
        },
        None => Err(CodecError::Decode),
    }
}

/// Decodes a value of the `map` shape from a whole buffer.
pub fn decode_map(b: &Vec<u8>) -> (r: Result<TextMap, CodecError>)
    ensures
        dec_ok(p_map(b@, 0), b@.len() as int) matches Some(v) ==> r matches Ok(w) && w@ == v,
        r matches Ok(w) ==> dec_ok(p_map(b@, 0), b@.len() as int) == Some(w@) && map_wf(w@),
        r matches Err(e) ==> dec_ok(p_map(b@, 0), b@.len() as int) is None && ((e
            == CodecError::TypeMismatch) <==> (b@.len() > 0 && b@[0] != TAG_MAP)),
{
    let n = b.len();
    if n > 0 && b[0] != TAG_MAP {
        return Err(CodecError::TypeMismatch);
    }
    match parse_map(b, 0) {
        Some((v, j)) => if j == n {
            Ok(v)
        } else {
            Err(CodecError::Decode)
        },
        None => Err(CodecError::Decode),
    }
}

/// Decodes a value of the `option of u32` shape from a whole buffer.
pub fn decode_opt_u32(b: &Vec<u8>) -> (r: Result<Option<u32>, CodecError>)
    ensures
        dec_ok(p_opt_u32(b@, 0), b@.len() as int) matches Some(v) ==> r == Ok::<
            Option<u32>,
            CodecError,
        >(v),
        r matches Ok(v) ==> dec_ok(p_opt_u32(b@, 0), b@.len() as int) == Some(v),
        r matches Err(e) ==> dec_ok(p_opt_u32(b@, 0), b@.len() as int) is None && ((e
            == CodecError::TypeMismatch) <==> (b@.len() > 0 && b@[0] != TAG_OPTION)),
{
    let n = b.len();
    if n > 0 && b[0] != TAG_OPTION {
        return Err(CodecError::TypeMismatch);
    }
    match parse_opt_u32(b, 0) {
        Some((v, j)) => if j == n {
            Ok(v)
        } else {
            Err(CodecError::Decode)
        },
        None => Err(CodecError::Decode),
    }
}

/// Decodes a value of the `option of address` shape from a whole buffer.
pub fn decode_opt_address(b: &Vec<u8>) -> (r: Result<Option<Address>, CodecError>)
    ensures
        dec_ok(p_opt_addr(b@, 0), b@.len() as int) matches Some(v) ==> r matches Ok(w)
            && opt_addr_view(w) == v,
        r matches Ok(w) ==> dec_ok(p_opt_addr(b@, 0), b@.len() as int) == Some(opt_addr_view(w)),
        r matches Err(e) ==> dec_ok(p_opt_addr(b@, 0), b@.len() as int) is None && ((e
            == CodecError::TypeMismatch) <==> (b@.len() > 0 && b@[0] != TAG_OPTION)),
{
    let n = b.len();
    if n > 0 && b[0] != TAG_OPTION {
        return Err(CodecError::TypeMismatch);
    }
    match parse_opt_addr(b, 0) {
        Some((v, j)) => if j == n {
            Ok(v)
        } else {
            Err(CodecError::Decode)
        },
        None => Err(CodecError::Decode),
    }
}

/// Decodes a value of the tagged-result shape from a whole buffer.
pub fn decode_result(b: &Vec<u8>) -> (r: Result<Result<u32, ContractError>, CodecError>)
    ensures
        dec_ok(p_result(b@, 0), b@.len() as int) matches Some(v) ==> r == Ok::<
            Result<u32, ContractError>,
            CodecError,
        >(v),
        r matches Ok(v) ==> dec_ok(p_result(b@, 0), b@.len() as int) == Some(v),
        r matches Err(e) ==> dec_ok(p_result(b@, 0), b@.len() as int) is None && ((e
            == CodecError::TypeMismatch) <==> (b@.len() > 0 && b@[0] != TAG_RESULT)),
{
    let n = b.len();
    if n > 0 && b[0] != TAG_RESULT {
        return Err(CodecError::TypeMismatch);
    }
    match parse_result(b, 0) {
        Some((v, j)) => if j == n {
            Ok(v)
        } else {
            Err(CodecError::Decode)
        },
        None => Err(CodecError::Decode),
    }
}

/// Decodes a value of the record shape from a whole buffer.
pub fn decode_data(b: &Vec<u8>) -> (r: Result<Data, CodecError>)
    ensures
        dec_ok(p_data(b@, 0), b@.len() as int) matches Some(v) ==> r matches Ok(w) && w@ == v,
        r matches Ok(w) ==> dec_ok(p_data(b@, 0), b@.len() as int) == Some(w@),
        r matches Err(e) ==> dec_ok(p_data(b@, 0), b@.len() as int) is None && ((e
            == CodecError::TypeMismatch) <==> (b@.len() > 0 && b@[0] != TAG_DATA)),
{
    let n = b.len();
    if n > 0 && b[0] != TAG_DATA {
        return Err(CodecError::TypeMismatch);
    }
    match parse_data(b, 0) {
        Some((v, j)) => if j == n {
            Ok(v)
        } else {
            Err(CodecError::Decode)
        },
        None => Err(CodecError::Decode),
    }
}

/// Decodes a value of the two-optional-fields shape from a whole buffer.
pub fn decode_optional_data(b: &Vec<u8>) -> (r: Result<OptionalData, CodecError>)
    ensures
        dec_ok(p_optional(b@, 0), b@.len() as int) matches Some(v) ==> r matches Ok(w) && w@ == v,
        r matches Ok(w) ==> dec_ok(p_optional(b@, 0), b@.len() as int) == Some(w@),
        r matches Err(e) ==> dec_ok(p_optional(b@, 0), b@.len() as int) is None && ((e
            == CodecError::TypeMismatch) <==> (b@.len() > 0 && b@[0] != TAG_OPTIONAL)),
{
    let n = b.len();
    if n > 0 && b[0] != TAG_OPTIONAL {
        return Err(CodecError::TypeMismatch);
    }
    match parse_optional(b, 0) {
        Some((v, j)) => if j == n {
            Ok(v)
        } else {
            Err(CodecError::Decode)
        },
        None => Err(CodecError::Decode),
    }
}

/// Decodes a value of the all-shapes composite from a whole buffer.
pub fn decode_complex(b: &Vec<u8>) -> (r: Result<ComplexData, CodecError>)
    ensures
        dec_ok(p_complex(b@, 0), b@.len() as int) matches Some(v) ==> r matches Ok(w) && w@ == v,
        r matches Ok(w) ==> dec_ok(p_complex(b@, 0), b@.len() as int) == Some(w@),
        r matches Err(e) ==> dec_ok(p_complex(b@, 0), b@.len() as int) is None && ((e
            == CodecError::TypeMismatch) <==> (b@.len() > 0 && b@[0] != TAG_COMPLEX)),
{
    let n = b.len();
    if n > 0 && b[0] != TAG_COMPLEX {
        return Err(CodecError::TypeMismatch);
    }
    match parse_complex(b, 0) {
        Some((v, j)) => if j == n {
            Ok(v)
        } else {
            Err(CodecError::Decode)
        },
        None => Err(CodecError::Decode),
    }
}

/// Decodes a value of the nested composite shape from a whole buffer.
pub fn decode_deep(b: &Vec<u8>) -> (r: Result<DeepData2, CodecError>)
    ensures
        dec_ok(p_deep(b@, 0), b@.len() as int) matches Some(v) ==> r matches Ok(w) && w@ == v,
        r matches Ok(w) ==> dec_ok(p_deep(b@, 0), b@.len() as int) == Some(w@),
        r matches Err(e) ==> dec_ok(p_deep(b@, 0), b@.len() as int) is None && ((e
            == CodecError::TypeMismatch) <==> (b@.len() > 0 && b@[0] != TAG_DEEP)),
{
    let n = b.len();
    if n > 0 && b[0] != TAG_DEEP {
        return Err(CodecError::TypeMismatch);
    }
    match parse_deep(b, 0) {
        Some((v, j)) => if j == n {
            Ok(v)
        } else {
            Err(CodecError::Decode)
        },
        None => Err(CodecError::Decode),
    }
}

} // verus!

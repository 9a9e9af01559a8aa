//! The key space: a closed set of typed keys, each mapping to a
//! distinct storage address through the value codec. Addresses are the
//! only way the persistent store is reached.

use vstd::prelude::*;

use crate::bytes::{be8, lemma_be4_roundtrip, lemma_be8_roundtrip, push_be8};
use crate::codec::{emit_lpraw, enc_lpraw};
use crate::values::{Address, len_bounded};

verus! {

/// A storage key: three nullary slots and two parameterized families.
#[derive(Clone, Debug)]
pub enum DataKey {
    Admin,
    Counter,
    Data,
    Account(Address),
    Contract(Address, u64),
}

/// The mathematical image of a key.
pub enum KeyV {
    Admin,
    Counter,
    Data,
    Account(Seq<u8>),
    Contract(Seq<u8>, u64),
}

impl View for DataKey {
    type V = KeyV;

    open spec fn view(&self) -> KeyV {
        match self {
            DataKey::Admin => KeyV::Admin,
            DataKey::Counter => KeyV::Counter,
            DataKey::Data => KeyV::Data,
            DataKey::Account(a) => KeyV::Account(a@),
            DataKey::Contract(a, n) => KeyV::Contract(a@, *n),
        }
    }
}

pub open spec fn key_wf(k: KeyV) -> bool {
    match k {
        KeyV::Account(a) => len_bounded(a),
        KeyV::Contract(a, n) => len_bounded(a),
        _ => true,
    }
}

/// The variant discriminant, the first byte of every address.
pub open spec fn key_disc(k: KeyV) -> u8 {
    match k {
        KeyV::Admin => 0,
        KeyV::Counter => 1,
        KeyV::Data => 2,
        KeyV::Account(a) => 3,
        KeyV::Contract(a, n) => 4,
    }
}

/// The storage address a key stands for: its discriminant, then its
/// parameters encoded through the codec's primitive layouts.
pub open spec fn key_addr(k: KeyV) -> Seq<u8> {
    match k {
        KeyV::Admin => seq![0u8],
        KeyV::Counter => seq![1u8],
        KeyV::Data => seq![2u8],
        KeyV::Account(a) => seq![3u8] + enc_lpraw(a),
        KeyV::Contract(a, n) => seq![4u8] + enc_lpraw(a) + be8(n),
    }
}

/// Computes the storage address of a key.
pub fn address_of(k: &DataKey) -> (out: Vec<u8>)
    requires
        key_wf(k@),
    ensures
        out@ == key_addr(k@),
{
    let mut out: Vec<u8> = Vec::new();
    match k {
        DataKey::Admin => {
            out.push(0);
        },
        DataKey::Counter => {
            out.push(1);
        },
        DataKey::Data => {
            out.push(2);
        },
        DataKey::Account(a) => {
            out.push(3);
            emit_lpraw(&mut out, &a.bytes);
        },
        DataKey::Contract(a, n) => {
            out.push(4);
            emit_lpraw(&mut out, &a.bytes);
            push_be8(&mut out, *n);
        },
    }
    proof {
        assert(out@ =~= key_addr(k@));
    }
    out
}

/// Every address opens with the key's discriminant.
proof fn lemma_key_disc(k: KeyV)
    ensures
        key_addr(k).len() >= 1,
        key_addr(k)[0] == key_disc(k),
{
    match k {
        KeyV::Admin => {},
        KeyV::Counter => {},
        KeyV::Data => {},
        KeyV::Account(a) => {
            assert((seq![3u8] + enc_lpraw(a))[0] == 3u8);
        },
        KeyV::Contract(a, n) => {
            assert((seq![4u8] + enc_lpraw(a) + be8(n))[0] == 4u8);
        },
    }
}

/// A length-prefixed payload determines its payload.
proof fn lemma_lpraw_injective(p1: Seq<u8>, p2: Seq<u8>)
    requires
        len_bounded(p1),
        len_bounded(p2),
        enc_lpraw(p1) == enc_lpraw(p2),
    ensures
        p1 == p2,
{
    lemma_be4_roundtrip(p1.len() as u32);
    lemma_be4_roundtrip(p2.len() as u32);
    assert(enc_lpraw(p1).len() == 4 + p1.len());
    assert(enc_lpraw(p2).len() == 4 + p2.len());
    assert(p1.len() == p2.len());
    assert forall|t: int| 0 <= t < p1.len() implies p1[t] == p2[t] by {
        assert(enc_lpraw(p1)[4 + t] == p1[t]);
        assert(enc_lpraw(p2)[4 + t] == p2[t]);
    }
    assert(p1 =~= p2);
}

/// Key injectivity: distinct keys never collide in the address space,
/// across nullary and parameterized variants alike.
pub proof fn lemma_address_of_injective(k1: KeyV, k2: KeyV)
    requires
        key_wf(k1),
        key_wf(k2),
        k1 != k2,
    ensures
        key_addr(k1) != key_addr(k2),
{
    if key_addr(k1) == key_addr(k2) {
        lemma_key_disc(k1);
        lemma_key_disc(k2);
        assert(key_disc(k1) == key_disc(k2));
        match (k1, k2) {
            (KeyV::Account(a1), KeyV::Account(a2)) => {
                assert(a1.len() == a2.len());
                assert forall|t: int|
                    0 <= t < enc_lpraw(a1).len() implies enc_lpraw(a1)[t] == enc_lpraw(a2)[t] by {
                    assert(key_addr(k1)[1 + t] == enc_lpraw(a1)[t]);
                    assert(key_addr(k2)[1 + t] == enc_lpraw(a2)[t]);
                }
                assert(enc_lpraw(a1) =~= enc_lpraw(a2));
                lemma_lpraw_injective(a1, a2);
            },
            (KeyV::Contract(a1, n1), KeyV::Contract(a2, n2)) => {
                assert(a1.len() == a2.len());
                assert forall|t: int|
                    0 <= t < enc_lpraw(a1).len() implies enc_lpraw(a1)[t] == enc_lpraw(a2)[t] by {
                    assert(key_addr(k1)[1 + t] == enc_lpraw(a1)[t]);
                    assert(key_addr(k2)[1 + t] == enc_lpraw(a2)[t]);
                }
                assert(enc_lpraw(a1) =~= enc_lpraw(a2));
                lemma_lpraw_injective(a1, a2);
                assert forall|t: int| 0 <= t < 8 implies be8(n1)[t] == be8(n2)[t] by {
                    assert(key_addr(k1)[5 + a1.len() + t] == be8(n1)[t]);
                    assert(key_addr(k2)[5 + a2.len() + t] == be8(n2)[t]);
                }
                assert(be8(n1) =~= be8(n2));
                lemma_be8_roundtrip(n1);
                lemma_be8_roundtrip(n2);
            },
            _ => {},
        }
        assert(k1 == k2);
    }
}

/// The address of the `Admin` key.
pub open spec fn admin_address() -> Seq<u8> {
    key_addr(KeyV::Admin)
}

/// The address of the `Data` key.
pub open spec fn data_address() -> Seq<u8> {
    key_addr(KeyV::Data)
}

} // verus!

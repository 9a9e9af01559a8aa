//! The operation surface: initialization, admin rotation and reads,
//! the data record, the typed-error toggle, and the pure pass-through
//! operations that exercise every codec shape.
//!
//! The store is an explicit handle, so independent stores can coexist;
//! mutating operations consult the authorization context against the
//! admin identity read from the store, never a caller-supplied one.

use vstd::prelude::*;

use crate::auth::AuthContext;
use crate::codec::{
    dec_ok, decode_address, decode_data, enc_address, enc_data, encode_address, encode_data,
    lemma_roundtrip_address, lemma_roundtrip_data, p_address, p_data,
};
use crate::error::{ContractError, Fault};
use crate::keys::{DataKey, admin_address, data_address};
use crate::store::Store;
use crate::values::{
    Address, Bytes32, ComplexData, Data, DataV, DeepData2, Duration, OptionalData, Symbol, Text,
    TextMap, Timepoint, Val, data_wf, len_bounded, I256, U256,
};

verus! {

/// What an address of the store holds, if anything.
pub open spec fn slot(s: Map<Seq<u8>, Seq<u8>>, a: Seq<u8>) -> Option<Seq<u8>> {
    if s.contains_key(a) {
        Some(s[a])
    } else {
        None
    }
}

/// The identity bytes a stored buffer decodes to, if it is a whole
/// address encoding.
pub open spec fn dec_addr(bs: Seq<u8>) -> Option<Seq<u8>> {
    dec_ok(p_address(bs, 0), bs.len() as int)
}

/// The record a stored buffer decodes to, if it is a whole record
/// encoding.
pub open spec fn dec_record(bs: Seq<u8>) -> Option<DataV> {
    dec_ok(p_data(bs, 0), bs.len() as int)
}

/// The admin slot, when present, holds a whole address encoding.
/// Every write this surface makes keeps it so; a raw write through the
/// byte-level store may break it, which the faulting operations report
/// as `Fault::BadEncoding`.
pub open spec fn admin_slot_clean(s: Map<Seq<u8>, Seq<u8>>) -> bool {
    slot(s, admin_address()) matches Some(bs) ==> dec_addr(bs) is Some
}

/// The data slot, when present, holds a whole record encoding.
pub open spec fn data_slot_clean(s: Map<Seq<u8>, Seq<u8>>) -> bool {
    slot(s, data_address()) matches Some(bs) ==> dec_record(bs) is Some
}

/// The contract: a bundle of operations over an explicit store handle
/// and the invocation's authorization context.
pub struct ContractWithConstructor;

impl ContractWithConstructor {
    /// Initializes the store: writes the admin unconditionally. Meant
    /// to run once, before any other operation; no admin exists yet to
    /// check against.
    pub fn __constructor(store: &mut Store, admin: &Address)
        requires
            len_bounded(admin@),
        ensures
            final(store)@ == old(store)@.insert(admin_address(), enc_address(admin@)),
    {
        let encoded = encode_address(admin);
        store.set_key(&DataKey::Admin, encoded);
    }

    /// Rotates the admin. Reads the stored admin, requires an
    /// authorization from it, then overwrites the admin slot; on any
    /// failure the store is untouched.
    pub fn set_admin(store: &mut Store, auth: &AuthContext, admin: &Address) -> (r: Result<
        (),
        Fault,
    >)
        requires
            len_bounded(admin@),
        ensures
            match slot(old(store)@, admin_address()) {
                None => r == Err::<(), Fault>(Fault::MissingValue) && final(store)@ == old(
                    store,
                )@,
                Some(bs) => match dec_addr(bs) {
                    None => r == Err::<(), Fault>(Fault::BadEncoding) && final(store)@ == old(
                        store,
                    )@,
                    Some(cur) => if auth@.contains(cur) {
                        r == Ok::<(), Fault>(()) && final(store)@ == old(store)@.insert(
                            admin_address(),
                            enc_address(admin@),
                        )
                    } else {
                        r == Err::<(), Fault>(Fault::NotAuthorized) && final(store)@ == old(
                            store,
                        )@
                    },
                },
            },
    {
        match store.get_key(&DataKey::Admin) {
            None => Err(Fault::MissingValue),
            Some(bs) => match decode_address(&bs) {
                Err(_) => Err(Fault::BadEncoding),
                Ok(current) => if auth.is_granted(&current) {
                    let encoded = encode_address(admin);
                    store.set_key(&DataKey::Admin, encoded);
                    Ok(())
                } else {
                    Err(Fault::NotAuthorized)
                },
            },
        }
    }

    /// Reads the admin. An uninitialized store is an unrecoverable
    /// fault, not a typed error: it can only mean the constructor
    /// never ran.
    pub fn get_admin(store: &Store) -> (r: Result<Address, Fault>)
        ensures
            match slot(store@, admin_address()) {
                None => r == Err::<Address, Fault>(Fault::MissingValue),
                Some(bs) => match dec_addr(bs) {
                    None => r == Err::<Address, Fault>(Fault::BadEncoding),
                    Some(a) => r matches Ok(x) && x@ == a,
                },
            },
    {
        match store.get_key(&DataKey::Admin) {
            None => Err(Fault::MissingValue),
            Some(bs) => match decode_address(&bs) {
                Err(_) => Err(Fault::BadEncoding),
                Ok(a) => Ok(a),
            },
        }
    }

    /// Reads the admin, reporting an absent one as the typed
    /// `AdminNotFound` error instead of faulting.
    pub fn get_admin_from_storage(store: &Store) -> (r: Result<Address, ContractError>)
        requires
            admin_slot_clean(store@),
        ensures
            match slot(store@, admin_address()) {
                None => r == Err::<Address, ContractError>(ContractError::AdminNotFound),
                Some(bs) => r matches Ok(a) && dec_addr(bs) == Some(a@),
            },
    {
        match store.get_key(&DataKey::Admin) {
            None => Err(ContractError::AdminNotFound),
            Some(bs) => match decode_address(&bs) {
                Ok(a) => Ok(a),
                Err(_) => {
                    // a clean admin slot always decodes, so this arm cannot run
                    proof {
                        assert(false);
                    }
                    Err(ContractError::AdminNotFound)
                },
            },
        }
    }

    /// Overwrites the data record. Requires an authorization from the
    /// admin read from the store — not from any caller-supplied
    /// identity; on any failure the store is untouched.
    pub fn set_data(store: &mut Store, auth: &AuthContext, data: &Data) -> (r: Result<(), Fault>)
        requires
            data_wf(data@),
        ensures
            match slot(old(store)@, admin_address()) {
                None => r == Err::<(), Fault>(Fault::MissingValue) && final(store)@ == old(
                    store,
                )@,
                Some(bs) => match dec_addr(bs) {
                    None => r == Err::<(), Fault>(Fault::BadEncoding) && final(store)@ == old(
                        store,
                    )@,
                    Some(cur) => if auth@.contains(cur) {
                        r == Ok::<(), Fault>(()) && final(store)@ == old(store)@.insert(
                            data_address(),
                            enc_data(data@),
                        )
                    } else {
                        r == Err::<(), Fault>(Fault::NotAuthorized) && final(store)@ == old(
                            store,
                        )@
                    },
                },
            },
    {
        match store.get_key(&DataKey::Admin) {
            None => Err(Fault::MissingValue),
            Some(bs) => match decode_address(&bs) {
                Err(_) => Err(Fault::BadEncoding),
                Ok(current) => if auth.is_granted(&current) {
                    let encoded = encode_data(data);
                    store.set_key(&DataKey::Data, encoded);
                    Ok(())
                } else {
                    Err(Fault::NotAuthorized)
                },
            },
        }
    }

    /// Reads the data record; an absent one is the typed
    /// `OptionNotFound` error, never a fault.
    pub fn get_data(store: &Store) -> (r: Result<Data, ContractError>)
        requires
            data_slot_clean(store@),
        ensures
            match slot(store@, data_address()) {
                None => r == Err::<Data, ContractError>(ContractError::OptionNotFound),
                Some(bs) => r matches Ok(d) && dec_record(bs) == Some(d@),
            },
    {
        match store.get_key(&DataKey::Data) {
            None => Err(ContractError::OptionNotFound),
            Some(bs) => match decode_data(&bs) {
                Ok(d) => Ok(d),
                Err(_) => {
                    // a clean data slot always decodes, so this arm cannot run
                    proof {
                        assert(false);
                    }
                    Err(ContractError::OptionNotFound)
                },
            },
        }
    }

    /// The typed-error toggle: success carries 42, failure the typed
    /// `InvalidValue` error.
    pub fn handle_errors(should_error: bool) -> (r: Result<u32, ContractError>)
        ensures
            r == (if should_error {
                Err::<u32, ContractError>(ContractError::InvalidValue)
            } else {
                Ok::<u32, ContractError>(42u32)
            }),
    {
        if should_error {
            Err(ContractError::InvalidValue)
        } else {
            Ok(42)
        }
    }

    /// Pass-through: returns both arguments unchanged.
    pub fn method_with_args(arg1: u32, arg2: u32) -> (r: (u32, u32))
        ensures
            r == (arg1, arg2),
    {
        (arg1, arg2)
    }

    /// Pass-through: returns the record unchanged.
    pub fn struct_as_arg(arg: Data) -> (r: Data)
        ensures
            r == arg,
    {
        arg
    }

    /// Pass-through: returns the nested composite unchanged.
    pub fn struct_as_arg_deep(arg: DeepData2) -> (r: DeepData2)
        ensures
            r == arg,
    {
        arg
    }

    /// Pass-through over every integer width; echoes the 32-bit pair.
    #[allow(unused_variables)]
    pub fn handle_integers(
        i32_val: i32,
        i64_val: i64,
        i128_val: i128,
        i256_val: I256,
        u32_val: u32,
        u64_val: u64,
        u128_val: u128,
        u256_val: U256,
    ) -> (r: (i32, u32))
        ensures
            r == (i32_val, u32_val),
    {
        (i32_val, u32_val)
    }

    /// Pass-through over the string shapes; echoes the text.
    #[allow(unused_variables)]
    pub fn handle_strings(str_val: Text, bytes_val: Vec<u8>, bytes_n_val: Bytes32) -> (r: Text)
        ensures
            r == str_val,
    {
        str_val
    }

    /// Pass-through: returns both time quantities unchanged.
    pub fn handle_time(duration: Duration, timepoint: Timepoint) -> (r: (Duration, Timepoint))
        ensures
            r == (duration, timepoint),
    {
        (duration, timepoint)
    }

    /// Pass-through: returns the map and the sequence unchanged.
    pub fn handle_collections(map: TextMap, vec: Vec<u32>) -> (r: (TextMap, Vec<u32>))
        ensures
            r == (map, vec),
    {
        (map, vec)
    }

    /// Pass-through: returns both composites unchanged.
    pub fn handle_custom_types(data: Data, complex_data: ComplexData) -> (r: (Data, ComplexData))
        ensures
            r == (data, complex_data),
    {
        (data, complex_data)
    }

    /// Builds the two-optional-fields composite from its parts.
    pub fn handle_optionals(maybe_u32: Option<u32>, maybe_address: Option<Address>) -> (r:
        OptionalData)
        ensures
            r.maybe_u32 == maybe_u32,
            r.maybe_address == maybe_address,
    {
        OptionalData { maybe_u32, maybe_address }
    }

    /// Pass-through over a mixed argument list, opaque value included.
    pub fn handle_mixed(
        address: Address,
        symbol: Symbol,
        val: Val,
        data: Data,
        maybe_u32: Option<u32>,
    ) -> (r: (Address, Symbol, Val, Data, Option<u32>))
        ensures
            r == (address, symbol, val, data, maybe_u32),
    {
        (address, symbol, val, data, maybe_u32)
    }
}

/// Construction-once bootstrap: after the constructor writes admin
/// identity `a` into store `s`, the admin slot holds exactly the
/// encoding of `a`, that encoding decodes back to `a`, and the slot is
/// clean — so a following admin read is owed `a` by its contract.
pub proof fn lemma_construct_bootstrap(s: Map<Seq<u8>, Seq<u8>>, a: Seq<u8>)
    requires
        len_bounded(a),
    ensures
        slot(s.insert(admin_address(), enc_address(a)), admin_address()) == Some(enc_address(a)),
        dec_addr(enc_address(a)) == Some(a),
        admin_slot_clean(s.insert(admin_address(), enc_address(a))),
{
    lemma_roundtrip_address(a);
}

/// A write of a well-formed record into the data slot leaves it clean
/// and holding exactly that record — so a following `get_data` is owed
/// the record back by its contract.
pub proof fn lemma_data_write_read(s: Map<Seq<u8>, Seq<u8>>, d: DataV)
    requires
        data_wf(d),
    ensures
        slot(s.insert(data_address(), enc_data(d)), data_address()) == Some(enc_data(d)),
        dec_record(enc_data(d)) == Some(d),
        data_slot_clean(s.insert(data_address(), enc_data(d))),
{
    lemma_roundtrip_data(d);
}

/// Writing the admin slot never disturbs the data slot, and the other
/// way round: the two addresses differ, so the two records are
/// independent state.
pub proof fn lemma_slots_independent(s: Map<Seq<u8>, Seq<u8>>, bs: Seq<u8>)
    ensures
        slot(s.insert(admin_address(), bs), data_address()) == slot(s, data_address()),
        slot(s.insert(data_address(), bs), admin_address()) == slot(s, admin_address()),
{
    crate::keys::lemma_address_of_injective(crate::keys::KeyV::Admin, crate::keys::KeyV::Data);
}

} // verus!

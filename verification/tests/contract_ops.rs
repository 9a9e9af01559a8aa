use contract_with_constructor::auth::AuthContext;
use contract_with_constructor::contract::ContractWithConstructor;
use contract_with_constructor::error::{ContractError, Fault};
use contract_with_constructor::store::Store;
use contract_with_constructor::values::{
    Address, Bytes32, ComplexData, Data, Duration, Symbol, Text, TextMap, Timepoint, Val, I256,
    U256,
};

fn address(bytes: &[u8]) -> Address {
    Address { bytes: bytes.to_vec() }
}

fn text(s: &str) -> Text {
    Text { bytes: s.as_bytes().to_vec() }
}

fn record(admin: &Address, counter: u32, message: &str) -> Data {
    Data { admin: admin.clone(), counter, message: text(message) }
}

#[test]
fn construct_then_get_admin_returns_admin() {
    let mut store = Store::new();
    let alice = address(b"alice");
    ContractWithConstructor::__constructor(&mut store, &alice);
    let got = ContractWithConstructor::get_admin(&store).unwrap();
    assert_eq!(got.bytes, alice.bytes);
}

#[test]
fn get_admin_checked_before_construction_is_typed_error() {
    let store = Store::new();
    let r = ContractWithConstructor::get_admin_from_storage(&store);
    assert_eq!(r.unwrap_err(), ContractError::AdminNotFound);
}

#[test]
fn get_admin_before_construction_is_fault_not_typed_error() {
    let store = Store::new();
    let r = ContractWithConstructor::get_admin(&store);
    assert_eq!(r.unwrap_err(), Fault::MissingValue);
}

#[test]
fn get_data_before_set_data_is_typed_error_not_fault() {
    let mut store = Store::new();
    let alice = address(b"alice");
    ContractWithConstructor::__constructor(&mut store, &alice);
    let r = ContractWithConstructor::get_data(&store);
    assert_eq!(r.unwrap_err(), ContractError::OptionNotFound);
}

#[test]
fn set_admin_without_authorization_fails_and_keeps_store() {
    let mut store = Store::new();
    let alice = address(b"alice");
    let mallory = address(b"mallory");
    ContractWithConstructor::__constructor(&mut store, &alice);

    let mut auth = AuthContext::new();
    auth.approve(mallory.clone());
    let r = ContractWithConstructor::set_admin(&mut store, &auth, &mallory);
    assert_eq!(r.unwrap_err(), Fault::NotAuthorized);
    let still = ContractWithConstructor::get_admin(&store).unwrap();
    assert_eq!(still.bytes, alice.bytes);
}

#[test]
fn set_data_without_authorization_fails_and_keeps_store() {
    let mut store = Store::new();
    let alice = address(b"alice");
    let mallory = address(b"mallory");
    ContractWithConstructor::__constructor(&mut store, &alice);

    let mut auth = AuthContext::new();
    auth.approve(mallory.clone());
    let d = record(&mallory, 9, "intruder");
    let r = ContractWithConstructor::set_data(&mut store, &auth, &d);
    assert_eq!(r.unwrap_err(), Fault::NotAuthorized);
    assert_eq!(
        ContractWithConstructor::get_data(&store).unwrap_err(),
        ContractError::OptionNotFound
    );
}

#[test]
fn set_admin_on_uninitialized_store_is_missing_value() {
    let mut store = Store::new();
    let auth = AuthContext::new();
    let bob = address(b"bob");
    let r = ContractWithConstructor::set_admin(&mut store, &auth, &bob);
    assert_eq!(r.unwrap_err(), Fault::MissingValue);
}

#[test]
fn admin_rotation_scenario() {
    let mut store = Store::new();
    let alice = address(b"alice");
    let bob = address(b"bob");
    ContractWithConstructor::__constructor(&mut store, &alice);

    // alice, the current admin, rotates the admin to bob
    let mut as_alice = AuthContext::new();
    as_alice.approve(alice.clone());
    ContractWithConstructor::set_admin(&mut store, &as_alice, &bob).unwrap();
    let got = ContractWithConstructor::get_admin(&store).unwrap();
    assert_eq!(got.bytes, bob.bytes);

    // alice is not the stored admin any more, so this write is refused
    let d = record(&bob, 7, "hello");
    let r = ContractWithConstructor::set_data(&mut store, &as_alice, &d);
    assert_eq!(r.unwrap_err(), Fault::NotAuthorized);

    // bob, the stored admin, can write the record
    let mut as_bob = AuthContext::new();
    as_bob.approve(bob.clone());
    ContractWithConstructor::set_data(&mut store, &as_bob, &d).unwrap();
    let back = ContractWithConstructor::get_data(&store).unwrap();
    assert_eq!(back.admin.bytes, bob.bytes);
    assert_eq!(back.counter, 7);
    assert_eq!(back.message.bytes, b"hello".to_vec());
}

#[test]
fn handle_errors_toggles_between_ok_and_typed_error() {
    assert_eq!(ContractWithConstructor::handle_errors(false), Ok(42));
    assert_eq!(
        ContractWithConstructor::handle_errors(true),
        Err(ContractError::InvalidValue)
    );
}

#[test]
fn error_codes_are_small_integers() {
    assert_eq!(ContractError::AdminNotFound.code(), 1);
    assert_eq!(ContractError::InvalidValue.code(), 2);
    assert_eq!(ContractError::OptionNotFound.code(), 3);
}

#[test]
fn pass_through_operations_echo_their_arguments() {
    assert_eq!(ContractWithConstructor::method_with_args(3, 4), (3, 4));

    let d = record(&address(b"alice"), 5, "msg");
    let echoed = ContractWithConstructor::struct_as_arg(d.clone());
    assert_eq!(echoed.counter, 5);
    assert_eq!(echoed.message.bytes, d.message.bytes);

    let (i, u) = ContractWithConstructor::handle_integers(
        -5,
        -6,
        -7,
        I256 { w0: 1, w1: 2, w2: 3, w3: 4 },
        8,
        9,
        10,
        U256 { w0: 4, w1: 3, w2: 2, w3: 1 },
    );
    assert_eq!((i, u), (-5, 8));

    let t = ContractWithConstructor::handle_strings(
        text("keep me"),
        vec![1, 2],
        Bytes32 { bytes: vec![0u8; 32] },
    );
    assert_eq!(t.bytes, b"keep me".to_vec());

    let (du, tp) = ContractWithConstructor::handle_time(
        Duration { secs: 1 },
        Timepoint { secs: 2 },
    );
    assert_eq!(du, Duration { secs: 1 });
    assert_eq!(tp, Timepoint { secs: 2 });

    let o = ContractWithConstructor::handle_optionals(Some(7), None);
    assert_eq!(o.maybe_u32, Some(7));
    assert!(o.maybe_address.is_none());

    let (a2, sy, v2, d2, m2) = ContractWithConstructor::handle_mixed(
        address(b"alice"),
        Symbol { bytes: b"sym".to_vec() },
        Val { encoded: vec![1, 0, 0, 0, 9] },
        d.clone(),
        Some(1),
    );
    assert_eq!(a2.bytes, b"alice".to_vec());
    assert_eq!(sy.bytes, b"sym".to_vec());
    assert_eq!(v2.encoded, vec![1, 0, 0, 0, 9]);
    assert_eq!(d2.counter, 5);
    assert_eq!(m2, Some(1));

    let mut map = TextMap::new();
    map.insert(text("a"), 1);
    map.insert(text("b"), 2);
    let (map_back, vec_back) = ContractWithConstructor::handle_collections(map, vec![1, 2, 3]);
    assert_eq!(map_back.get(&text("a")), Some(1));
    assert_eq!(map_back.get(&text("b")), Some(2));
    assert_eq!(vec_back, vec![1, 2, 3]);
}

#[test]
fn complex_pass_through_is_identical_field_for_field() {
    let mut map = TextMap::new();
    map.insert(text("a"), 1);
    map.insert(text("b"), 2);
    let alice = address(b"alice");
    let c = ComplexData {
        admin: alice.clone(),
        data: record(&alice, 5, "msg"),
        bytes: vec![1, 2, 3],
        bytes_n: Bytes32 { bytes: vec![9u8; 32] },
        duration: Duration { secs: 11 },
        timepoint: Timepoint { secs: 22 },
        map,
        vec: vec![1, 2, 3],
        symbol: Symbol { bytes: b"sym".to_vec() },
    };
    let (d_back, c_back) =
        ContractWithConstructor::handle_custom_types(record(&alice, 5, "msg"), c);
    assert_eq!(d_back.counter, 5);
    assert_eq!(c_back.admin.bytes, b"alice".to_vec());
    assert_eq!(c_back.data.counter, 5);
    assert_eq!(c_back.data.message.bytes, b"msg".to_vec());
    assert_eq!(c_back.bytes, vec![1, 2, 3]);
    assert_eq!(c_back.bytes_n.bytes, vec![9u8; 32]);
    assert_eq!(c_back.duration, Duration { secs: 11 });
    assert_eq!(c_back.timepoint, Timepoint { secs: 22 });
    assert_eq!(c_back.map.get(&text("a")), Some(1));
    assert_eq!(c_back.map.get(&text("b")), Some(2));
    assert_eq!(c_back.map.len(), 2);
    assert_eq!(c_back.vec, vec![1, 2, 3]);
    assert_eq!(c_back.symbol.bytes, b"sym".to_vec());
}

use contract_with_constructor::keys::{DataKey, address_of};
use contract_with_constructor::store::Store;
use contract_with_constructor::values::Address;

fn address(bytes: &[u8]) -> Address {
    Address { bytes: bytes.to_vec() }
}

#[test]
fn distinct_keys_have_distinct_addresses() {
    let keys = [
        DataKey::Admin,
        DataKey::Counter,
        DataKey::Data,
        DataKey::Account(address(b"alice")),
        DataKey::Account(address(b"bob")),
        DataKey::Contract(address(b"alice"), 1),
        DataKey::Contract(address(b"alice"), 2),
        DataKey::Contract(address(b"bob"), 1),
    ];
    let addrs: Vec<Vec<u8>> = keys.iter().map(address_of).collect();
    for i in 0..addrs.len() {
        for j in 0..addrs.len() {
            if i != j {
                assert_ne!(addrs[i], addrs[j]);
            }
        }
    }
}

#[test]
fn address_is_deterministic() {
    let k1 = DataKey::Account(address(b"alice"));
    let k2 = DataKey::Account(address(b"alice"));
    assert_eq!(address_of(&k1), address_of(&k2));
}

#[test]
fn store_get_set_has_remove() {
    let mut s = Store::new();
    let a = address_of(&DataKey::Counter);
    assert!(!s.has(&a));
    assert!(s.get(&a).is_none());

    s.set(a.clone(), vec![1, 2, 3]);
    assert!(s.has(&a));
    assert_eq!(s.get(&a).unwrap(), vec![1, 2, 3]);

    // a later write to the same address wins
    s.set(a.clone(), vec![4]);
    assert_eq!(s.get(&a).unwrap(), vec![4]);

    // writes land only under their own address
    let b = address_of(&DataKey::Data);
    assert!(!s.has(&b));

    s.remove(&a);
    assert!(!s.has(&a));
    assert!(s.get(&a).is_none());
}

#[test]
fn typed_key_layer_reaches_the_same_slots() {
    let mut s = Store::new();
    s.set_key(&DataKey::Data, vec![9, 9]);
    assert!(s.has_key(&DataKey::Data));
    assert_eq!(s.get_key(&DataKey::Data).unwrap(), vec![9, 9]);
    assert_eq!(s.get(&address_of(&DataKey::Data)).unwrap(), vec![9, 9]);
    s.remove_key(&DataKey::Data);
    assert!(!s.has_key(&DataKey::Data));
}

use contract_with_constructor::codec::{
    decode_address, decode_bytes, decode_bytes32, decode_complex, decode_data, decode_deep,
    decode_duration, decode_i128, decode_i32, decode_i64, decode_map, decode_opt_address,
    decode_opt_u32, decode_optional_data, decode_result, decode_symbol, decode_text,
    decode_timepoint, decode_u128, decode_u256, decode_i256, decode_u32, decode_u64,
    decode_vec_u32, encode_address, encode_bytes, encode_bytes32, encode_complex, encode_data,
    encode_deep, encode_duration, encode_i128, encode_i256, encode_i32, encode_i64, encode_map,
    encode_opt_address, encode_opt_u32, encode_optional_data, encode_result, encode_symbol,
    encode_text, encode_timepoint, encode_u128, encode_u256, encode_u32, encode_u64,
    encode_vec_u32,
};
use contract_with_constructor::error::{CodecError, ContractError};
use contract_with_constructor::values::{
    Address, Bytes32, ComplexData, Data, DeepData2, Duration, OptionalData, Symbol, Text, TextMap,
    Timepoint, I256, U256,
};

fn address(bytes: &[u8]) -> Address {
    Address { bytes: bytes.to_vec() }
}

fn text(s: &str) -> Text {
    Text { bytes: s.as_bytes().to_vec() }
}

fn sample_data() -> Data {
    Data { admin: address(b"alice"), counter: 5, message: text("hi there") }
}

fn sample_map() -> TextMap {
    let mut m = TextMap::new();
    m.insert(text("a"), 1);
    m.insert(text("b"), 2);
    m
}

fn sample_complex() -> ComplexData {
    ComplexData {
        admin: address(b"alice"),
        data: sample_data(),
        bytes: vec![1, 2, 3, 4],
        bytes_n: Bytes32 { bytes: vec![7u8; 32] },
        duration: Duration { secs: 3600 },
        timepoint: Timepoint { secs: 1_700_000_000 },
        map: sample_map(),
        vec: vec![1, 2, 3],
        symbol: Symbol { bytes: b"token".to_vec() },
    }
}

#[test]
fn integers_round_trip() {
    assert_eq!(decode_u32(&encode_u32(0)), Ok(0));
    assert_eq!(decode_u32(&encode_u32(u32::MAX)), Ok(u32::MAX));
    assert_eq!(decode_i32(&encode_i32(-123)), Ok(-123));
    assert_eq!(decode_i32(&encode_i32(i32::MIN)), Ok(i32::MIN));
    assert_eq!(decode_u64(&encode_u64(u64::MAX)), Ok(u64::MAX));
    assert_eq!(decode_i64(&encode_i64(i64::MIN)), Ok(i64::MIN));
    assert_eq!(decode_u128(&encode_u128(u128::MAX)), Ok(u128::MAX));
    assert_eq!(decode_i128(&encode_i128(-1)), Ok(-1));
}

#[test]
fn u32_encoding_is_exact_width_big_endian() {
    assert_eq!(encode_u32(0x01020304), vec![1u8, 1, 2, 3, 4]);
    assert_eq!(encode_u64(1).len(), 9);
    assert_eq!(encode_u128(1).len(), 17);
}

#[test]
fn wide_integers_round_trip() {
    let u = U256 { w0: 1, w1: 2, w2: 3, w3: u64::MAX };
    assert_eq!(decode_u256(&encode_u256(&u)), Ok(u));
    let i = I256 { w0: u64::MAX, w1: 0, w2: 5, w3: 9 };
    assert_eq!(decode_i256(&encode_i256(&i)), Ok(i));
}

#[test]
fn strings_and_bytes_round_trip() {
    let b = vec![9u8, 8, 7];
    assert_eq!(decode_bytes(&encode_bytes(&b)).unwrap(), b);
    let empty: Vec<u8> = Vec::new();
    assert_eq!(decode_bytes(&encode_bytes(&empty)).unwrap(), empty);

    let t = text("hello");
    assert_eq!(decode_text(&encode_text(&t)).unwrap().bytes, t.bytes);

    let s = Symbol { bytes: b"tok".to_vec() };
    assert_eq!(decode_symbol(&encode_symbol(&s)).unwrap().bytes, s.bytes);

    let f = Bytes32 { bytes: (0u8..32).collect() };
    assert_eq!(decode_bytes32(&encode_bytes32(&f)).unwrap().bytes, f.bytes);

    let a = address(b"alice");
    assert_eq!(decode_address(&encode_address(&a)).unwrap().bytes, a.bytes);
}

#[test]
fn time_quantities_round_trip_and_stay_distinct() {
    let d = Duration { secs: 60 };
    let t = Timepoint { secs: 60 };
    assert_eq!(decode_duration(&encode_duration(&d)), Ok(d));
    assert_eq!(decode_timepoint(&encode_timepoint(&t)), Ok(t));
    // same magnitude, different shape: decoding under the other tag is refused
    assert_eq!(
        decode_timepoint(&encode_duration(&d)),
        Err(CodecError::TypeMismatch)
    );
    assert_eq!(
        decode_duration(&encode_timepoint(&t)),
        Err(CodecError::TypeMismatch)
    );
}

#[test]
fn collections_round_trip() {
    let v = vec![1u32, 2, 3];
    assert_eq!(decode_vec_u32(&encode_vec_u32(&v)).unwrap(), v);
    let empty: Vec<u32> = Vec::new();
    assert_eq!(decode_vec_u32(&encode_vec_u32(&empty)).unwrap(), empty);

    let m = sample_map();
    let back = decode_map(&encode_map(&m)).unwrap();
    assert_eq!(back.len(), 2);
    assert_eq!(back.get(&text("a")), Some(1));
    assert_eq!(back.get(&text("b")), Some(2));
    assert_eq!(back.get(&text("c")), None);
}

#[test]
fn equal_maps_encode_identically_regardless_of_insertion_order() {
    let mut m1 = TextMap::new();
    m1.insert(text("a"), 1);
    m1.insert(text("b"), 2);
    let mut m2 = TextMap::new();
    m2.insert(text("b"), 2);
    m2.insert(text("a"), 1);
    assert_eq!(encode_map(&m1), encode_map(&m2));

    // replacing a value keeps one entry per key
    let mut m3 = TextMap::new();
    m3.insert(text("a"), 7);
    m3.insert(text("a"), 1);
    m3.insert(text("b"), 2);
    assert_eq!(encode_map(&m1), encode_map(&m3));
}

#[test]
fn non_canonical_map_order_is_rejected() {
    // entries laid down as b=2, a=1: keys out of canonical order
    let mut raw: Vec<u8> = vec![16, 0, 0, 0, 2];
    for (k, v) in [(b"b", 2u32), (b"a", 1u32)] {
        raw.extend_from_slice(&[0, 0, 0, 1]);
        raw.extend_from_slice(&k[..]);
        raw.extend_from_slice(&v.to_be_bytes());
    }
    assert_eq!(decode_map(&raw).unwrap_err(), CodecError::Decode);
}

#[test]
fn optionals_round_trip() {
    assert_eq!(decode_opt_u32(&encode_opt_u32(Some(17))), Ok(Some(17)));
    assert_eq!(decode_opt_u32(&encode_opt_u32(None)), Ok(None));

    let some = Some(address(b"alice"));
    let back = decode_opt_address(&encode_opt_address(&some)).unwrap();
    assert_eq!(back.unwrap().bytes, b"alice".to_vec());
    let none: Option<Address> = None;
    assert!(decode_opt_address(&encode_opt_address(&none)).unwrap().is_none());
}

#[test]
fn tagged_results_round_trip() {
    assert_eq!(decode_result(&encode_result(Ok(42))), Ok(Ok(42)));
    assert_eq!(
        decode_result(&encode_result(Err(ContractError::InvalidValue))),
        Ok(Err(ContractError::InvalidValue))
    );
    assert_eq!(
        decode_result(&encode_result(Err(ContractError::OptionNotFound))),
        Ok(Err(ContractError::OptionNotFound))
    );
}

#[test]
fn records_round_trip() {
    let d = sample_data();
    let back = decode_data(&encode_data(&d)).unwrap();
    assert_eq!(back.admin.bytes, d.admin.bytes);
    assert_eq!(back.counter, d.counter);
    assert_eq!(back.message.bytes, d.message.bytes);

    let o = OptionalData { maybe_u32: Some(3), maybe_address: Some(address(b"bob")) };
    let back = decode_optional_data(&encode_optional_data(&o)).unwrap();
    assert_eq!(back.maybe_u32, Some(3));
    assert_eq!(back.maybe_address.unwrap().bytes, b"bob".to_vec());
}

#[test]
fn complex_and_deep_round_trip() {
    let c = sample_complex();
    let back = decode_complex(&encode_complex(&c)).unwrap();
    assert_eq!(back.admin.bytes, c.admin.bytes);
    assert_eq!(back.data.counter, c.data.counter);
    assert_eq!(back.bytes, c.bytes);
    assert_eq!(back.bytes_n.bytes, c.bytes_n.bytes);
    assert_eq!(back.duration, c.duration);
    assert_eq!(back.timepoint, c.timepoint);
    assert_eq!(back.map.get(&text("a")), Some(1));
    assert_eq!(back.vec, c.vec);
    assert_eq!(back.symbol.bytes, c.symbol.bytes);

    let deep = DeepData2 { admin: address(b"alice"), data: sample_data(), complex: sample_complex() };
    let back = decode_deep(&encode_deep(&deep)).unwrap();
    assert_eq!(back.admin.bytes, deep.admin.bytes);
    assert_eq!(back.data.message.bytes, deep.data.message.bytes);
    assert_eq!(back.complex.vec, deep.complex.vec);
}

#[test]
fn malformed_buffers_fail_with_decode_error() {
    // empty buffer
    assert_eq!(decode_u32(&Vec::new()), Err(CodecError::Decode));
    // right tag, short payload
    assert_eq!(decode_u32(&vec![1u8, 0, 0]), Err(CodecError::Decode));
    // right encoding with trailing garbage
    let mut e = encode_u32(9);
    e.push(0);
    assert_eq!(decode_u32(&e), Err(CodecError::Decode));
    // a length prefix pointing past the end
    assert_eq!(decode_bytes(&vec![9u8, 0, 0, 0, 5, 1]), Err(CodecError::Decode));
}

#[test]
fn mismatched_shapes_fail_with_type_mismatch() {
    let e = encode_u32(7);
    assert_eq!(decode_u64(&e), Err(CodecError::TypeMismatch));
    assert_eq!(decode_text(&e).unwrap_err(), CodecError::TypeMismatch);
    let t = encode_text(&text("x"));
    assert_eq!(decode_bytes(&t), Err(CodecError::TypeMismatch));
    assert_eq!(decode_symbol(&t).unwrap_err(), CodecError::TypeMismatch);
}

#[test]
fn bad_flags_and_codes_are_rejected() {
    // an optional whose presence flag is neither 0 nor 1
    assert_eq!(decode_opt_u32(&vec![18u8, 2]), Err(CodecError::Decode));
    // a result whose arm flag is neither 0 nor 1
    assert_eq!(decode_result(&vec![19u8, 2, 0]), Err(CodecError::Decode));
    // a result carrying an unknown error code
    assert_eq!(decode_result(&vec![19u8, 1, 9]), Err(CodecError::Decode));
    // a fixed 32-byte string cut short
    assert_eq!(
        decode_bytes32(&vec![10u8, 1, 2, 3]).unwrap_err(),
        CodecError::Decode
    );
    // a sequence whose count points past the end
    assert_eq!(
        decode_vec_u32(&vec![17u8, 0, 0, 0, 2, 0, 0, 0, 1]).unwrap_err(),
        CodecError::Decode
    );
}

#[test]
fn signed_and_unsigned_widths_are_distinct_shapes() {
    assert_eq!(decode_i32(&encode_u32(5)), Err(CodecError::TypeMismatch));
    assert_eq!(decode_u32(&encode_i32(5)), Err(CodecError::TypeMismatch));
    assert_eq!(decode_i64(&encode_u64(5)), Err(CodecError::TypeMismatch));
    assert_eq!(decode_u256(&encode_i256(&I256 { w0: 0, w1: 0, w2: 0, w3: 5 })).unwrap_err(),
        CodecError::TypeMismatch);
}

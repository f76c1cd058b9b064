use dotbridge::convert::{
    double_from_clr_value, double_to_clr_value, entries_to_clr_value, object_entries_from_clr_value,
    single_from_clr_value, single_to_clr_value, FromClrValue, ToClrValue,
};
use std::collections::HashMap;
use dotbridge::error::DotBridgeError;
use dotbridge::marshal::{CallbackHandle, ClrTypeTag, ClrValue};

fn roundtrip(val: &ClrValue) -> ClrValue {
    let bytes = val.serialize();
    let (result, _) = ClrValue::deserialize(&bytes).unwrap();
    result
}

fn object(entries: Vec<(&str, ClrValue)>) -> ClrValue {
    ClrValue::Object(entries.into_iter().map(|(k, v)| (k.to_string(), v)).collect())
}

fn double(x: f64) -> ClrValue {
    ClrValue::Double(x.to_bits())
}

fn as_f64(v: &ClrValue) -> f64 {
    match v {
        ClrValue::Double(b) => f64::from_bits(*b),
        other => panic!("expected Double, got {other:?}"),
    }
}

// =========================================================================
// Serialization roundtrip tests
// =========================================================================

#[test]
fn roundtrip_null() {
    let val = ClrValue::Null;
    assert_eq!(val, roundtrip(&val));
}

#[test]
fn roundtrip_string() {
    let val = ClrValue::String("hello world".into());
    assert_eq!(val, roundtrip(&val));
}

#[test]
fn roundtrip_empty_string() {
    let val = ClrValue::String(String::new());
    assert_eq!(val, roundtrip(&val));
}

#[test]
fn roundtrip_unicode_string() {
    let val = ClrValue::String("こんにちは世界 🌍 测试 ñ ü ö".into());
    assert_eq!(val, roundtrip(&val));
}

#[test]
fn roundtrip_long_string() {
    let val = ClrValue::String("a".repeat(100_000));
    assert_eq!(val, roundtrip(&val));
}

#[test]
fn roundtrip_i32() {
    let val = ClrValue::Int32(42);
    assert_eq!(val, roundtrip(&val));
}

#[test]
fn roundtrip_i32_negative() {
    let val = ClrValue::Int32(-42);
    assert_eq!(val, roundtrip(&val));
}

#[test]
fn roundtrip_i32_boundaries() {
    for &n in &[i32::MIN, i32::MAX, 0, -1, 1] {
        let val = ClrValue::Int32(n);
        assert_eq!(val, roundtrip(&val), "failed for i32 value {n}");
    }
}

#[test]
fn roundtrip_u32() {
    let val = ClrValue::UInt32(42);
    assert_eq!(val, roundtrip(&val));
}

#[test]
fn roundtrip_u32_max() {
    let val = ClrValue::UInt32(u32::MAX);
    assert_eq!(val, roundtrip(&val));
}

#[test]
fn roundtrip_double() {
    let val = double(3.14);
    assert_eq!(val, roundtrip(&val));
}

#[test]
fn roundtrip_double_special_values() {
    // Zero
    let val = double(0.0);
    assert_eq!(val, roundtrip(&val));

    // Negative zero
    let n = as_f64(&roundtrip(&double(-0.0)));
    assert!(n.is_sign_negative() && n == 0.0);

    // Infinity
    let val = double(f64::INFINITY);
    assert_eq!(val, roundtrip(&val));

    // Negative infinity
    let val = double(f64::NEG_INFINITY);
    assert_eq!(val, roundtrip(&val));

    // NaN
    let n = as_f64(&roundtrip(&double(f64::NAN)));
    assert!(n.is_nan());
}

#[test]
fn roundtrip_float() {
    let val = ClrValue::Float(2.71f32.to_bits());
    let result = roundtrip(&val);
    // Float is serialized as Number (f64), so it comes back as Double
    let n = as_f64(&result);
    assert!((n - 2.71f32 as f64).abs() < 1e-6);
}

#[test]
fn roundtrip_bool() {
    let val = ClrValue::Boolean(true);
    assert_eq!(val, roundtrip(&val));
    let val = ClrValue::Boolean(false);
    assert_eq!(val, roundtrip(&val));
}

#[test]
fn roundtrip_buffer() {
    let val = ClrValue::Buffer(vec![1, 2, 3, 4, 5]);
    assert_eq!(val, roundtrip(&val));
}

#[test]
fn roundtrip_empty_buffer() {
    let val = ClrValue::Buffer(vec![]);
    assert_eq!(val, roundtrip(&val));
}

#[test]
fn roundtrip_large_buffer() {
    let val = ClrValue::Buffer(vec![0xAB; 65536]);
    assert_eq!(val, roundtrip(&val));
}

#[test]
fn roundtrip_datetime() {
    let val = ClrValue::DateTime(1609459200000); // 2021-01-01T00:00:00Z
    assert_eq!(roundtrip(&val), ClrValue::DateTime(1609459200000));
}

#[test]
fn roundtrip_guid() {
    let val = ClrValue::Guid("550e8400-e29b-41d4-a716-446655440000".into());
    // Guid serializes as String
    assert_eq!(
        roundtrip(&val),
        ClrValue::String("550e8400-e29b-41d4-a716-446655440000".into())
    );
}

#[test]
fn roundtrip_decimal() {
    let val = ClrValue::Decimal("12345.6789".into());
    // Decimal serializes as String
    assert_eq!(roundtrip(&val), ClrValue::String("12345.6789".into()));
}

#[test]
fn roundtrip_callback() {
    let val = ClrValue::Callback(CallbackHandle::new(42));
    assert_eq!(roundtrip(&val), ClrValue::Callback(CallbackHandle::new(42)));
}

#[test]
fn roundtrip_array() {
    let val = ClrValue::Array(vec![
        ClrValue::Int32(1),
        ClrValue::String("two".into()),
        ClrValue::Boolean(true),
    ]);
    assert_eq!(val, roundtrip(&val));
}

#[test]
fn roundtrip_empty_array() {
    let val = ClrValue::Array(vec![]);
    assert_eq!(val, roundtrip(&val));
}

#[test]
fn roundtrip_nested_array() {
    let val = ClrValue::Array(vec![
        ClrValue::Array(vec![ClrValue::Int32(1), ClrValue::Int32(2)]),
        ClrValue::Array(vec![ClrValue::String("a".into()), ClrValue::String("b".into())]),
    ]);
    assert_eq!(val, roundtrip(&val));
}

#[test]
fn roundtrip_object() {
    let val = object(vec![
        ("name", ClrValue::String("edge-rs".into())),
        ("version", ClrValue::Int32(1)),
    ]);
    assert_eq!(val, roundtrip(&val));
}

#[test]
fn roundtrip_empty_object() {
    let val = ClrValue::Object(Vec::new());
    assert_eq!(val, roundtrip(&val));
}

#[test]
fn roundtrip_nested_object() {
    let inner = object(vec![("x", ClrValue::Int32(10)), ("y", ClrValue::Int32(20))]);
    let val = object(vec![("point", inner), ("label", ClrValue::String("origin".into()))]);
    assert_eq!(val, roundtrip(&val));
}

#[test]
fn roundtrip_complex_nested_structure() {
    let nested = object(vec![("inner", ClrValue::String("value".into()))]);
    let val = object(vec![
        ("name", ClrValue::String("test".into())),
        ("count", ClrValue::Int32(42)),
        ("active", ClrValue::Boolean(true)),
        ("ratio", double(3.14)),
        ("data", ClrValue::Buffer(vec![1, 2, 3])),
        (
            "tags",
            ClrValue::Array(vec![ClrValue::String("a".into()), ClrValue::String("b".into())]),
        ),
        ("nothing", ClrValue::Null),
        ("nested", nested),
    ]);
    assert_eq!(val, roundtrip(&val));
}

// =========================================================================
// ToClrValue / FromClrValue trait tests
// =========================================================================

#[test]
fn to_from_clr_primitives() {
    assert_eq!(42i32.to_clr_value(), ClrValue::Int32(42));
    assert_eq!(i32::from_clr_value(&ClrValue::Int32(42)).unwrap(), 42);

    assert_eq!("hello".to_clr_value(), ClrValue::String("hello".into()));
    assert_eq!(String::from_clr_value(&ClrValue::String("hello".into())).unwrap(), "hello");

    assert_eq!(true.to_clr_value(), ClrValue::Boolean(true));
    assert_eq!(bool::from_clr_value(&ClrValue::Boolean(true)).unwrap(), true);
}

#[test]
fn to_from_clr_u32() {
    assert_eq!(100u32.to_clr_value(), ClrValue::UInt32(100));
    assert_eq!(u32::from_clr_value(&ClrValue::UInt32(100)).unwrap(), 100);
}

#[test]
fn to_from_clr_i64() {
    assert_eq!(1_000_000_000_000i64.to_clr_value(), ClrValue::Int64(1_000_000_000_000));
    assert_eq!(i64::from_clr_value(&ClrValue::Int64(999)).unwrap(), 999);
}

#[test]
fn to_from_clr_f64() {
    assert_eq!(double_to_clr_value(2.718f64.to_bits()), double(2.718));
    assert_eq!(f64::from_bits(double_from_clr_value(&double(2.718)).unwrap()), 2.718);
}

#[test]
fn to_from_clr_f32() {
    assert_eq!(single_to_clr_value(1.5f32.to_bits()), ClrValue::Float(1.5f32.to_bits()));
    let v = ClrValue::Float(1.5f32.to_bits());
    assert_eq!(f32::from_bits(single_from_clr_value(&v).unwrap()), 1.5);
}

#[test]
fn to_from_clr_buffer() {
    let buf = vec![10u8, 20, 30];
    assert_eq!(buf.to_clr_value(), ClrValue::Buffer(vec![10, 20, 30]));
    assert_eq!(
        Vec::<u8>::from_clr_value(&ClrValue::Buffer(vec![10, 20, 30])).unwrap(),
        vec![10, 20, 30]
    );
}

#[test]
fn to_from_clr_vec() {
    let v = vec![1i32, 2, 3];
    let clr = v.to_clr_value();
    assert_eq!(
        clr,
        ClrValue::Array(vec![ClrValue::Int32(1), ClrValue::Int32(2), ClrValue::Int32(3)])
    );
    let back = Vec::<i32>::from_clr_value(&clr).unwrap();
    assert_eq!(back, vec![1, 2, 3]);
}

#[test]
fn to_from_clr_option() {
    let some: Option<i32> = Some(42);
    assert_eq!(some.to_clr_value(), ClrValue::Int32(42));

    let none: Option<i32> = None;
    assert_eq!(none.to_clr_value(), ClrValue::Null);

    assert_eq!(Option::<i32>::from_clr_value(&ClrValue::Int32(42)).unwrap(), Some(42));
    assert_eq!(Option::<i32>::from_clr_value(&ClrValue::Null).unwrap(), None);
}

#[test]
fn to_from_clr_hashmap() {
    let mut map = HashMap::new();
    map.insert("a".to_string(), 1i32);
    map.insert("b".to_string(), 2);

    let entries: Vec<(String, i32)> = map.iter().map(|(k, v)| (k.clone(), *v)).collect();
    let clr = entries_to_clr_value(&entries);
    if let ClrValue::Object(ref obj) = clr {
        let get = |key: &str| obj.iter().find(|(k, _)| k == key).map(|(_, v)| v);
        assert_eq!(get("a"), Some(&ClrValue::Int32(1)));
        assert_eq!(get("b"), Some(&ClrValue::Int32(2)));
    } else {
        panic!("expected Object");
    }

    let back: HashMap<String, i32> =
        object_entries_from_clr_value::<i32>(&clr).unwrap().into_iter().collect();
    assert_eq!(back, map);
}

#[test]
fn to_from_clr_unit() {
    assert_eq!(().to_clr_value(), ClrValue::Null);
    assert_eq!(<()>::from_clr_value(&ClrValue::Int32(42)).unwrap(), ());
}

#[test]
fn clrvalue_identity_roundtrip() {
    let val = ClrValue::String("test".into());
    assert_eq!(val.to_clr_value(), val);
    assert_eq!(ClrValue::from_clr_value(&val).unwrap(), val);
}

#[test]
fn string_from_null_returns_empty() {
    assert_eq!(String::from_clr_value(&ClrValue::Null).unwrap(), "");
}

// =========================================================================
// Cross-type FromClrValue coercion tests
// =========================================================================

#[test]
fn i32_from_double() {
    assert_eq!(i32::from_clr_value(&double(42.0)).unwrap(), 42);
}

#[test]
fn i32_from_i64() {
    assert_eq!(i32::from_clr_value(&ClrValue::Int64(42)).unwrap(), 42);
}

#[test]
fn u32_from_i32() {
    assert_eq!(u32::from_clr_value(&ClrValue::Int32(42)).unwrap(), 42);
}

#[test]
fn u32_from_double() {
    assert_eq!(u32::from_clr_value(&double(42.0)).unwrap(), 42);
}

#[test]
fn i64_from_i32() {
    assert_eq!(i64::from_clr_value(&ClrValue::Int32(42)).unwrap(), 42);
}

#[test]
fn i64_from_double() {
    assert_eq!(i64::from_clr_value(&double(42.0)).unwrap(), 42);
}

#[test]
fn f64_from_float() {
    let result = f64::from_bits(double_from_clr_value(&ClrValue::Float(1.5f32.to_bits())).unwrap());
    assert!((result - 1.5).abs() < 1e-6);
}

#[test]
fn f64_from_i32() {
    assert_eq!(f64::from_bits(double_from_clr_value(&ClrValue::Int32(42)).unwrap()), 42.0);
}

#[test]
fn f64_from_i64() {
    assert_eq!(f64::from_bits(double_from_clr_value(&ClrValue::Int64(42)).unwrap()), 42.0);
}

#[test]
fn f32_from_double() {
    let result = f32::from_bits(single_from_clr_value(&double(1.5)).unwrap());
    assert!((result - 1.5).abs() < 1e-6);
}

// =========================================================================
// FromClrValue error tests
// =========================================================================

#[test]
fn i32_from_string_fails() {
    assert!(i32::from_clr_value(&ClrValue::String("nope".into())).is_err());
}

#[test]
fn bool_from_int_fails() {
    assert!(bool::from_clr_value(&ClrValue::Int32(1)).is_err());
}

#[test]
fn string_from_int_fails() {
    assert!(String::from_clr_value(&ClrValue::Int32(42)).is_err());
}

#[test]
fn buffer_from_string_fails() {
    assert!(Vec::<u8>::from_clr_value(&ClrValue::String("nope".into())).is_err());
}

#[test]
fn vec_from_object_fails() {
    let map = object(vec![("a", ClrValue::Int32(1))]);
    assert!(Vec::<i32>::from_clr_value(&map).is_err());
}

#[test]
fn hashmap_from_array_fails() {
    let arr = ClrValue::Array(vec![ClrValue::Int32(1)]);
    assert!(object_entries_from_clr_value::<i32>(&arr).is_err());
}

// =========================================================================
// Deserialization error tests
// =========================================================================

#[test]
fn deserialize_empty_buffer_fails() {
    assert!(ClrValue::deserialize(&[]).is_err());
}

#[test]
fn deserialize_short_buffer_fails() {
    assert!(ClrValue::deserialize(&[1, 2]).is_err());
}

#[test]
fn deserialize_unknown_tag_fails() {
    let bytes = 255i32.to_le_bytes();
    assert!(ClrValue::deserialize(&bytes).is_err());
}

#[test]
fn deserialize_exception_returns_error() {
    let mut buf = Vec::new();
    buf.extend_from_slice(&ClrTypeTag::Exception.code().to_le_bytes());
    let msg = b"something went wrong";
    buf.extend_from_slice(&(msg.len() as i32).to_le_bytes());
    buf.extend_from_slice(msg);

    let err = ClrValue::deserialize(&buf).unwrap_err();
    match err {
        DotBridgeError::DotNetException { message, .. } => {
            assert_eq!(message, "something went wrong");
        }
        other => panic!("expected DotNetException, got {other:?}"),
    }
}

// =========================================================================
// Serialization size / offset tests
// =========================================================================

#[test]
fn serialize_null_is_4_bytes() {
    assert_eq!(ClrValue::Null.serialize().len(), 4);
}

#[test]
fn serialize_bool_is_5_bytes() {
    assert_eq!(ClrValue::Boolean(true).serialize().len(), 5);
}

#[test]
fn serialize_i32_is_8_bytes() {
    assert_eq!(ClrValue::Int32(0).serialize().len(), 8);
}

#[test]
fn serialize_double_is_12_bytes() {
    assert_eq!(double(0.0).serialize().len(), 12);
}

#[test]
fn deserialize_returns_correct_offset() {
    let val = ClrValue::String("hello".into());
    let bytes = val.serialize();
    let (_, offset) = ClrValue::deserialize(&bytes).unwrap();
    assert_eq!(offset, bytes.len());
}

#[test]
fn deserialize_multiple_values_sequentially() {
    let v1 = ClrValue::Int32(1);
    let v2 = ClrValue::String("two".into());
    let v3 = ClrValue::Boolean(true);

    let mut buf = v1.serialize();
    buf.extend_from_slice(&v2.serialize());
    buf.extend_from_slice(&v3.serialize());

    let (r1, off1) = ClrValue::deserialize(&buf).unwrap();
    assert_eq!(r1, v1);

    let (r2, off2) = ClrValue::deserialize(&buf[off1..]).unwrap();
    assert_eq!(r2, v2);

    let (r3, _) = ClrValue::deserialize(&buf[off1 + off2..]).unwrap();
    assert_eq!(r3, v3);
}

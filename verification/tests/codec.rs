use zeropack::deserializer::Deserializer;
use zeropack::rle;
use zeropack::serializer::Serializer;
use zeropack::{Error, Value, ARRAY, FALSE, NULL, NUMBER, OBJECT, STRING, TRUE};

fn obj(entries: Vec<(&str, Value)>) -> Value {
    Value::Object(entries.into_iter().map(|(k, v)| (k.as_bytes().to_vec(), v)).collect())
}

fn s(text: &str) -> Value {
    Value::String(text.as_bytes().to_vec())
}

fn num(x: f64) -> Value {
    Value::Number(x.to_bits())
}

#[test]
fn test_write() {
    let mut serializer = Serializer::new();
    serializer.write(&[0, 1, 2, 3]);
    assert_eq!(serializer.buffer, &[0, 1, 2, 3]);
}

#[test]
fn test_write_boolean() {
    let mut serializer = Serializer::new();
    serializer.write_boolean(&false);
    serializer.write_boolean(&true);
    assert_eq!(serializer.buffer, &[FALSE, TRUE]);
}

#[test]
fn test_write_null() {
    let mut serializer = Serializer::new();
    serializer.write_null();
    assert_eq!(serializer.buffer, &[NULL]);
}

#[test]
fn test_write_number_inner() {
    let mut serializer = Serializer::new();
    serializer.write_number_inner(123.456f64.to_bits());
    assert_eq!(serializer.buffer, &[0x77, 0xBE, 0x9F, 0x1A, 0x2F, 0xDD, 0x5E, 0x40]);
}

#[test]
fn test_write_number() {
    let mut serializer = Serializer::new();
    serializer.write_number(123.456f64.to_bits());
    assert_eq!(serializer.buffer, &[NUMBER, 0x77, 0xBE, 0x9F, 0x1A, 0x2F, 0xDD, 0x5E, 0x40]);
}

#[test]
fn test_write_length() {
    let mut serializer = Serializer::new();
    serializer.write_length(254);
    serializer.write_length(255);
    assert_eq!(
        serializer.buffer,
        &[254, 255, 0x00, 0x00, 0x00, 0x00, 0x00, 0xE0, 0x6F, 0x40]
    );
    assert_eq!(255.0f64.to_bits().to_le_bytes(), [0x00, 0x00, 0x00, 0x00, 0x00, 0xE0, 0x6F, 0x40]);
}

#[test]
fn test_write_length_matches_doubles() {
    for n in [0usize, 1, 253, 254, 255, 256, 1000, 65535, 1 << 20, (1 << 53) - 1] {
        let mut serializer = Serializer::new();
        serializer.write_length(n);
        if n <= 254 {
            assert_eq!(serializer.buffer, vec![n as u8]);
        } else {
            let mut expected = vec![255u8];
            expected.extend((n as f64).to_bits().to_le_bytes());
            assert_eq!(serializer.buffer, expected);
        }
    }
}

#[test]
fn test_write_string_inner() {
    let mut serializer = Serializer::new();
    serializer.write_string_inner(&"Hello, world!".as_bytes().to_vec());
    serializer.write_string_inner(&"Hello, world!".repeat(20).as_bytes().to_vec());

    let mut expected = Vec::new();
    expected.push(13);
    expected.extend("Hello, world!".as_bytes());
    expected.extend(&[255, 0x00, 0x00, 0x00, 0x00, 0x00, 0x40, 0x70, 0x40]);
    expected.extend("Hello, world!".repeat(20).as_bytes());
    assert_eq!(serializer.buffer, expected);
}

#[test]
fn test_write_string() {
    let mut serializer = Serializer::new();
    serializer.write_string(&"Hello, world!".as_bytes().to_vec());

    let mut expected = Vec::new();
    expected.push(STRING);
    expected.push(13);
    expected.extend("Hello, world!".as_bytes());
    assert_eq!(serializer.buffer, expected);
}

#[test]
fn test_write_array() {
    let array = vec![
        Value::Boolean(false),
        Value::Boolean(true),
        Value::Null,
        num(1_000.0),
        s("Hello, world!"),
        obj(vec![
            ("key", Value::Boolean(false)),
            ("key2", Value::Boolean(true)),
            ("key3", Value::Null),
            ("key4", num(1_000.0)),
            ("key5", s("Hello, world!")),
        ]),
    ];
    let mut serializer = Serializer::new();
    serializer.write_array(&array);
    let expected = &[
        ARRAY, //
        6u8,   // length
        FALSE, //
        TRUE,  //
        NULL,  //
        NUMBER, 0x00, 0x00, 0x00, 0x00, 0x00, 0x40, 0x8F, 0x40, // number, 1_000
        STRING, 13, 0x48, 0x65, 0x6C, 0x6C, 0x6F, 0x2C, 0x20, 0x77, 0x6F, 0x72, 0x6C, 0x64,
        0x21,   // string, Hello, world!
        OBJECT, //
        5,      // length
        3, 0x6B, 0x65, 0x79,  // key
        FALSE, //
        4, 0x6B, 0x65, 0x79, 0x32, // key2
        TRUE, //
        4, 0x6B, 0x65, 0x79, 0x33, // key3
        NULL, //
        4, 0x6B, 0x65, 0x79, 0x34, // key4
        NUMBER, 0x00, 0x00, 0x00, 0x00, 0x00, 0x40, 0x8F, 0x40, // number, 1_000
        4, 0x6B, 0x65, 0x79, 0x35, // key5
        STRING, 13, 0x48, 0x65, 0x6C, 0x6C, 0x6F, 0x2C, 0x20, 0x77, 0x6F, 0x72, 0x6C, 0x64,
        0x21, // string, Hello, world!
    ];
    assert_eq!(serializer.buffer, expected);
}

#[test]
fn fixed_shape_wire_forms() {
    assert_eq!(Serializer::serialize(&Value::Boolean(false)), vec![0, 1]);
    assert_eq!(Serializer::serialize(&Value::Boolean(true)), vec![1]);
    assert_eq!(Serializer::serialize(&Value::Null), vec![2]);
}

#[test]
fn test_check_buffer() {
    assert_eq!(Deserializer::check_buffer(&[]), Err(Error::InvalidLength));
    assert_eq!(Deserializer::check_buffer(&[FALSE]), Err(Error::InvalidLength));
    assert_eq!(Deserializer::check_buffer(&[FALSE, 1]), Ok(()));
    assert_eq!(Deserializer::check_buffer(&[FALSE, 1, 25]), Err(Error::InvalidLength));
    assert_eq!(Deserializer::check_buffer(&[TRUE, 1]), Err(Error::InvalidLength));
    assert_eq!(Deserializer::check_buffer(&[NULL, 0]), Err(Error::InvalidLength));
    for i in 7..=255u8 {
        assert_eq!(Deserializer::check_buffer(&[i]), Err(Error::InvalidType));
    }
}

#[test]
fn test_read() {
    let mut deserializer = Deserializer::new(&[1]);
    assert_eq!(deserializer.read(2), Err(Error::BufferUnderrun));
}

#[test]
fn malformed_input_rejection() {
    assert_eq!(Deserializer::deserialize(&[]), Err(Error::InvalidLength));
    // An array that declares three elements but carries one.
    assert_eq!(Deserializer::deserialize(&[ARRAY, 3, NULL]), Err(Error::BufferUnderrun));
    // A truncated number payload.
    assert_eq!(Deserializer::deserialize(&[NUMBER, 1, 2, 3]), Err(Error::BufferUnderrun));
    // An unknown leading tag.
    assert_eq!(Deserializer::deserialize(&[9]), Err(Error::InvalidType));
    // An unknown tag nested inside an array body.
    assert_eq!(Deserializer::deserialize(&[ARRAY, 1, 9]), Err(Error::InvalidType));
}

#[test]
fn error_messages() {
    assert_eq!(Error::BufferUnderrun.message(), "No more data remaining");
    assert_eq!(Error::InvalidType.message(), "Invalid type");
    assert_eq!(Error::InvalidLength.message(), "Invalid length");
}

#[test]
fn scenario_object_with_number() {
    let v = obj(vec![("key", Value::Array(vec![num(1000.0)]))]);
    let encoded = Serializer::serialize(&v);
    assert_eq!(1000.0f64.to_bits(), 0x408F400000000000);
    assert_eq!(
        encoded,
        vec![OBJECT, 1, 3, 0x6B, 0x65, 0x79, ARRAY, 1, NUMBER, 0, 5, 0x40, 0x8F, 0x40]
    );
    let decoded = Deserializer::deserialize(&encoded).unwrap();
    assert_eq!(decoded, v);
}

#[test]
fn round_trip_nested() {
    let v = obj(vec![
        ("empty", Value::Array(Vec::new())),
        ("flags", Value::Array(vec![Value::Boolean(true), Value::Boolean(false), Value::Null])),
        ("text", s("héllo wörld \u{2603}")),
        ("numbers", Value::Array(vec![num(0.0), num(-0.0), num(1.5e300), num(-123.456)])),
        ("inner", obj(vec![("deep", Value::Array(vec![obj(Vec::new())]))])),
    ]);
    let encoded = Serializer::serialize(&v);
    assert_eq!(Deserializer::deserialize(&encoded).unwrap(), v);
}

#[test]
fn round_trip_booleans_null() {
    for v in [Value::Boolean(false), Value::Boolean(true), Value::Null] {
        let encoded = Serializer::serialize(&v);
        assert_eq!(Deserializer::deserialize(&encoded).unwrap(), v);
    }
}

#[test]
fn round_trip_number_bits() {
    for bits in [0u64, 1, u64::MAX, 0x7ff8000000000000, f64::INFINITY.to_bits(), 42.0f64.to_bits()]
    {
        let v = Value::Number(bits);
        let encoded = Serializer::serialize(&v);
        assert_eq!(Deserializer::deserialize(&encoded).unwrap(), v);
    }
}

#[test]
fn round_trip_long_string() {
    let v = s(&"abcdefgh".repeat(100));
    let encoded = Serializer::serialize(&v);
    assert_eq!(Deserializer::deserialize(&encoded).unwrap(), v);
}

#[test]
fn round_trip_duplicate_keys() {
    let v = obj(vec![("k", num(1.0)), ("k", num(2.0))]);
    let encoded = Serializer::serialize(&v);
    assert_eq!(Deserializer::deserialize(&encoded).unwrap(), v);
}

#[test]
fn decode_accepts_noncanonical_lengths() {
    // A length written as the double 3.5 truncates to 3.
    let mut raw = vec![STRING, 255];
    raw.extend(3.5f64.to_bits().to_le_bytes());
    raw.extend(b"abc");
    let wire = rle::encode(&raw);
    assert_eq!(Deserializer::deserialize(&wire).unwrap(), s("abc"));

    // A NaN length truncates to 0.
    let mut raw = vec![STRING, 255];
    raw.extend(f64::NAN.to_bits().to_le_bytes());
    let wire = rle::encode(&raw);
    assert_eq!(Deserializer::deserialize(&wire).unwrap(), s(""));
}

#[test]
fn deserialize_compressed_zero_runs() {
    // A number whose payload is all zero bytes crosses the compressor and
    // back: 0.0 encodes as tag plus an escaped run of eight zeros.
    let v = num(0.0);
    let encoded = Serializer::serialize(&v);
    assert_eq!(encoded, vec![NUMBER, 0, 8]);
    assert_eq!(Deserializer::deserialize(&encoded).unwrap(), v);
}

#[test]
fn round_trip_length_threshold_strings() {
    for n in [253usize, 254, 255, 256, 1000] {
        let v = Value::String(vec![b'x'; n]);
        let encoded = Serializer::serialize(&v);
        assert_eq!(Deserializer::deserialize(&encoded).unwrap(), v);
    }
}

#[test]
fn round_trip_long_array() {
    let v = Value::Array((0..300).map(|i| num(i as f64)).collect());
    let encoded = Serializer::serialize(&v);
    assert_eq!(Deserializer::deserialize(&encoded).unwrap(), v);
}

#[test]
fn round_trip_empty_key() {
    let v = obj(vec![("", Value::Null)]);
    let encoded = Serializer::serialize(&v);
    assert_eq!(Deserializer::deserialize(&encoded).unwrap(), v);
}

#[test]
fn trailing_bytes_are_ignored() {
    // The reader parses one value from the front and leaves the rest.
    assert_eq!(Deserializer::deserialize(&[NULL]), Ok(Value::Null));
    assert_eq!(
        Deserializer::deserialize(&[STRING, 1, b'a', 7, 7]),
        Ok(Value::String(vec![b'a']))
    );
}

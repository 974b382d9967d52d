use bencode::decode::decode;
use bencode::decode::decode_at;
use bencode::decode::decode_with_limit;
use bencode::encode::encode;
use bencode::encode::encode_length_prefixed;
use bencode::render::render;
use bencode::value::BencodeError;
use bencode::value::Value;

fn bytes(s: &[u8]) -> Value {
    Value::Bytes(s.to_vec())
}

fn pair(k: &[u8], v: Value) -> (Vec<u8>, Value) {
    (k.to_vec(), v)
}

#[test]
fn decode_byte_string() {
    let (v, used) = decode(&b"4:spam".to_vec()).unwrap();
    assert_eq!(v, bytes(b"spam"));
    assert_eq!(used, 6);
}

#[test]
fn decode_negative_integer() {
    let (v, used) = decode(&b"i-42e".to_vec()).unwrap();
    assert_eq!(v, Value::Integer(-42));
    assert_eq!(used, 5);
}

#[test]
fn decode_list() {
    let (v, used) = decode(&b"l4:spam4:eggse".to_vec()).unwrap();
    assert_eq!(v, Value::List(vec![bytes(b"spam"), bytes(b"eggs")]));
    assert_eq!(used, 14);
}

#[test]
fn decode_dictionary() {
    let (v, used) = decode(&b"d3:cow3:moo4:spam4:eggse".to_vec()).unwrap();
    assert_eq!(
        v,
        Value::Dict(vec![pair(b"cow", bytes(b"moo")), pair(b"spam", bytes(b"eggs"))])
    );
    // the whole 24-byte input is consumed
    assert_eq!(used, 24);
}

#[test]
fn decode_rejects_leading_zero_integer() {
    assert_eq!(
        decode(&b"i03e".to_vec()),
        Err(BencodeError::MalformedInteger)
    );
}

#[test]
fn decode_rejects_minus_zero() {
    assert_eq!(
        decode(&b"i-0e".to_vec()),
        Err(BencodeError::MalformedInteger)
    );
}

#[test]
fn decode_rejects_truncated_string() {
    assert_eq!(decode(&b"5:ab".to_vec()), Err(BencodeError::TruncatedInput));
}

#[test]
fn decode_dictionary_with_list_value() {
    let (v, used) = decode(&b"d4:spaml1:a1:bee".to_vec()).unwrap();
    assert_eq!(
        v,
        Value::Dict(vec![pair(
            b"spam",
            Value::List(vec![bytes(b"a"), bytes(b"b")])
        )])
    );
    assert_eq!(used, 16);
}

#[test]
fn decode_rejects_duplicate_key() {
    assert_eq!(
        decode(&b"d3:foo3:bar3:foo3:baze".to_vec()),
        Err(BencodeError::DuplicateKey)
    );
}

#[test]
fn decode_rejects_empty_input() {
    assert_eq!(decode(&Vec::new()), Err(BencodeError::InvalidTag));
}

#[test]
fn decode_rejects_unknown_tag() {
    assert_eq!(decode(&b"x".to_vec()), Err(BencodeError::InvalidTag));
}

#[test]
fn decode_rejects_integer_overflow() {
    assert_eq!(
        decode(&b"i9223372036854775808e".to_vec()),
        Err(BencodeError::IntegerOverflow)
    );
    assert_eq!(
        decode(&b"i-9223372036854775809e".to_vec()),
        Err(BencodeError::IntegerOverflow)
    );
}

#[test]
fn decode_accepts_integer_bounds() {
    let (v, _) = decode(&b"i9223372036854775807e".to_vec()).unwrap();
    assert_eq!(v, Value::Integer(i64::MAX));
    let (v, _) = decode(&b"i-9223372036854775808e".to_vec()).unwrap();
    assert_eq!(v, Value::Integer(i64::MIN));
}

#[test]
fn decode_rejects_non_string_key() {
    assert_eq!(
        decode(&b"di1e1:ae".to_vec()),
        Err(BencodeError::InvalidKeyType)
    );
}

#[test]
fn decode_rejects_unterminated_list() {
    assert_eq!(
        decode(&b"l4:spam".to_vec()),
        Err(BencodeError::TruncatedInput)
    );
}

#[test]
fn decode_rejects_leading_zero_length() {
    assert_eq!(
        decode(&b"05:abcde".to_vec()),
        Err(BencodeError::MalformedInteger)
    );
}

#[test]
fn decode_honours_depth_limit() {
    assert_eq!(
        decode_with_limit(&b"le".to_vec(), 0),
        Err(BencodeError::RecursionLimitExceeded)
    );
    let (v, _) = decode_with_limit(&b"le".to_vec(), 1).unwrap();
    assert_eq!(v, Value::List(Vec::new()));

    let mut deep = Vec::new();
    for _ in 0..65 {
        deep.push(b'l');
    }
    for _ in 0..65 {
        deep.push(b'e');
    }
    assert_eq!(decode(&deep), Err(BencodeError::RecursionLimitExceeded));
}

#[test]
fn decode_at_offset() {
    let (v, used) = decode_at(&b"XXi7e".to_vec(), 2, 8).unwrap();
    assert_eq!(v, Value::Integer(7));
    assert_eq!(used, 5);
}

#[test]
fn decode_leaves_trailing_bytes() {
    let (v, used) = decode(&b"i7etrailing".to_vec()).unwrap();
    assert_eq!(v, Value::Integer(7));
    assert_eq!(used, 3);
}

#[test]
fn encode_scalars() {
    assert_eq!(encode(&bytes(b"spam")), b"4:spam".to_vec());
    assert_eq!(encode(&bytes(b"")), b"0:".to_vec());
    assert_eq!(encode(&Value::Integer(0)), b"i0e".to_vec());
    assert_eq!(encode(&Value::Integer(-42)), b"i-42e".to_vec());
    assert_eq!(
        encode(&Value::Integer(i64::MIN)),
        b"i-9223372036854775808e".to_vec()
    );
}

#[test]
fn encode_containers() {
    assert_eq!(
        encode(&Value::List(vec![bytes(b"spam"), bytes(b"eggs")])),
        b"l4:spam4:eggse".to_vec()
    );
    assert_eq!(
        encode(&Value::Dict(vec![
            pair(b"cow", bytes(b"moo")),
            pair(b"spam", bytes(b"eggs"))
        ])),
        b"d3:cow3:moo4:spam4:eggse".to_vec()
    );
}

#[test]
fn encode_sorts_dictionary_keys() {
    let v = Value::Dict(vec![
        pair(b"b", Value::Integer(1)),
        pair(b"a", Value::Integer(2)),
    ]);
    assert_eq!(encode(&v), b"d1:ai2e1:bi1ee".to_vec());
}

#[test]
fn encode_sorts_nested_dictionary_keys() {
    let inner = Value::Dict(vec![
        pair(b"z", Value::Integer(1)),
        pair(b"y", Value::Integer(2)),
    ]);
    let v = Value::Dict(vec![pair(b"k", inner)]);
    assert_eq!(encode(&v), b"d1:kd1:yi2e1:zi1eee".to_vec());
}

#[test]
fn encode_length_prefixed_form() {
    assert_eq!(encode_length_prefixed(&b"spam".to_vec()), b"4:spam".to_vec());
    assert_eq!(encode_length_prefixed(&Vec::new()), b"0:".to_vec());
}

#[test]
fn length_prefixed_round_trip() {
    let s = b"some binary \x00\xff payload".to_vec();
    let enc = encode_length_prefixed(&s);
    let colon_index = enc.iter().position(|&c| c == b':').unwrap();
    let (v, used) = decode(&enc).unwrap();
    assert_eq!(v, Value::Bytes(s.clone()));
    assert_eq!(used, colon_index + 1 + s.len());
}

#[test]
fn round_trip_nested_value() {
    let v = Value::Dict(vec![
        pair(b"alpha", Value::List(vec![Value::Integer(-7), bytes(b"\x00\x01")])),
        pair(
            b"beta",
            Value::Dict(vec![pair(b"inner", Value::Integer(0))]),
        ),
    ]);
    let enc = encode(&v);
    let (back, used) = decode(&enc).unwrap();
    assert_eq!(back, v);
    assert_eq!(used, enc.len());
}

#[test]
fn round_trip_binary_bytes() {
    let blob: Vec<u8> = (0..=255u8).collect();
    let v = Value::Bytes(blob.clone());
    let enc = encode(&v);
    let (back, used) = decode(&enc).unwrap();
    assert_eq!(back, Value::Bytes(blob));
    assert_eq!(used, enc.len());
}

#[test]
fn render_values() {
    assert_eq!(render(&bytes(b"spam")), b"\"spam\"".to_vec());
    assert_eq!(render(&Value::Integer(-3)), b"-3".to_vec());
    assert_eq!(
        render(&Value::List(vec![Value::Integer(1), bytes(b"a")])),
        b"[1, \"a\"]".to_vec()
    );
    assert_eq!(
        render(&Value::Dict(vec![pair(b"k", Value::Integer(5))])),
        b"{\"k\": 5}".to_vec()
    );
    assert_eq!(render(&bytes(b"\x00\"")), b"\"\\x00\\\"\"".to_vec());
}

#[test]
fn reencode_reproduces_canonical_input() {
    let input = b"d3:cow3:moo4:spaml1:a1:bi-7eee".to_vec();
    let (v, used) = decode(&input).unwrap();
    assert_eq!(used, input.len());
    assert_eq!(encode(&v), input);
}

use bittorrent::bencode::{decode_bencoded_value, encode, Value};
use std::collections::HashMap;

fn bytes(s: &str) -> Vec<u8> {
    s.as_bytes().to_vec()
}

fn text(s: &str) -> Value {
    Value::ByteString(bytes(s))
}

fn sample() -> Value {
    Value::Dictionary(vec![
        (bytes("zeta"), Value::Integer(-7)),
        (bytes("alpha"), Value::List(vec![text("x"), Value::Integer(0)])),
        (
            bytes("mid"),
            Value::Dictionary(vec![
                (bytes("b"), text("")),
                (bytes("a"), Value::Integer(10)),
            ]),
        ),
        (bytes("alp"), text("prefix")),
    ])
}

#[test]
fn encodes_each_kind() {
    assert_eq!(encode(&text("spam")), b"4:spam");
    assert_eq!(encode(&text("")), b"0:");
    assert_eq!(encode(&Value::Integer(-42)), b"i-42e");
    assert_eq!(encode(&Value::Integer(0)), b"i0e");
    assert_eq!(encode(&Value::Integer(i64::MAX)), b"i9223372036854775807e");
    assert_eq!(encode(&Value::Integer(i64::MIN)), b"i-9223372036854775808e");
    assert_eq!(
        encode(&Value::List(vec![text("hello"), Value::Integer(52)])),
        b"l5:helloi52ee"
    );
    assert_eq!(encode(&Value::List(vec![])), b"le");
    assert_eq!(encode(&Value::Dictionary(vec![])), b"de");
}

#[test]
fn writes_the_length_of_a_long_string_in_decimal() {
    let long = Value::ByteString(vec![b'a'; 1234]);
    let encoded = encode(&long);
    assert_eq!(&encoded[..5], b"1234:");
    assert_eq!(encoded.len(), 5 + 1234);
}

#[test]
fn sorts_the_keys_of_every_dictionary() {
    assert_eq!(
        encode(&sample()),
        bytes("d3:alp6:prefix5:alphal1:xi0ee3:midd1:ai10e1:b0:e4:zetai-7ee")
    );
}

#[test]
fn sorts_keys_by_their_bytes() {
    let value = Value::Dictionary(vec![
        (vec![0xff], Value::Integer(1)),
        (vec![0x7f, 0x00], Value::Integer(2)),
        (vec![], Value::Integer(3)),
        (vec![0x7f], Value::Integer(4)),
    ]);
    let mut expected = Vec::new();
    expected.extend_from_slice(b"d0:i3e1:\x7fi4e2:\x7f\x00i2e1:\xffi1ee");
    assert_eq!(encode(&value), expected);
}

#[test]
fn decoding_an_encoding_gives_the_value_with_sorted_keys() {
    let encoded = encode(&sample());
    let (decoded, rest) = decode_bencoded_value(&encoded).unwrap();
    assert!(rest.is_empty());
    assert_eq!(
        decoded,
        Value::Dictionary(vec![
            (bytes("alp"), text("prefix")),
            (bytes("alpha"), Value::List(vec![text("x"), Value::Integer(0)])),
            (
                bytes("mid"),
                Value::Dictionary(vec![
                    (bytes("a"), Value::Integer(10)),
                    (bytes("b"), text("")),
                ]),
            ),
            (bytes("zeta"), Value::Integer(-7)),
        ])
    );
    assert_eq!(encode(&decoded), encoded);
}

#[test]
fn decoding_the_encoding_of_a_canonical_value_gives_it_back() {
    let inputs: Vec<&[u8]> = vec![
        b"4:spam",
        b"i-42e",
        b"l5:helloi52ee",
        b"d3:foo3:bar5:helloi52ee",
        b"d1:ad1:bd1:cleeee",
        b"0:",
    ];
    for input in inputs {
        let (value, _) = decode_bencoded_value(input).unwrap();
        let encoded = encode(&value);
        assert_eq!(&encoded[..], input);
        let (again, rest) = decode_bencoded_value(&encoded).unwrap();
        assert_eq!(again, value);
        assert!(rest.is_empty());
    }
}

#[test]
fn keys_in_another_order_encode_alike() {
    let (one, _) = decode_bencoded_value(b"d1:bi1e1:ad1:yi2e1:xi3eee").unwrap();
    let (two, _) = decode_bencoded_value(b"d1:ad1:xi3e1:yi2ee1:bi1ee").unwrap();
    assert_ne!(one, two);
    assert_eq!(encode(&one), encode(&two));
    assert_eq!(encode(&one), b"d1:ad1:xi3e1:yi2ee1:bi1ee");
}

fn outside(value: &Value) -> serde_bencode::value::Value {
    match value {
        Value::Integer(n) => serde_bencode::value::Value::Int(*n),
        Value::ByteString(b) => serde_bencode::value::Value::Bytes(b.clone()),
        Value::List(items) => serde_bencode::value::Value::List(items.iter().map(outside).collect()),
        Value::Dictionary(entries) => {
            let mut map = HashMap::new();
            for (key, item) in entries {
                map.insert(key.clone(), outside(item));
            }
            serde_bencode::value::Value::Dict(map)
        }
    }
}

#[test]
fn encodes_as_serde_bencode_does() {
    let values = vec![
        sample(),
        Value::Integer(i64::MIN),
        text("a string"),
        Value::List(vec![sample(), sample()]),
    ];
    for value in values {
        let expected = serde_bencode::to_bytes(&outside(&value)).unwrap();
        assert_eq!(encode(&value), expected);
    }
}

#[test]
fn decodes_as_serde_bencode_does() {
    let inputs: Vec<&[u8]> = vec![
        b"d3:foo3:bar5:helloi52ee",
        b"l5:helloi52ee",
        b"d1:ad1:bd1:cleeee",
        b"i-42e",
    ];
    for input in inputs {
        let (value, _) = decode_bencoded_value(input).unwrap();
        let expected: serde_bencode::value::Value = serde_bencode::from_bytes(input).unwrap();
        assert_eq!(outside(&value), expected);
    }
}

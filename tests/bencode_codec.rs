use bittorrent::bencode::{decode, encode, DecodeFailure, Value};
use std::collections::HashMap;

fn decoded(s: &[u8]) -> Value {
    let (v, rest) = decode(s).unwrap();
    assert!(rest.is_empty());
    v
}

fn bytes(s: &str) -> Value {
    Value::Bytes(s.as_bytes().to_vec())
}

#[test]
fn decode_integers() {
    assert_eq!(decoded(b"i42e"), Value::Integer(42));
    assert_eq!(decoded(b"i-3e"), Value::Integer(-3));
    assert_eq!(decoded(b"i0e"), Value::Integer(0));
    assert!(decode(b"i00e").is_err());
}

#[test]
fn decode_integer_edge_cases() {
    assert!(decode(b"i-0e").is_err());
    assert!(decode(b"i01e").is_err());
    assert!(decode(b"ie").is_err());
    assert!(decode(b"i-e").is_err());
    assert!(decode(b"i12").is_err());
    assert_eq!(decoded(b"i9223372036854775807e"), Value::Integer(i64::MAX));
    assert_eq!(decoded(b"i-9223372036854775808e"), Value::Integer(i64::MIN));
    let e = decode(b"i9223372036854775808e").unwrap_err();
    assert_eq!(e.reason, DecodeFailure::BadNumber);
    assert!(decode(b"i-9223372036854775809e").is_err());
}

#[test]
fn decode_strings() {
    assert_eq!(decoded(b"5:hello"), bytes("hello"));
    assert_eq!(decoded(b"0:"), bytes(""));
    let e = decode(b"3:ab").unwrap_err();
    assert_eq!(e.reason, DecodeFailure::UnexpectedEnd);
    assert_eq!(decoded(b"05:hello"), bytes("hello"));
    assert_eq!(encode(&decoded(b"05:hello")), b"5:hello".to_vec());
    assert_eq!(decoded(b"00:"), bytes(""));
    assert!(decode(b":").is_err());
    assert!(decode(b"5hello").is_err());
    assert!(decode(b"").is_err());
}

#[test]
fn decode_lists() {
    assert_eq!(
        decoded(b"li1ei2ee"),
        Value::List(vec![Value::Integer(1), Value::Integer(2)])
    );
    assert_eq!(decoded(b"le"), Value::List(vec![]));
    assert!(decode(b"li1e").is_err());
}

#[test]
fn decode_dict_with_sorted_keys() {
    let input = b"d3:cow3:moo4:spam4:eggse";
    let v = decoded(input);
    assert_eq!(
        v,
        Value::Dict(vec![
            (b"cow".to_vec(), bytes("moo")),
            (b"spam".to_vec(), bytes("eggs")),
        ])
    );
    assert_eq!(encode(&v), input.to_vec());
}

#[test]
fn decode_rejects_unsorted_and_repeated_keys() {
    let e = decode(b"d4:spam4:eggs3:cow3:mooe").unwrap_err();
    assert_eq!(e.reason, DecodeFailure::KeyOrder);
    let e = decode(b"d3:cow3:moo3:cow3:mooe").unwrap_err();
    assert_eq!(e.reason, DecodeFailure::KeyOrder);
    assert!(decode(b"di1e3:mooe").is_err());
}

#[test]
fn decode_hands_back_the_rest() {
    let (v, rest) = decode(b"i7eXYZ").unwrap();
    assert_eq!(v, Value::Integer(7));
    assert_eq!(rest, b"XYZ");
    let (v, rest) = decode(b"4:spamlee").unwrap();
    assert_eq!(v, bytes("spam"));
    assert_eq!(rest, b"lee");
}

#[test]
fn encode_then_decode_gives_the_value_back() {
    let values = vec![
        Value::Integer(0),
        Value::Integer(-17),
        Value::Integer(i64::MIN),
        bytes(""),
        Value::Bytes(vec![0, 255, 58, 101]),
        Value::List(vec![]),
        Value::List(vec![
            Value::Integer(1),
            Value::List(vec![bytes("x")]),
            Value::Dict(vec![]),
        ]),
        Value::Dict(vec![
            (b"a".to_vec(), Value::Integer(1)),
            (b"ab".to_vec(), Value::List(vec![Value::Integer(2)])),
            (b"b".to_vec(), Value::Dict(vec![(vec![], bytes("empty key"))])),
        ]),
    ];
    for v in values {
        let b = encode(&v);
        let (back, rest) = decode(&b).unwrap();
        assert!(rest.is_empty());
        assert_eq!(back, v);
    }
}

#[test]
fn decode_then_encode_is_identity_on_canonical_bytes() {
    let inputs: Vec<&[u8]> = vec![
        b"i-42e",
        b"0:",
        b"3:a:b",
        b"l4:spami0ee",
        b"d1:ad1:bleee",
        b"d8:announce3:url4:infod6:lengthi1eee",
    ];
    for b in inputs {
        let (v, rest) = decode(b).unwrap();
        assert!(rest.is_empty());
        assert_eq!(encode(&v), b.to_vec());
    }
}

#[test]
fn encode_writes_integers_and_lengths_in_decimal() {
    assert_eq!(encode(&Value::Integer(92063)), b"i92063e".to_vec());
    assert_eq!(encode(&Value::Integer(-1)), b"i-1e".to_vec());
    assert_eq!(encode(&Value::Bytes(vec![7; 12])).len(), 3 + 12);
    assert_eq!(&encode(&Value::Bytes(vec![7; 12]))[..3], b"12:");
}

#[test]
fn encode_agrees_with_serde_bencode() {
    let mut d = HashMap::new();
    d.insert(b"length".to_vec(), serde_bencode::value::Value::Int(92063));
    d.insert(
        b"name".to_vec(),
        serde_bencode::value::Value::Bytes(b"sample.txt".to_vec()),
    );
    d.insert(
        b"list".to_vec(),
        serde_bencode::value::Value::List(vec![serde_bencode::value::Value::Int(-5)]),
    );
    let theirs = serde_bencode::to_bytes(&serde_bencode::value::Value::Dict(d)).unwrap();
    let ours = encode(&Value::Dict(vec![
        (b"length".to_vec(), Value::Integer(92063)),
        (b"list".to_vec(), Value::List(vec![Value::Integer(-5)])),
        (b"name".to_vec(), bytes("sample.txt")),
    ]));
    assert_eq!(ours, theirs);
}

#[test]
fn encode_sorts_dictionary_keys() {
    let v = Value::Dict(vec![
        (b"spam".to_vec(), bytes("eggs")),
        (b"cow".to_vec(), Value::Dict(vec![
            (b"z".to_vec(), Value::Integer(1)),
            (b"a".to_vec(), Value::Integer(2)),
        ])),
        (b"b".to_vec(), Value::List(vec![Value::Dict(vec![
            (b"y".to_vec(), Value::Integer(3)),
            (b"x".to_vec(), Value::Integer(4)),
        ])])),
    ]);
    assert_eq!(
        encode(&v),
        b"d1:bld1:xi4e1:yi3eee3:cowd1:ai2e1:zi1ee4:spam4:eggse".to_vec()
    );
    let (back, _) = decode(&encode(&v)).unwrap();
    assert_eq!(encode(&back), encode(&v));
}

use bittorrent_core::{
    decode, decode_bytes, encode, BencodeDict, BencodeValue, Error, ValueToString,
};
use serde_bencode::value::Value;
use std::collections::HashMap;

fn bytes(text: &str) -> BencodeValue {
    BencodeValue::ByteString(text.as_bytes().to_vec())
}

fn dict(pairs: Vec<(&str, BencodeValue)>) -> BencodeValue {
    let mut d = BencodeDict::new();
    for (k, v) in pairs {
        d.insert(k.as_bytes().to_vec(), v);
    }
    BencodeValue::Dictionary(d)
}

/// What `serde_bencode` read, in the library's type.
fn from_serde(v: Value) -> BencodeValue {
    match v {
        Value::Int(i) => BencodeValue::Integer(i),
        Value::Bytes(b) => BencodeValue::ByteString(b),
        Value::List(l) => BencodeValue::List(l.into_iter().map(from_serde).collect()),
        Value::Dict(m) => {
            let mut d = BencodeDict::new();
            for (k, v) in m {
                d.insert(k, from_serde(v));
            }
            BencodeValue::Dictionary(d)
        }
    }
}

/// The library's value in the type of `serde_bencode`.
fn to_serde(v: &BencodeValue) -> Value {
    match v {
        BencodeValue::Integer(i) => Value::Int(*i),
        BencodeValue::ByteString(b) => Value::Bytes(b.clone()),
        BencodeValue::List(l) => Value::List(l.iter().map(to_serde).collect()),
        BencodeValue::Dictionary(d) => {
            let mut m = HashMap::new();
            for i in 0..d.len() {
                m.insert(d.key_at(i).clone(), to_serde(d.value_at(i)));
            }
            Value::Dict(m)
        }
    }
}

fn sample() -> BencodeValue {
    dict(vec![
        ("spam", BencodeValue::List(vec![bytes("a"), bytes("b"), BencodeValue::Integer(-7)])),
        ("cow", bytes("moo")),
        ("nested", dict(vec![("z", BencodeValue::Integer(0)), ("a", bytes(""))])),
        ("max", BencodeValue::Integer(i64::MAX)),
        ("min", BencodeValue::Integer(i64::MIN)),
        ("raw", BencodeValue::ByteString(vec![0, 255, 58, 101])),
    ])
}

#[test]
fn decodes_a_byte_string() {
    assert_eq!(decode("5:hello"), Ok(bytes("hello")));
}

#[test]
fn decodes_an_empty_byte_string() {
    assert_eq!(decode("0:"), Ok(bytes("")));
}

#[test]
fn decodes_raw_bytes() {
    assert_eq!(
        decode_bytes(&[51, 58, 0, 255, 101]),
        Ok(BencodeValue::ByteString(vec![0, 255, 101]))
    );
}

#[test]
fn decodes_integers() {
    assert_eq!(decode("i52e"), Ok(BencodeValue::Integer(52)));
    assert_eq!(decode("i-52e"), Ok(BencodeValue::Integer(-52)));
    assert_eq!(decode("i0e"), Ok(BencodeValue::Integer(0)));
}

#[test]
fn decodes_the_ends_of_the_integer_range() {
    assert_eq!(decode("i9223372036854775807e"), Ok(BencodeValue::Integer(i64::MAX)));
    assert_eq!(decode("i-9223372036854775808e"), Ok(BencodeValue::Integer(i64::MIN)));
    assert_eq!(decode("i9223372036854775808e"), Err(Error::MalformedInput));
    assert_eq!(decode("i-9223372036854775809e"), Err(Error::MalformedInput));
    assert_eq!(decode("i99999999999999999999999999999999999999999e"), Err(Error::MalformedInput));
}

#[test]
fn accepts_leading_zeros_and_a_plus_sign() {
    assert_eq!(decode("i007e"), Ok(BencodeValue::Integer(7)));
    assert_eq!(decode("i+5e"), Ok(BencodeValue::Integer(5)));
    assert_eq!(decode("i-01e"), Ok(BencodeValue::Integer(-1)));
    assert_eq!(decode("05:hello"), Ok(bytes("hello")));
}

#[test]
fn rejects_a_negative_zero() {
    assert_eq!(decode("i-0e"), Err(Error::MalformedInput));
    assert_eq!(decode("i-00e"), Err(Error::MalformedInput));
}

#[test]
fn decodes_a_list() {
    assert_eq!(
        decode("l5:helloi52ee"),
        Ok(BencodeValue::List(vec![bytes("hello"), BencodeValue::Integer(52)]))
    );
    assert_eq!(decode("le"), Ok(BencodeValue::List(vec![])));
}

#[test]
fn decodes_a_dictionary() {
    assert_eq!(
        decode("d3:foo3:bar5:helloi52ee"),
        Ok(dict(vec![("foo", bytes("bar")), ("hello", BencodeValue::Integer(52))]))
    );
    assert_eq!(decode("de"), Ok(BencodeValue::Dictionary(BencodeDict::new())));
}

#[test]
fn decodes_keys_that_are_out_of_order() {
    let v = decode("d1:bi2e1:ai1ee").unwrap();
    assert_eq!(v, dict(vec![("a", BencodeValue::Integer(1)), ("b", BencodeValue::Integer(2))]));
    assert_eq!(encode(&v), b"d1:ai1e1:bi2ee".to_vec());
}

#[test]
fn the_last_binding_of_a_key_counts() {
    let v = decode("d1:ai1e1:ai2ee").unwrap();
    assert_eq!(v, dict(vec![("a", BencodeValue::Integer(2))]));
}

#[test]
fn declared_length_exceeds_available_bytes() {
    assert_eq!(decode("5:ab"), Err(Error::MalformedInput));
}

#[test]
fn length_without_colon() {
    assert_eq!(decode("5hello"), Err(Error::MalformedInput));
    assert_eq!(decode("5"), Err(Error::MalformedInput));
}

#[test]
fn length_that_no_machine_holds() {
    assert_eq!(decode("99999999999999999999999999999:a"), Err(Error::MalformedInput));
}

#[test]
fn integer_with_other_than_digits() {
    assert_eq!(decode("i12xe"), Err(Error::MalformedInput));
    assert_eq!(decode("ie"), Err(Error::MalformedInput));
    assert_eq!(decode("i-e"), Err(Error::MalformedInput));
    assert_eq!(decode("i--1e"), Err(Error::MalformedInput));
    assert_eq!(decode("i12"), Err(Error::MalformedInput));
    assert_eq!(decode("i"), Err(Error::MalformedInput));
}

#[test]
fn list_or_dictionary_without_end() {
    assert_eq!(decode("li1e"), Err(Error::MalformedInput));
    assert_eq!(decode("l"), Err(Error::MalformedInput));
    assert_eq!(decode("d1:ai1e"), Err(Error::MalformedInput));
    assert_eq!(decode("d1:a"), Err(Error::MalformedInput));
    assert_eq!(decode("d"), Err(Error::MalformedInput));
}

#[test]
fn key_that_is_no_byte_string() {
    assert_eq!(decode("di1ei2ee"), Err(Error::MalformedInput));
}

#[test]
fn trailing_bytes() {
    assert_eq!(decode("i1ei2e"), Err(Error::MalformedInput));
    assert_eq!(decode("5:hello "), Err(Error::MalformedInput));
    assert_eq!(decode("lee"), Err(Error::MalformedInput));
}

#[test]
fn empty_and_unknown_input() {
    assert_eq!(decode(""), Err(Error::MalformedInput));
    assert_eq!(decode("x"), Err(Error::MalformedInput));
    assert_eq!(decode("e"), Err(Error::MalformedInput));
}

#[test]
fn encodes_each_kind() {
    assert_eq!(encode(&BencodeValue::Integer(-42)), b"i-42e".to_vec());
    assert_eq!(encode(&BencodeValue::Integer(0)), b"i0e".to_vec());
    assert_eq!(encode(&BencodeValue::Integer(i64::MIN)), b"i-9223372036854775808e".to_vec());
    assert_eq!(encode(&bytes("spam")), b"4:spam".to_vec());
    assert_eq!(encode(&bytes("")), b"0:".to_vec());
    assert_eq!(
        encode(&BencodeValue::List(vec![bytes("spam"), BencodeValue::Integer(1)])),
        b"l4:spami1ee".to_vec()
    );
    assert_eq!(
        encode(&BencodeValue::ByteString(vec![7u8; 12])),
        [b"12:".to_vec(), vec![7u8; 12]].concat()
    );
}

#[test]
fn dictionary_keys_come_out_ascending() {
    let v = dict(vec![
        ("zeta", BencodeValue::Integer(1)),
        ("alpha", BencodeValue::Integer(2)),
        ("mid", BencodeValue::Integer(3)),
        ("alp", BencodeValue::Integer(4)),
    ]);
    assert_eq!(encode(&v), b"d3:alpi4e5:alphai2e3:midi3e4:zetai1ee".to_vec());
}

#[test]
fn insertion_order_does_not_show() {
    let a = dict(vec![("b", bytes("x")), ("a", bytes("y")), ("c", bytes("z"))]);
    let b = dict(vec![("c", bytes("z")), ("b", bytes("x")), ("a", bytes("y"))]);
    assert_eq!(a, b);
    assert_eq!(encode(&a), encode(&b));
}

#[test]
fn from_entries_binds_in_order() {
    let d = BencodeDict::from_entries(vec![
        (b"k".to_vec(), BencodeValue::Integer(1)),
        (b"a".to_vec(), BencodeValue::Integer(2)),
        (b"k".to_vec(), BencodeValue::Integer(3)),
    ]);
    assert_eq!(d.len(), 2);
    assert_eq!(d.key_at(0), &b"a".to_vec());
    assert_eq!(d.value_at(0), &BencodeValue::Integer(2));
    assert_eq!(d.get(b"k"), Some(&BencodeValue::Integer(3)));
    assert_eq!(d.get(b"missing"), None);
}

#[test]
fn keys_are_ordered_by_bytes() {
    let mut d = BencodeDict::new();
    d.insert(vec![0x80], BencodeValue::Integer(1));
    d.insert(vec![0x7f, 0xff], BencodeValue::Integer(2));
    d.insert(vec![], BencodeValue::Integer(3));
    d.insert(vec![0x7f], BencodeValue::Integer(4));
    assert_eq!(d.key_at(0), &Vec::<u8>::new());
    assert_eq!(d.key_at(1), &vec![0x7f]);
    assert_eq!(d.key_at(2), &vec![0x7f, 0xff]);
    assert_eq!(d.key_at(3), &vec![0x80]);
}

#[test]
fn a_copy_holds_the_same_value() {
    let v = sample();
    let copy = v.clone();
    assert_eq!(copy, v);
    assert_eq!(encode(&copy), encode(&v));
}

#[test]
fn decoding_what_was_encoded_gives_the_value() {
    let v = sample();
    assert_eq!(decode_bytes(&encode(&v)), Ok(sample()));
}

#[test]
fn encoding_what_was_decoded_gives_canonical_bytes() {
    let canonical = b"d3:cow3:moo4:spaml1:a1:bee".to_vec();
    let v = decode_bytes(&canonical).unwrap();
    assert_eq!(encode(&v), canonical);
}

#[test]
fn agrees_with_serde_bencode_on_encoding() {
    let v = sample();
    assert_eq!(encode(&v), serde_bencode::to_bytes(&to_serde(&v)).unwrap());
}

#[test]
fn agrees_with_serde_bencode_on_decoding() {
    let inputs: Vec<&[u8]> = vec![
        b"i0e",
        b"i-17e",
        b"4:spam",
        b"0:",
        b"le",
        b"de",
        b"l4:spami42eli1ei2eee",
        b"d3:bar4:spam3:fooi42ee",
        b"d1:bi2e1:ai1ee",
        b"d4:infod6:lengthi10e4:name1:x12:piece lengthi4e6:pieces0:ee",
    ];
    for input in inputs {
        let theirs: Value = serde_bencode::from_bytes(input).unwrap();
        assert_eq!(decode_bytes(input), Ok(from_serde(theirs)));
    }
}

#[test]
fn shows_an_integer() {
    assert_eq!(decode("i52e").unwrap().to_string(), Ok("52".to_string()));
    assert_eq!(decode("i-52e").unwrap().to_string(), Ok("-52".to_string()));
}

#[test]
fn shows_a_byte_string_in_quotes() {
    assert_eq!(decode("5:hello").unwrap().to_string(), Ok("\"hello\"".to_string()));
}

#[test]
fn shows_a_byte_string_with_escapes() {
    assert_eq!(bytes("a\"b\\c\n").to_string(), Ok("\"a\\\"b\\\\c\\n\"".to_string()));
}

#[test]
fn shows_text_beyond_ascii() {
    assert_eq!(bytes("grüße").to_string(), Ok("\"grüße\"".to_string()));
}

#[test]
fn shows_a_list() {
    assert_eq!(decode("l5:helloi52ee").unwrap().to_string(), Ok("[\"hello\",52]".to_string()));
    assert_eq!(decode("le").unwrap().to_string(), Ok("[]".to_string()));
    assert_eq!(decode("lli1eee").unwrap().to_string(), Ok("[[1]]".to_string()));
}

#[test]
fn shows_a_dictionary_in_key_order() {
    assert_eq!(
        decode("d5:helloi52e3:foo3:bare").unwrap().to_string(),
        Ok("{\"foo\":\"bar\",\"hello\":52}".to_string())
    );
    assert_eq!(decode("de").unwrap().to_string(), Ok("{}".to_string()));
}

#[test]
fn shows_a_key_that_is_no_text_with_replacement_characters() {
    let mut d = BencodeDict::new();
    d.insert(vec![b'a', 0xff], BencodeValue::Integer(1));
    assert_eq!(
        BencodeValue::Dictionary(d).to_string(),
        Ok("{\"a\u{fffd}\":1}".to_string())
    );
}

#[test]
fn a_byte_string_that_is_no_text_cannot_be_shown() {
    assert_eq!(BencodeValue::ByteString(vec![0xff, 0xfe]).to_string(), Err(Error::InvalidUtf8));
    let nested = BencodeValue::List(vec![
        BencodeValue::Integer(1),
        dict(vec![("k", BencodeValue::ByteString(vec![0xc0]))]),
    ]);
    assert_eq!(nested.to_string(), Err(Error::InvalidUtf8));
}

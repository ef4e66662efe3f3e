use bittorrent::bencode::{bencode_value, decode_value, decode_value_str, Value};
use bittorrent::error::Error;
use bittorrent::json::{decode_command, json_encode_value};

fn round_trip(input: &str) -> Vec<u8> {
    let value = decode_value_str(input).unwrap();
    bencode_value(&value)
}

#[test]
fn test_parse() {
    let res = decode_value_str("6:hello:").unwrap();
    assert_eq!(Value::Str("hello:".as_bytes().to_vec()), res);
    assert_eq!("\"hello:\"", json_encode_value(&res).unwrap());

    let res = decode_value_str("i52e").unwrap();
    assert_eq!(Value::Int(52), res);
    assert_eq!("52", json_encode_value(&res).unwrap());
    let res = decode_value_str("i-52e").unwrap();
    assert_eq!(Value::Int(-52), res);
    assert_eq!("-52", json_encode_value(&res).unwrap());

    let res = decode_value_str("l5:helloi52ee").unwrap();
    let expected = Value::List(vec![Value::Str("hello".as_bytes().to_vec()), Value::Int(52)]);
    assert_eq!(expected, res);
    assert_eq!("[\"hello\",52]", json_encode_value(&res).unwrap());
    let res = decode_value_str("ll5:helloi52eee").unwrap();
    let expected = Value::List(vec![Value::Str("hello".as_bytes().to_vec()), Value::Int(52)]);
    assert_eq!(Value::List(vec![expected]), res);
    assert_eq!("[[\"hello\",52]]", json_encode_value(&res).unwrap());

    let res = decode_value_str("d3:foo3:bar5:helloi52ee").unwrap();
    let expected = vec![
        ("foo".as_bytes().to_vec(), Value::Str("bar".as_bytes().to_vec())),
        ("hello".as_bytes().to_vec(), Value::Int(52)),
    ];
    assert_eq!(Value::Dict(expected), res);
    assert_eq!("{\"foo\":\"bar\",\"hello\":52}", json_encode_value(&res).unwrap());
}

#[test]
fn integers_round_trip_and_negative_zero_is_rejected() {
    assert_eq!(b"i0e".to_vec(), round_trip("i0e"));
    assert_eq!(b"i-52e".to_vec(), round_trip("i-52e"));
    assert_eq!(Err(Error::Malformed), decode_value_str("i-0e"));
    assert_eq!(Err(Error::Malformed), decode_value_str("i03e"));
    assert_eq!(Err(Error::Malformed), decode_value_str("ie"));
    assert_eq!(Err(Error::Malformed), decode_value_str("i-e"));
    assert_eq!(Err(Error::Malformed), decode_value_str("i12"));
}

#[test]
fn integer_limits() {
    assert_eq!(Value::Int(i64::MAX), decode_value_str("i9223372036854775807e").unwrap());
    assert_eq!(Value::Int(i64::MIN), decode_value_str("i-9223372036854775808e").unwrap());
    assert_eq!(Err(Error::Malformed), decode_value_str("i9223372036854775808e"));
    assert_eq!(Err(Error::Malformed), decode_value_str("i-9223372036854775809e"));
    assert_eq!(b"i-9223372036854775808e".to_vec(), round_trip("i-9223372036854775808e"));
}

#[test]
fn empty_list_and_dict_round_trip() {
    assert_eq!(Value::List(vec![]), decode_value_str("le").unwrap());
    assert_eq!(b"le".to_vec(), round_trip("le"));
    assert_eq!(Value::Dict(vec![]), decode_value_str("de").unwrap());
    assert_eq!(b"de".to_vec(), round_trip("de"));
    assert_eq!("[]", json_encode_value(&Value::List(vec![])).unwrap());
    assert_eq!("{}", json_encode_value(&Value::Dict(vec![])).unwrap());
}

#[test]
fn delimiter_inside_string_round_trips() {
    assert_eq!(b"6:hello:".to_vec(), round_trip("6:hello:"));
    assert_eq!(b"5:a:b:c".to_vec(), round_trip("5:a:b:c"));
    assert_eq!(b"0:".to_vec(), round_trip("0:"));
}

#[test]
fn decode_then_encode_keeps_canonical_input() {
    let input = "d4:infod6:lengthi92063e4:name10:sample.txtee";
    assert_eq!(input.as_bytes().to_vec(), round_trip(input));
    assert_eq!(b"i-52e".to_vec(), round_trip("i-52e"));
}

#[test]
fn dict_keys_are_sorted_and_unique() {
    let res = decode_value_str("d5:helloi52e3:foo3:bare").unwrap();
    assert_eq!(b"d3:foo3:bar5:helloi52ee".to_vec(), bencode_value(&res));
    assert_eq!(Err(Error::Malformed), decode_value_str("d3:fooi1e3:fooi2ee"));
    assert_eq!(Err(Error::Malformed), decode_value_str("di1ei2ee"));
}

#[test]
fn malformed_inputs_are_rejected() {
    assert_eq!(Err(Error::Malformed), decode_value_str(""));
    assert_eq!(Err(Error::Malformed), decode_value_str("i52ei1e"));
    assert_eq!(Err(Error::Malformed), decode_value_str("7:hello"));
    assert_eq!(Err(Error::Malformed), decode_value_str("5hello"));
    assert_eq!(Err(Error::Malformed), decode_value_str("l5:hello"));
    assert_eq!(Err(Error::Malformed), decode_value_str("d3:foo"));
    assert_eq!(Err(Error::Malformed), decode_value_str("x"));
}

#[test]
fn binary_strings_decode_but_have_no_json() {
    let bytes = [b'2', b':', 0xff, 0xfe];
    let value = decode_value(&bytes).unwrap();
    assert_eq!(Value::Str(vec![0xff, 0xfe]), value);
    assert_eq!(bytes.to_vec(), bencode_value(&value));
    assert_eq!(Err(Error::Malformed), json_encode_value(&value));
}

#[test]
fn decode_command_gives_json() {
    assert_eq!("\"hello:\"", decode_command("6:hello:").unwrap());
    assert_eq!("-52", decode_command("i-52e").unwrap());
    assert_eq!("{\"foo\":\"bar\",\"hello\":52}", decode_command("d3:foo3:bar5:helloi52ee").unwrap());
    assert_eq!(Err(Error::Malformed), decode_command("i52"));
}

#[test]
fn variant_names() {
    assert_eq!("int", Value::Int(1).get_variant_name());
    assert_eq!("string", Value::Str(vec![]).get_variant_name());
    assert_eq!("list", Value::List(vec![]).get_variant_name());
    assert_eq!("dictionary", Value::Dict(vec![]).get_variant_name());
}

#[test]
fn json_strings_are_escaped() {
    assert_eq!("\"a\\\"b\"", decode_command("3:a\"b").unwrap());
    assert_eq!("\"a\\\\b\"", decode_command("3:a\\b").unwrap());
    assert_eq!("\"\\u0001\\u001f\"", json_encode_value(&Value::Str(vec![1, 0x1f])).unwrap());
    assert_eq!("{\"k\\\"\":\"\u{e9}\"}", decode_command("d2:k\"2:\u{e9}e").unwrap());
}

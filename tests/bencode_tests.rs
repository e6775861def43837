use bittorrent::bencode::{decode_bencoded, decode_bencoded_from_str, Value};
use bittorrent::error::Error;

fn to_json(value: &Value) -> serde_json::Value {
    match value {
        Value::Number(number) => serde_json::Value::from(*number),
        Value::String(bytes) => {
            let text: String = bytes.iter().map(|b| *b as char).collect();
            serde_json::Value::String(text)
        }
        Value::List(values) => serde_json::Value::Array(values.iter().map(to_json).collect()),
        Value::Object(entries) => {
            let mut object = serde_json::Map::new();
            for (key, value) in entries {
                let text: String = key.iter().map(|b| *b as char).collect();
                object.insert(text, to_json(value));
            }
            serde_json::Value::Object(object)
        }
    }
}

fn object(pairs: Vec<(&str, serde_json::Value)>) -> serde_json::Value {
    let mut map = serde_json::Map::new();
    for (key, value) in pairs {
        map.insert(key.to_string(), value);
    }
    serde_json::Value::Object(map)
}

fn text(s: &str) -> serde_json::Value {
    serde_json::Value::String(s.to_string())
}

#[test]
fn decode_bencoded_string() {
    assert_eq!(to_json(&decode_bencoded_from_str("4:spam").unwrap()), text("spam"));
}

#[test]
fn decode_bencoded_integers() {
    assert_eq!(to_json(&decode_bencoded_from_str("i52e").unwrap()), serde_json::Value::from(52));
}

#[test]
fn decode_bencoded_lists() {
    assert_eq!(
        to_json(&decode_bencoded_from_str("l5:helloi52ee").unwrap()),
        serde_json::Value::Array(vec![text("hello"), serde_json::Value::from(52)])
    );
}

#[test]
fn decode_bencoded_dictionary() {
    assert_eq!(
        to_json(&decode_bencoded_from_str("d3:foo3:bar5:helloi52ee").unwrap()),
        object(vec![("foo", text("bar")), ("hello", serde_json::Value::from(52))])
    );
}

#[test]
fn decode_empty_bencoded_dictionary() {
    assert_eq!(to_json(&decode_bencoded_from_str("de").unwrap()), object(vec![]));
}

#[test]
fn decode_bencoded_dictionary_which_misses_value() {
    assert_eq!(
        to_json(&decode_bencoded_from_str("d3:foo3:bar5:helloe").unwrap()),
        object(vec![("foo", text("bar"))])
    );
}

#[test]
fn decode_bencoded_nested_object() {
    assert_eq!(
        to_json(&decode_bencoded_from_str("d10:inner_dictd4:key16:value14:key2i42eee").unwrap()),
        object(vec![(
            "inner_dict",
            object(vec![("key1", text("value1")), ("key2", serde_json::Value::from(42))])
        )])
    );
}

#[test]
fn decode_bencoded_objects_in_an_array() {
    assert_eq!(
        to_json(&decode_bencoded_from_str("ld4:key16:value1ed4:key26:value2ed4:key36:value3ee").unwrap()),
        serde_json::Value::Array(vec![
            object(vec![("key1", text("value1"))]),
            object(vec![("key2", text("value2"))]),
            object(vec![("key3", text("value3"))]),
        ])
    );
}

#[test]
fn decodes_list_into_values() {
    assert_eq!(
        decode_bencoded_from_str("l5:helloi52ee").unwrap(),
        Value::List(vec![Value::String(b"hello".to_vec()), Value::Number(52)])
    );
}

#[test]
fn decodes_negative_and_zero_padded_integers() {
    assert_eq!(decode_bencoded_from_str("i-42e").unwrap(), Value::Number(-42));
    assert_eq!(decode_bencoded_from_str("i007e").unwrap(), Value::Number(7));
    assert_eq!(decode_bencoded_from_str("i-0e").unwrap(), Value::Number(0));
    assert_eq!(
        decode_bencoded_from_str("i-9223372036854775808e").unwrap(),
        Value::Number(i64::MIN)
    );
    assert_eq!(
        decode_bencoded_from_str("i9223372036854775807e").unwrap(),
        Value::Number(i64::MAX)
    );
}

#[test]
fn rejects_integers_out_of_range_or_malformed() {
    assert_eq!(decode_bencoded_from_str("i9223372036854775808e"), Err(Error::Decode));
    assert_eq!(decode_bencoded_from_str("ie"), Err(Error::Decode));
    assert_eq!(decode_bencoded_from_str("i-e"), Err(Error::Decode));
    assert_eq!(decode_bencoded_from_str("i1x2e"), Err(Error::Decode));
    assert_eq!(decode_bencoded_from_str("i12"), Err(Error::Decode));
}

#[test]
fn rejects_truncated_input() {
    assert_eq!(decode_bencoded_from_str(""), Err(Error::Decode));
    assert_eq!(decode_bencoded_from_str("5:abc"), Err(Error::Decode));
    assert_eq!(decode_bencoded_from_str("l5:hello"), Err(Error::Decode));
    assert_eq!(decode_bencoded_from_str("d3:foo"), Err(Error::Decode));
    assert_eq!(decode_bencoded_from_str("3abc"), Err(Error::Decode));
    assert_eq!(decode_bencoded_from_str("x"), Err(Error::Decode));
}

#[test]
fn rejects_dictionary_keys_that_are_not_byte_strings() {
    assert_eq!(decode_bencoded_from_str("di1e3:fooe"), Err(Error::Decode));
}

#[test]
fn duplicate_key_keeps_last_value_in_first_place() {
    assert_eq!(
        decode_bencoded_from_str("d1:ai1e1:bi2e1:ai3ee").unwrap(),
        Value::Object(vec![(b"a".to_vec(), Value::Number(3)), (b"b".to_vec(), Value::Number(2))])
    );
}

#[test]
fn decodes_raw_bytes_without_utf8() {
    let input: Vec<u8> = vec![b'3', b':', 0xff, 0x00, 0x80];
    assert_eq!(decode_bencoded(&input).unwrap(), Value::String(vec![0xff, 0x00, 0x80]));
}

#[test]
fn ignores_bytes_after_the_value() {
    assert_eq!(decode_bencoded_from_str("i1eXYZ").unwrap(), Value::Number(1));
}

#[test]
fn value_accessors() {
    let value = decode_bencoded_from_str("d4:listli1ei2ee3:numi7e3:str2:hie").unwrap();
    assert_eq!(value.get_by_key("num").unwrap().as_number(), Some(7));
    assert_eq!(value.get_by_key("str").unwrap().as_string(), Some("hi".to_string()));
    assert_eq!(value.get_by_key("str").unwrap().as_bytes(), Some(b"hi".to_vec()));
    assert_eq!(value.get_by_key("list").unwrap().as_values().unwrap().len(), 2);
    assert!(value.get_by_key("missing").is_none());
    assert_eq!(value.get_by_key("num").unwrap().as_string(), None);
    assert_eq!(value.get_by_key("str").unwrap().as_number(), None);
    assert!(value.get_by_key("num").unwrap().as_values().is_none());
    let invalid = decode_bencoded(&vec![b'1', b':', 0xff]).unwrap();
    assert_eq!(invalid.as_string(), None);
}

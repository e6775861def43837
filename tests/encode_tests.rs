use bittorrent::bencode::{decode_bencoded_from_str, Value};
use bittorrent::encode::{bytes_less, encode};

fn reencode(input: &str) -> String {
    String::from_utf8(encode(&decode_bencoded_from_str(input).unwrap())).unwrap()
}

#[test]
fn encodes_each_kind_of_value() {
    assert_eq!(reencode("i52e"), "i52e");
    assert_eq!(reencode("i-42e"), "i-42e");
    assert_eq!(reencode("i0e"), "i0e");
    assert_eq!(reencode("4:spam"), "4:spam");
    assert_eq!(reencode("0:"), "0:");
    assert_eq!(reencode("l5:helloi52ee"), "l5:helloi52ee");
    assert_eq!(reencode("le"), "le");
    assert_eq!(reencode("de"), "de");
}

#[test]
fn integers_lose_leading_zeros_and_negative_zero() {
    assert_eq!(reencode("i007e"), "i7e");
    assert_eq!(reencode("i-0e"), "i0e");
    assert_eq!(
        String::from_utf8(encode(&Value::Number(i64::MIN))).unwrap(),
        "i-9223372036854775808e"
    );
}

#[test]
fn dictionary_keys_are_sorted_by_bytes() {
    assert_eq!(reencode("d1:bi2e1:ai1ee"), "d1:ai1e1:bi2ee");
    assert_eq!(reencode("d2:ab1:x1:a1:y1:b1:ze"), "d1:a1:y2:ab1:x1:b1:ze");
    assert_eq!(
        reencode("d5:outerd1:z1:11:a1:2ee"),
        "d5:outerd1:a1:21:z1:1ee"
    );
}

#[test]
fn canonical_info_dictionary_round_trips() {
    let info = "d6:lengthi92063e4:name10:sample.txt12:piece lengthi32768e6:pieces20:00000000000000000000e";
    assert_eq!(reencode(info), info);
}

#[test]
fn byte_order_is_lexicographic() {
    assert!(bytes_less(b"a", b"b"));
    assert!(bytes_less(b"a", b"ab"));
    assert!(!bytes_less(b"ab", b"a"));
    assert!(!bytes_less(b"a", b"a"));
    assert!(bytes_less(b"", b"a"));
    assert!(bytes_less(&[0x7f], &[0x80]));
}

use bittorrent::bencode::{decode_bytes, decode_str, encode_to_raw, encode_to_str, Error, Token};

fn bytes(s: &str) -> Token {
    Token::ByteString(s.as_bytes().to_vec())
}

fn ints(v: &[i64]) -> Token {
    Token::List(v.iter().map(|i| Token::Integer(*i)).collect())
}

#[test]
fn decode_to_num() {
    let r = decode_str("i666e").unwrap();
    assert_eq!(r, Token::Integer(666));
}

#[test]
fn decode_to_string() {
    let r = decode_str("3:yes").unwrap();
    assert_eq!(r, bytes("yes"));
}

#[test]
fn decode_to_struct() {
    let b = "d1:xi1111e1:y3:dog1:z2:yoe";
    let r = decode_str(b).unwrap();
    assert_eq!(r.dict_get(b"x"), Some(&Token::Integer(1111)));
    assert_eq!(r.dict_get(b"y"), Some(&bytes("dog")));
    assert_eq!(r.dict_get(b"z"), Some(&bytes("yo")));
    assert_eq!(r.dict_get(b"a"), None);
}

#[test]
fn decode_to_map() {
    let b = "d1:xi1111e1:y3:doge";
    let r = decode_str(b).unwrap();
    let d = vec![
        (b"x".to_vec(), Token::Integer(1111)),
        (b"y".to_vec(), bytes("dog")),
    ];
    assert_eq!(r, Token::Dictionary(d));
}

#[test]
fn deserialize_to_vec() {
    let r = decode_str("li666ee").unwrap();
    assert_eq!(r, ints(&[666]));
}

#[test]
fn serialize_string() {
    let r = encode_to_str(&bytes("foo")).unwrap();
    assert_eq!(r, "3:foo")
}

#[test]
fn serialize_num() {
    let r = encode_to_str(&Token::Integer(999)).unwrap();
    assert_eq!(r, "i999e")
}

#[test]
fn serialize_vec() {
    let r = encode_to_str(&Token::List(vec![bytes("fooo"), bytes("bar")])).unwrap();
    assert_eq!(r, "l4:fooo3:bare")
}

#[test]
fn test_serialization() {
    let d = Token::Dictionary(vec![
        (b"foo".to_vec(), ints(&[1, 2, 3])),
        (b"bar".to_vec(), ints(&[4, 5, 6])),
    ]);
    let s = Token::Dictionary(vec![
        (b"a".to_vec(), bytes("foo")),
        (b"b".to_vec(), Token::Integer(999)),
        (b"c".to_vec(), ints(&[1, 2, 3])),
        (b"d".to_vec(), d),
    ]);
    let out = encode_to_str(&s).unwrap();
    assert_eq!(out, "d1:a3:foo1:bi999e1:cli1ei2ei3ee1:dd3:barli4ei5ei6ee3:fooli1ei2ei3eeee".to_string());
}

#[test]
fn serialize_struct() {
    let f = Token::Dictionary(vec![
        (b"x".to_vec(), Token::Integer(1111)),
        (b"y".to_vec(), bytes("dog")),
    ]);
    assert_eq!(encode_to_str(&f).unwrap(), "d1:xi1111e1:y3:doge");
}

#[test]
fn serialize_lexical_sorted_keys() {
    let f = Token::Dictionary(vec![
        (b"aaa".to_vec(), Token::Integer(1)),
        (b"bb".to_vec(), Token::Integer(2)),
        (b"z".to_vec(), Token::Integer(3)),
        (b"c".to_vec(), Token::Integer(4)),
    ]);
    assert_eq!(encode_to_str(&f).unwrap(), "d3:aaai1e2:bbi2e1:ci4e1:zi3ee");
}

#[test]
fn encode_then_decode_gives_back_the_token() {
    let t = Token::Dictionary(vec![
        (b"a".to_vec(), Token::List(vec![Token::Integer(-7), bytes(""), Token::Integer(i64::MIN)])),
        (b"b".to_vec(), Token::Dictionary(vec![(b"k".to_vec(), Token::Integer(i64::MAX))])),
    ]);
    let raw = encode_to_raw(&t).unwrap();
    assert_eq!(decode_bytes(&raw).unwrap(), t);
}

#[test]
fn later_key_replaces_earlier_and_is_written_once() {
    let t = Token::Dictionary(vec![
        (b"k".to_vec(), Token::Integer(1)),
        (b"k".to_vec(), Token::Integer(2)),
    ]);
    assert_eq!(encode_to_str(&t).unwrap(), "d1:ki2ee");
    let d = decode_str("d1:ki1e1:ki2ee").unwrap();
    assert_eq!(d.dict_get(b"k"), Some(&Token::Integer(2)));
}

#[test]
fn integers_parse_as_i64_from_str() {
    assert_eq!(decode_str("i-42e").unwrap(), Token::Integer(-42));
    assert_eq!(decode_str("i+5e").unwrap(), Token::Integer(5));
    assert_eq!(decode_str("i007e").unwrap(), Token::Integer(7));
    assert_eq!(decode_str("i-9223372036854775808e").unwrap(), Token::Integer(i64::MIN));
    assert!(matches!(decode_str("i9223372036854775808e"), Err(Error::Custom(_))));
    assert!(matches!(decode_str("i-e"), Err(Error::Custom(_))));
    assert!(matches!(decode_str("ie"), Err(Error::Custom(_))));
    assert!(matches!(decode_str("i12"), Err(Error::EOF)));
}

#[test]
fn decode_errors() {
    assert!(matches!(decode_str(""), Err(Error::EOF)));
    assert!(matches!(decode_str("e"), Err(Error::EOF)));
    assert!(matches!(decode_str("x"), Err(Error::InvalidToken { .. })));
    assert!(matches!(decode_str("5:abc"), Err(Error::EOF)));
    assert!(matches!(decode_str("3x:abc"), Err(Error::Custom(_))));
    assert!(matches!(decode_str("di1ei2ee"), Err(Error::InvalidType(_))));
    assert!(matches!(decode_str("l1:a"), Err(Error::EOF)));
}

#[test]
fn trailing_bytes_are_not_read() {
    assert_eq!(decode_str("i1eXYZ").unwrap(), Token::Integer(1));
    assert_eq!(decode_str("0:").unwrap(), bytes(""));
}

#[test]
fn non_utf8_output_is_refused_as_text() {
    let t = Token::ByteString(vec![0xff]);
    assert!(matches!(encode_to_str(&t), Err(Error::Custom(_))));
    assert_eq!(encode_to_raw(&t).unwrap(), vec![b'1', b':', 0xff]);
}

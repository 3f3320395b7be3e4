use bittorrent_core::bencode::BencodeValue;
use bittorrent_core::parsing::DisplayValue;
use bittorrent_core::parsing::Torrent;
use bittorrent_core::parsing::ENCODED;
use bittorrent_core::types::TorrentError;

fn bs(s: &str) -> BencodeValue {
    BencodeValue::ByteString(s.as_bytes().to_vec())
}

#[test]
fn encode_byte_string() {
    assert_eq!(bs("spam").encode(), b"4:spam".to_vec());
    assert_eq!(bs("").encode(), b"0:".to_vec());
}

#[test]
fn encode_integers() {
    assert_eq!(BencodeValue::Integer(52).encode(), b"i52e".to_vec());
    assert_eq!(BencodeValue::Integer(-42).encode(), b"i-42e".to_vec());
    assert_eq!(BencodeValue::Integer(0).encode(), b"i0e".to_vec());
    assert_eq!(
        BencodeValue::Integer(i64::MIN).encode(),
        b"i-9223372036854775808e".to_vec()
    );
}

#[test]
fn encode_list_and_dictionary() {
    let l = BencodeValue::List(vec![bs("spam"), BencodeValue::Integer(7)]);
    assert_eq!(l.encode(), b"l4:spami7ee".to_vec());
    let d = BencodeValue::Dictionary(vec![
        (b"a".to_vec(), BencodeValue::Integer(1)),
        (b"b".to_vec(), bs("x")),
    ]);
    assert_eq!(d.encode(), b"d1:ai1e1:b1:xe".to_vec());
}

#[test]
fn round_trip_nested_value() {
    let v = BencodeValue::Dictionary(vec![
        (
            b"a".to_vec(),
            BencodeValue::List(vec![BencodeValue::Integer(1), bs("x")]),
        ),
        (b"b".to_vec(), BencodeValue::Integer(-7)),
    ]);
    let encoded = v.encode();
    let decoded = BencodeValue::decode(&encoded).expect("canonical value decodes");
    assert_eq!(decoded, v);
    assert_eq!(decoded.encode(), encoded);
}

#[test]
fn decode_rejects_malformed_input() {
    assert!(BencodeValue::decode(&b"4:spa".to_vec()).is_err());
    assert!(BencodeValue::decode(&b"i-0e".to_vec()).is_err());
    assert!(BencodeValue::decode(&b"i03e".to_vec()).is_err());
    assert!(BencodeValue::decode(&b"l4:spam".to_vec()).is_err());
    assert!(BencodeValue::decode(&b"d1:a".to_vec()).is_err());
    assert!(BencodeValue::decode(&b"i3ex".to_vec()).is_err());
    assert!(BencodeValue::decode(&b"x".to_vec()).is_err());
    assert!(BencodeValue::decode(&b"".to_vec()).is_err());
}

#[test]
fn decode_rejects_unsorted_dictionary() {
    assert!(BencodeValue::decode(&b"d1:b1:x1:a1:ye".to_vec()).is_err());
}

#[test]
fn decode_error_is_format() {
    match BencodeValue::decode(&b"i-0e".to_vec()) {
        Err(TorrentError::Format(_)) => {}
        other => panic!("expected a format error, got {:?}", other),
    }
}

#[test]
fn dictionary_insert_is_order_independent() {
    let mut d1 = BencodeValue::Dictionary(Vec::new());
    d1.dict_insert(b"zeta".to_vec(), BencodeValue::Integer(1))
        .unwrap();
    d1.dict_insert(b"alpha".to_vec(), BencodeValue::Integer(2))
        .unwrap();
    d1.dict_insert(b"mid".to_vec(), BencodeValue::Integer(3))
        .unwrap();
    let mut d2 = BencodeValue::Dictionary(Vec::new());
    d2.dict_insert(b"mid".to_vec(), BencodeValue::Integer(3))
        .unwrap();
    d2.dict_insert(b"alpha".to_vec(), BencodeValue::Integer(2))
        .unwrap();
    d2.dict_insert(b"zeta".to_vec(), BencodeValue::Integer(1))
        .unwrap();
    assert_eq!(d1, d2);
    assert_eq!(d1.encode(), b"d5:alphai2e3:midi3e4:zetai1ee".to_vec());
}

#[test]
fn dictionary_insert_replaces_equal_key() {
    let mut d = BencodeValue::Dictionary(Vec::new());
    d.dict_insert(b"k".to_vec(), BencodeValue::Integer(1)).unwrap();
    d.dict_insert(b"k".to_vec(), BencodeValue::Integer(2)).unwrap();
    assert_eq!(d.encode(), b"d1:ki2ee".to_vec());
}

#[test]
fn convert_renders_text_numbers_and_containers() {
    let d = Torrent::decode_bencoded_value(ENCODED::String(
        "d3:foo3:bar5:helloi52ee".to_string(),
    ))
    .unwrap();
    assert_eq!(
        d,
        DisplayValue::Object(vec![
            ("foo".to_string(), DisplayValue::Text("bar".to_string())),
            ("hello".to_string(), DisplayValue::Number(52)),
        ])
    );
}

#[test]
fn convert_renders_non_utf8_bytes_as_lowercase_hex() {
    let v = BencodeValue::ByteString(vec![0xff, 0x00, 0xab]);
    let d = Torrent::convert(&v).unwrap();
    assert_eq!(d, DisplayValue::Text("ff00ab".to_string()));
}

#[test]
fn convert_rejects_non_utf8_dictionary_key() {
    let v = BencodeValue::Dictionary(vec![(vec![0xff], BencodeValue::Integer(1))]);
    match Torrent::convert(&v) {
        Err(TorrentError::Format(_)) => {}
        other => panic!("expected a format error, got {:?}", other),
    }
}

#[test]
fn decode_bencoded_value_accepts_raw_bytes() {
    let d = Torrent::decode_bencoded_value(ENCODED::Bytes(b"li1ei2ee".to_vec())).unwrap();
    assert_eq!(
        d,
        DisplayValue::Array(vec![DisplayValue::Number(1), DisplayValue::Number(2)])
    );
}

#[test]
fn round_trip_extreme_integers() {
    for v in [
        BencodeValue::Integer(i64::MIN),
        BencodeValue::Integer(i64::MAX),
        BencodeValue::Integer(-1),
    ] {
        let encoded = v.encode();
        assert_eq!(BencodeValue::decode(&encoded).unwrap(), v);
    }
}

#[test]
fn text_and_byte_inputs_decode_alike() {
    let from_text =
        Torrent::decode_bencoded_value(ENCODED::String("l4:spami7ee".to_string())).unwrap();
    let from_bytes =
        Torrent::decode_bencoded_value(ENCODED::Bytes(b"l4:spami7ee".to_vec())).unwrap();
    assert_eq!(from_text, from_bytes);
}

#[test]
fn decode_rejects_integer_beyond_64_bits() {
    assert!(BencodeValue::decode(&b"i9223372036854775808e".to_vec()).is_err());
    assert!(BencodeValue::decode(&b"i-9223372036854775809e".to_vec()).is_err());
    let min = BencodeValue::decode(&b"i-9223372036854775808e".to_vec()).unwrap();
    assert_eq!(min, BencodeValue::Integer(i64::MIN));
}

#[test]
fn decode_bencoded_value_rejects_malformed_with_format_error() {
    for bad in ["4:spa", "x:abc", "li1e", "i-0e", "d1:b1:x1:a1:ye"] {
        match Torrent::decode_bencoded_value(ENCODED::String(bad.to_string())) {
            Err(TorrentError::Format(_)) => {}
            other => panic!("expected a format error for {:?}, got {:?}", bad, other),
        }
    }
}

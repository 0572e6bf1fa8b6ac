use resp::keys::{key_order, KeyOrder};
use resp::{
    decode_map, BulkString, DecodeError, Malformed, RespArray, RespEncode, RespFrame, RespMap,
    SimpleString,
};

fn simple(text: &str) -> SimpleString {
    SimpleString::new(text.to_string()).unwrap()
}

fn keys(map: &RespMap) -> Vec<String> {
    map.entries().iter().map(|(k, _)| k.as_str().to_string()).collect()
}

#[test]
fn map_ordering() {
    let mut map = RespMap::new();
    map.insert(simple("b"), RespFrame::Integer(2));
    map.insert(simple("a"), RespFrame::Integer(1));
    assert_eq!(keys(&map), vec!["a".to_string(), "b".to_string()]);
    assert_eq!(map.encode().unwrap(), b"*2\r\n+a\r\n:+1\r\n+b\r\n:+2\r\n".to_vec());
}

#[test]
fn map_order_is_independent_of_insertion_order() {
    let names = ["delta", "alpha", "charlie", "bravo", "", "alphabet", "Zulu"];
    let mut forward = RespMap::new();
    for (i, name) in names.iter().enumerate() {
        forward.insert(simple(name), RespFrame::Integer(i as i64));
    }
    let mut backward = RespMap::new();
    for (i, name) in names.iter().enumerate().rev() {
        backward.insert(simple(name), RespFrame::Integer(i as i64));
    }
    assert_eq!(forward, backward);
    assert_eq!(
        keys(&forward),
        vec!["", "Zulu", "alpha", "alphabet", "bravo", "charlie", "delta"]
            .into_iter()
            .map(|s| s.to_string())
            .collect::<Vec<String>>()
    );
    assert_eq!(forward.encode().unwrap(), backward.encode().unwrap());
}

#[test]
fn map_last_write_wins() {
    let mut map = RespMap::new();
    assert_eq!(map.insert(simple("k"), RespFrame::Integer(1)), None);
    assert_eq!(map.insert(simple("k"), RespFrame::Integer(2)), Some(RespFrame::Integer(1)));
    assert_eq!(map.len(), 1);
    assert_eq!(map.get(&simple("k")), Some(&RespFrame::Integer(2)));
    assert_eq!(map.get(&simple("other")), None);
    assert_eq!(map.encode().unwrap(), b"*1\r\n+k\r\n:+2\r\n".to_vec());
}

#[test]
fn map_get_finds_every_key() {
    let mut map = RespMap::new();
    for (i, name) in ["m", "c", "x", "a", "q"].iter().enumerate() {
        map.insert(simple(name), RespFrame::Integer(i as i64));
    }
    assert_eq!(map.len(), 5);
    assert_eq!(map.get(&simple("m")), Some(&RespFrame::Integer(0)));
    assert_eq!(map.get(&simple("c")), Some(&RespFrame::Integer(1)));
    assert_eq!(map.get(&simple("x")), Some(&RespFrame::Integer(2)));
    assert_eq!(map.get(&simple("a")), Some(&RespFrame::Integer(3)));
    assert_eq!(map.get(&simple("q")), Some(&RespFrame::Integer(4)));
    assert_eq!(map.get(&simple("b")), None);
    assert_eq!(map.get(&simple("z")), None);
    assert_eq!(map.get(&simple("")), None);
}

#[test]
fn map_keys_order_by_bytes() {
    let mut map = RespMap::new();
    map.insert(simple("\u{e9}"), RespFrame::Integer(1));
    map.insert(simple("z"), RespFrame::Integer(2));
    map.insert(simple("ab"), RespFrame::Integer(3));
    map.insert(simple("a"), RespFrame::Integer(4));
    assert_eq!(keys(&map), vec!["a", "ab", "z", "\u{e9}"]);
}

#[test]
fn key_order_compares_bytes() {
    assert_eq!(key_order(b"a", b"b"), KeyOrder::Before);
    assert_eq!(key_order(b"b", b"a"), KeyOrder::After);
    assert_eq!(key_order(b"a", b"a"), KeyOrder::Same);
    assert_eq!(key_order(b"", b""), KeyOrder::Same);
    assert_eq!(key_order(b"", b"a"), KeyOrder::Before);
    assert_eq!(key_order(b"a", b"ab"), KeyOrder::Before);
    assert_eq!(key_order(b"ab", b"a"), KeyOrder::After);
    assert_eq!(key_order(b"ab", b"b"), KeyOrder::Before);
    assert_eq!(key_order(b"\xff", b"a"), KeyOrder::After);
}

#[test]
fn map_round_trip() {
    let mut map = RespMap::new();
    map.insert(simple("hello"), RespFrame::BulkString(BulkString::new(b"world".to_vec())));
    map.insert(simple("foo"), RespFrame::Integer(-7));
    map.insert(
        simple("list"),
        RespFrame::Array(RespArray::new(vec![RespFrame::Boolean(true)])),
    );
    let bytes = map.clone().encode().unwrap();
    let (back, used) = decode_map(&bytes).unwrap();
    assert_eq!(used, bytes.len());
    assert_eq!(back, map);
    for arrived in 0..bytes.len() {
        assert_eq!(decode_map(&bytes[..arrived]), Err(DecodeError::Incomplete));
    }
}

#[test]
fn decode_map_sorts_and_overwrites() {
    let (map, used) = decode_map(b"*3\r\n+b\r\n:+1\r\n+a\r\n:+2\r\n+b\r\n:+3\r\nrest").unwrap();
    assert_eq!(used, 31);
    assert_eq!(keys(&map), vec!["a", "b"]);
    assert_eq!(map.get(&simple("b")), Some(&RespFrame::Integer(3)));
    assert_eq!(map.get(&simple("a")), Some(&RespFrame::Integer(2)));
}

#[test]
fn decode_map_empty() {
    let (map, used) = decode_map(b"*0\r\n").unwrap();
    assert_eq!(used, 4);
    assert_eq!(map.len(), 0);
    assert_eq!(map, RespMap::new());
}

#[test]
fn decode_map_malformed() {
    let bad = |reason| Err(DecodeError::Malformed(reason));
    assert_eq!(decode_map(b""), Err(DecodeError::Incomplete));
    assert_eq!(decode_map(b"*1\r\n"), Err(DecodeError::Incomplete));
    assert_eq!(decode_map(b"*1\r\n+k\r\n"), Err(DecodeError::Incomplete));
    assert_eq!(decode_map(b"x"), bad(Malformed::UnknownTag));
    assert_eq!(decode_map(b":+1\r\n"), bad(Malformed::UnexpectedTag));
    assert_eq!(decode_map(b"~1\r\n"), bad(Malformed::UnexpectedTag));
    assert_eq!(decode_map(b"*-1\r\n"), bad(Malformed::NegativeLength));
    assert_eq!(decode_map(b"*z\r\n"), bad(Malformed::InvalidNumber));
    assert_eq!(decode_map(b"*1\r\n:+1\r\n:+2\r\n"), bad(Malformed::UnexpectedTag));
    assert_eq!(decode_map(b"*1\r\n?"), bad(Malformed::UnknownTag));
    assert_eq!(decode_map(b"*1\r\n+k\nk\r\n:+2\r\n"), bad(Malformed::InvalidText));
    assert_eq!(decode_map(b"*1\r\n+k\r\n:x\r\n"), bad(Malformed::InvalidNumber));
}

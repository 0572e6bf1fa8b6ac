use resp::{
    BulkString, DecodeError, RespArray, RespDecode, RespDouble, RespEncode, RespFrame, RespMap,
    RespNull, RespNullArray, RespNullBulkString, RespSet, SimpleError, SimpleString,
};

fn simple(text: &str) -> SimpleString {
    SimpleString::new(text.to_string()).unwrap()
}

fn double(d: f64) -> RespDouble {
    RespDouble::from_parts(d.to_bits(), &format!("{}", d), &format!("{:+e}", d)).unwrap()
}

fn sample() -> RespFrame {
    RespFrame::Array(RespArray::new(vec![
        RespFrame::SimpleString(simple("OK")),
        RespFrame::Error(SimpleError::new("ERR no".to_string()).unwrap()),
        RespFrame::Integer(i64::MIN),
        RespFrame::Integer(i64::MAX),
        RespFrame::BulkString(BulkString::new(b"bin\r\nary\x00\xff".to_vec())),
        RespFrame::BulkString(BulkString::new(Vec::new())),
        RespFrame::NullBulkString(RespNullBulkString),
        RespFrame::Null(RespNull),
        RespFrame::NullArray(RespNullArray),
        RespFrame::Boolean(true),
        RespFrame::Boolean(false),
        RespFrame::Double(double(1.5)),
        RespFrame::Double(double(-2.5e30)),
        RespFrame::Array(RespArray::new(Vec::new())),
        RespFrame::RespSet(RespSet::new(vec![
            RespFrame::Integer(3),
            RespFrame::Array(RespArray::new(vec![RespFrame::Integer(4)])),
        ])),
    ]))
}

fn check_round_trip(frame: RespFrame) {
    let bytes = frame.clone().encode().unwrap();
    let (back, used) = <&[u8] as RespDecode>::decode(&bytes).unwrap();
    assert_eq!(used, bytes.len());
    assert_eq!(back, frame);
    assert!(back.same_as(&frame));
}

#[test]
fn round_trip_of_every_variant() {
    check_round_trip(RespFrame::SimpleString(simple("hello world")));
    check_round_trip(RespFrame::Error(SimpleError::new("ERR".to_string()).unwrap()));
    check_round_trip(RespFrame::Integer(0));
    check_round_trip(RespFrame::Integer(-1));
    check_round_trip(RespFrame::Integer(1234567890123));
    check_round_trip(RespFrame::BulkString(BulkString::new(b"payload".to_vec())));
    check_round_trip(RespFrame::NullBulkString(RespNullBulkString));
    check_round_trip(RespFrame::Null(RespNull));
    check_round_trip(RespFrame::NullArray(RespNullArray));
    check_round_trip(RespFrame::Boolean(true));
    check_round_trip(RespFrame::Double(double(3.25)));
    check_round_trip(RespFrame::RespSet(RespSet::new(vec![RespFrame::Integer(1)])));
}

#[test]
fn round_trip_of_nested_frames() {
    check_round_trip(sample());
    check_round_trip(RespFrame::Array(RespArray::new(vec![sample(), sample()])));
}

#[test]
fn round_trip_in_a_stream() {
    let mut bytes = sample().encode().unwrap();
    let length = bytes.len();
    bytes.extend_from_slice(b":+1\r\ngarbage");
    let (back, used) = <&[u8] as RespDecode>::decode(&bytes).unwrap();
    assert_eq!(used, length);
    assert_eq!(back, sample());
}

#[test]
fn every_strict_prefix_is_incomplete() {
    let bytes = sample().encode().unwrap();
    for arrived in 0..bytes.len() {
        assert_eq!(
            <&[u8] as RespDecode>::decode(&bytes[..arrived]),
            Err(DecodeError::Incomplete)
        );
    }
}

#[test]
fn nulls_round_trip_distinctly() {
    let null = RespFrame::NullBulkString(RespNullBulkString).encode().unwrap();
    let empty = RespFrame::BulkString(BulkString::new(Vec::new())).encode().unwrap();
    assert_ne!(null, empty);
    let (n, _) = <&[u8] as RespDecode>::decode(&null).unwrap();
    let (e, _) = <&[u8] as RespDecode>::decode(&empty).unwrap();
    assert_eq!(n, RespFrame::NullBulkString(RespNullBulkString));
    assert_eq!(e, RespFrame::BulkString(BulkString::new(Vec::new())));
    assert_ne!(n, e);
}

#[test]
fn a_map_decodes_as_an_array_of_its_first_frames() {
    let mut map = RespMap::new();
    map.insert(simple("a"), RespFrame::Integer(1));
    let bytes = map.encode().unwrap();
    let (back, used) = <&[u8] as RespDecode>::decode(&bytes).unwrap();
    assert_eq!(back, RespFrame::Array(RespArray::new(vec![RespFrame::SimpleString(simple("a"))])));
    assert_eq!(used, 8);
    assert!(used < bytes.len());
}

#[test]
fn frames_compare_by_structure() {
    assert_eq!(sample(), sample());
    assert_ne!(RespFrame::Integer(1), RespFrame::Integer(2));
    assert_ne!(RespFrame::Integer(1), RespFrame::Boolean(true));
    assert_ne!(
        RespFrame::Array(RespArray::new(vec![RespFrame::Integer(1)])),
        RespFrame::RespSet(RespSet::new(vec![RespFrame::Integer(1)]))
    );
    assert_ne!(
        RespFrame::Array(RespArray::new(vec![RespFrame::Integer(1)])),
        RespFrame::Array(RespArray::new(vec![RespFrame::Integer(1), RespFrame::Integer(1)]))
    );
    assert_ne!(
        RespFrame::SimpleString(simple("a")),
        RespFrame::Error(SimpleError::new("a".to_string()).unwrap())
    );
    assert_eq!(RespFrame::BigNumber(b"1".to_vec()), RespFrame::BigNumber(b"1".to_vec()));
    assert_ne!(RespFrame::BigNumber(b"1".to_vec()), RespFrame::BigNumber(b"2".to_vec()));
    assert_eq!(simple("x"), simple("x"));
    assert_ne!(simple("x"), simple("y"));
    assert_eq!(BulkString::new(b"x".to_vec()), BulkString::new(b"x".to_vec()));
    assert_ne!(BulkString::new(b"x".to_vec()), BulkString::new(b"xy".to_vec()));
}

#[test]
fn copies_are_the_same_frame() {
    let frame = sample();
    assert_eq!(frame.clone(), frame);
    assert_eq!(frame.copy(), frame);
    let mut map = RespMap::new();
    map.insert(simple("k"), sample());
    let frame = RespFrame::RespMap(map);
    assert_eq!(frame.clone(), frame);
}

#[test]
fn text_from_bytes() {
    assert!(SimpleString::from_utf8(b"ok".to_vec()).is_some());
    assert_eq!(SimpleString::from_utf8("h\u{e9}".as_bytes().to_vec()).unwrap().as_str(), "h\u{e9}");
    assert!(SimpleString::from_utf8(b"\xff".to_vec()).is_none());
    assert!(SimpleString::from_utf8(b"a\nb".to_vec()).is_none());
    assert!(SimpleError::from_utf8(b"\xc0\x80".to_vec()).is_none());
    assert!(RespDouble::from_utf8(b"\xf8".to_vec()).is_none());
    assert_eq!(SimpleString::from_utf8(b"abc".to_vec()).unwrap().as_bytes(), &b"abc"[..]);
}

use resp::{
    BulkString, DecodeError, Malformed, RespArray, RespDecode, RespDouble, RespEncode, RespFrame,
    RespNull, RespNullArray, RespNullBulkString, RespSet, SimpleError, SimpleString,
};

fn decode(bytes: &[u8]) -> Result<(RespFrame, usize), DecodeError> {
    <&[u8] as RespDecode>::decode(bytes)
}

fn simple(text: &str) -> SimpleString {
    SimpleString::new(text.to_string()).unwrap()
}

fn malformed(reason: Malformed) -> Result<(RespFrame, usize), DecodeError> {
    Err(DecodeError::Malformed(reason))
}

#[test]
fn decode_simple_string() {
    let (frame, used) = decode(b"+OK\r\n").unwrap();
    assert_eq!(frame, RespFrame::SimpleString(simple("OK")));
    assert_eq!(used, 5);
    let (frame, used) = decode(b"+\r\nrest").unwrap();
    assert_eq!(frame, RespFrame::SimpleString(simple("")));
    assert_eq!(used, 3);
}

#[test]
fn decode_simple_error() {
    let (frame, used) = decode(b"-ERR unknown\r\n").unwrap();
    assert_eq!(frame, RespFrame::Error(SimpleError::new("ERR unknown".to_string()).unwrap()));
    assert_eq!(used, 14);
}

#[test]
fn decode_integer() {
    assert_eq!(decode(b":+5\r\n").unwrap(), (RespFrame::Integer(5), 5));
    assert_eq!(decode(b":-5\r\n").unwrap(), (RespFrame::Integer(-5), 5));
    assert_eq!(decode(b":+0\r\n").unwrap(), (RespFrame::Integer(0), 5));
    assert_eq!(decode(b":42\r\n").unwrap(), (RespFrame::Integer(42), 5));
    assert_eq!(decode(b":007\r\n").unwrap(), (RespFrame::Integer(7), 6));
    assert_eq!(
        decode(b":+9223372036854775807\r\n").unwrap(),
        (RespFrame::Integer(i64::MAX), 23)
    );
    assert_eq!(
        decode(b":-9223372036854775808\r\n").unwrap(),
        (RespFrame::Integer(i64::MIN), 23)
    );
}

#[test]
fn decode_integer_malformed() {
    assert_eq!(decode(b":abc\r\n"), malformed(Malformed::InvalidNumber));
    assert_eq!(decode(b":\r\n"), malformed(Malformed::InvalidNumber));
    assert_eq!(decode(b":+\r\n"), malformed(Malformed::InvalidNumber));
    assert_eq!(decode(b":-\r\n"), malformed(Malformed::InvalidNumber));
    assert_eq!(decode(b":1 2\r\n"), malformed(Malformed::InvalidNumber));
    assert_eq!(decode(b":+-1\r\n"), malformed(Malformed::InvalidNumber));
    assert_eq!(decode(b":9223372036854775808\r\n"), malformed(Malformed::InvalidNumber));
    assert_eq!(decode(b":-9223372036854775809\r\n"), malformed(Malformed::InvalidNumber));
    assert_eq!(
        decode(b":99999999999999999999999999999999\r\n"),
        malformed(Malformed::InvalidNumber)
    );
}

#[test]
fn decode_bulk_string() {
    let (frame, used) = decode(b"$5\r\nhello\r\n").unwrap();
    assert_eq!(frame, RespFrame::BulkString(BulkString::new(b"hello".to_vec())));
    assert_eq!(used, 11);
    let (frame, used) = decode(b"$4\r\na\r\nb\r\n+next\r\n").unwrap();
    assert_eq!(frame, RespFrame::BulkString(BulkString::new(b"a\r\nb".to_vec())));
    assert_eq!(used, 10);
}

#[test]
fn decode_null_and_empty_bulk_string() {
    assert_eq!(
        decode(b"$-1\r\n").unwrap(),
        (RespFrame::NullBulkString(RespNullBulkString), 5)
    );
    assert_eq!(
        decode(b"$0\r\n\r\n").unwrap(),
        (RespFrame::BulkString(BulkString::new(Vec::new())), 6)
    );
    assert_ne!(decode(b"$-1\r\n").unwrap().0, decode(b"$0\r\n\r\n").unwrap().0);
}

#[test]
fn decode_null_and_empty_array() {
    assert_eq!(decode(b"*-1\r\n").unwrap(), (RespFrame::NullArray(RespNullArray), 5));
    assert_eq!(
        decode(b"*0\r\n").unwrap(),
        (RespFrame::Array(RespArray::new(Vec::new())), 4)
    );
    assert_ne!(decode(b"*-1\r\n").unwrap().0, decode(b"*0\r\n").unwrap().0);
}

#[test]
fn decode_bulk_string_short_payload_is_incomplete() {
    assert_eq!(decode(b"$5\r\nhel"), Err(DecodeError::Incomplete));
    assert_eq!(decode(b"$5\r\nhello"), Err(DecodeError::Incomplete));
    assert_eq!(decode(b"$5\r\nhello\r"), Err(DecodeError::Incomplete));
    assert_eq!(decode(b"$5\r\nhelloX"), Err(DecodeError::Incomplete));
    assert!(decode(b"$5\r\nhello\r\n").is_ok());
}

#[test]
fn decode_bulk_string_malformed() {
    assert_eq!(decode(b"$5\r\nhelloXY"), malformed(Malformed::MissingTerminator));
    assert_eq!(decode(b"$-2\r\n"), malformed(Malformed::NegativeLength));
    assert_eq!(decode(b"$x\r\n"), malformed(Malformed::InvalidNumber));
}

#[test]
fn decode_huge_declared_length_is_incomplete() {
    assert_eq!(decode(b"$9223372036854775807\r\nabc"), Err(DecodeError::Incomplete));
    assert_eq!(decode(b"*9223372036854775807\r\n"), Err(DecodeError::Incomplete));
}

#[test]
fn decode_array() {
    let (frame, used) = decode(b"*2\r\n:+1\r\n$3\r\nfoo\r\n").unwrap();
    let expected = RespFrame::Array(RespArray::new(vec![
        RespFrame::Integer(1),
        RespFrame::BulkString(BulkString::new(b"foo".to_vec())),
    ]));
    assert_eq!(frame, expected);
    assert_eq!(used, 18);
}

#[test]
fn decode_array_malformed() {
    assert_eq!(decode(b"*-2\r\n"), malformed(Malformed::NegativeLength));
    assert_eq!(decode(b"*a\r\n"), malformed(Malformed::InvalidNumber));
    assert_eq!(decode(b"*2\r\n:+1\r\nx"), malformed(Malformed::UnknownTag));
    assert_eq!(decode(b"*2\r\n:+1\r\n:zz\r\n"), malformed(Malformed::InvalidNumber));
}

#[test]
fn decode_set() {
    let (frame, used) = decode(b"~2\r\n#t\r\n#f\r\n").unwrap();
    let expected =
        RespFrame::RespSet(RespSet::new(vec![RespFrame::Boolean(true), RespFrame::Boolean(false)]));
    assert_eq!(frame, expected);
    assert_eq!(used, 12);
    assert_eq!(decode(b"~-1\r\n"), malformed(Malformed::NegativeLength));
}

#[test]
fn decode_null() {
    assert_eq!(decode(b"_\r\n").unwrap(), (RespFrame::Null(RespNull), 3));
    assert_eq!(decode(b"_x\r\n"), malformed(Malformed::InvalidNull));
    assert_eq!(decode(b"_"), Err(DecodeError::Incomplete));
}

#[test]
fn decode_boolean() {
    assert_eq!(decode(b"#t\r\n").unwrap(), (RespFrame::Boolean(true), 4));
    assert_eq!(decode(b"#f\r\n").unwrap(), (RespFrame::Boolean(false), 4));
    assert_eq!(decode(b"#x\r\n"), malformed(Malformed::InvalidBoolean));
    assert_eq!(decode(b"#\r\n"), malformed(Malformed::InvalidBoolean));
    assert_eq!(decode(b"#tt\r\n"), malformed(Malformed::InvalidBoolean));
    assert_eq!(decode(b"#t"), Err(DecodeError::Incomplete));
}

#[test]
fn decode_double_keeps_the_numeral() {
    let (frame, used) = decode(b",+1.5\r\n").unwrap();
    assert_eq!(frame, RespFrame::Double(RespDouble::from_text("+1.5".to_string()).unwrap()));
    assert_eq!(used, 7);
    match frame {
        RespFrame::Double(d) => {
            assert_eq!(d.text().as_str(), "+1.5");
            assert_eq!(d.text().parse::<f64>().unwrap(), 1.5);
        }
        _ => panic!("not a double"),
    }
}

#[test]
fn malformed_detection() {
    assert_eq!(decode(b"x"), malformed(Malformed::UnknownTag));
    assert_eq!(decode(b"xyz\r\n"), malformed(Malformed::UnknownTag));
    assert_eq!(decode(b"%1\r\n"), malformed(Malformed::UnknownTag));
    assert_eq!(decode(b"\r\n"), malformed(Malformed::UnknownTag));
}

#[test]
fn decode_invalid_text() {
    assert_eq!(decode(b"+a\nb\r\n"), malformed(Malformed::InvalidText));
    assert_eq!(decode(b"+a\rb\r\n"), malformed(Malformed::InvalidText));
    assert_eq!(decode(b"-a\nb\r\n"), malformed(Malformed::InvalidText));
    assert_eq!(decode(b",1\n5\r\n"), malformed(Malformed::InvalidText));
    assert_eq!(decode(b"+\xff\xfe\r\n"), malformed(Malformed::InvalidText));
    assert_eq!(decode(b"+\xc3\r\n"), malformed(Malformed::InvalidText));
    assert_eq!(decode(b"-\xed\xa0\x80\r\n"), malformed(Malformed::InvalidText));
}

#[test]
fn decode_valid_utf8_text() {
    let (frame, used) = decode("+h\u{e9}llo \u{1f600}\r\n".as_bytes()).unwrap();
    assert_eq!(frame, RespFrame::SimpleString(simple("h\u{e9}llo \u{1f600}")));
    assert_eq!(used, 14);
    match frame {
        RespFrame::SimpleString(s) => assert_eq!(s.as_str(), "h\u{e9}llo \u{1f600}"),
        _ => panic!("not a simple string"),
    }
}

#[test]
fn decode_empty_buffer_is_incomplete() {
    assert_eq!(decode(b""), Err(DecodeError::Incomplete));
    assert_eq!(decode(b"+"), Err(DecodeError::Incomplete));
    assert_eq!(decode(b"+OK"), Err(DecodeError::Incomplete));
    assert_eq!(decode(b"+OK\r"), Err(DecodeError::Incomplete));
    assert_eq!(decode(b":abc"), Err(DecodeError::Incomplete));
    assert_eq!(decode(b"*2\r\n:+1\r\n"), Err(DecodeError::Incomplete));
}

#[test]
fn incremental_decode() {
    let array = RespArray::new(vec![RespFrame::Integer(1), RespFrame::Integer(2)]);
    let bytes = array.encode().unwrap();
    assert_eq!(bytes, b"*2\r\n:+1\r\n:+2\r\n".to_vec());
    let mut parsed = 0;
    for arrived in 0..=bytes.len() {
        match decode(&bytes[..arrived]) {
            Err(DecodeError::Incomplete) => assert!(arrived < bytes.len()),
            Ok((frame, used)) => {
                assert_eq!(arrived, bytes.len());
                assert_eq!(used, bytes.len());
                assert_eq!(
                    frame,
                    RespFrame::Array(RespArray::new(vec![
                        RespFrame::Integer(1),
                        RespFrame::Integer(2)
                    ]))
                );
                parsed += 1;
            }
            Err(other) => panic!("unexpected {:?}", other),
        }
    }
    assert_eq!(parsed, 1);
}

#[test]
fn decode_consumes_one_frame_only() {
    let buffer = b":+1\r\n:+2\r\n";
    let (first, used) = decode(buffer).unwrap();
    assert_eq!((first, used), (RespFrame::Integer(1), 5));
    let (second, used) = decode(&buffer[used..]).unwrap();
    assert_eq!((second, used), (RespFrame::Integer(2), 5));
}

#[test]
fn decode_from_vec() {
    let buffer = b"#t\r\n".to_vec();
    assert_eq!(
        <&Vec<u8> as RespDecode>::decode(&buffer).unwrap(),
        (RespFrame::Boolean(true), 4)
    );
}

#[test]
fn nesting_is_bounded() {
    let mut deep = Vec::new();
    for _ in 0..resp::value::MAX_DEPTH {
        deep.extend_from_slice(b"*1\r\n");
    }
    let mut too_deep = deep.clone();
    too_deep.extend_from_slice(b"*1\r\n");
    deep.extend_from_slice(b":+1\r\n");
    too_deep.extend_from_slice(b":+1\r\n");
    let (_, used) = decode(&deep).unwrap();
    assert_eq!(used, deep.len());
    assert_eq!(decode(&too_deep), malformed(Malformed::NestingTooDeep));
    let mut flood = Vec::new();
    for _ in 0..100000 {
        flood.extend_from_slice(b"*1\r\n");
    }
    assert_eq!(decode(&flood), malformed(Malformed::NestingTooDeep));
}

#[test]
fn absent_array_at_the_depth_limit() {
    let mut buffer = Vec::new();
    for _ in 0..resp::value::MAX_DEPTH {
        buffer.extend_from_slice(b"*1\r\n");
    }
    buffer.extend_from_slice(b"*-1\r\n");
    let (_, used) = decode(&buffer).unwrap();
    assert_eq!(used, buffer.len());
}

#[test]
fn decode_at_offset() {
    let buffer = b"junk:+7\r\n";
    assert_eq!(
        resp::decode::decode_at(buffer, 4, 0).unwrap(),
        (RespFrame::Integer(7), 9)
    );
    assert_eq!(resp::decode::decode_at(buffer, 9, 0), Err(DecodeError::Incomplete));
    assert_eq!(resp::decode::decode_at(buffer, 100, 0), Err(DecodeError::Incomplete));
    assert_eq!(
        resp::decode::decode_at(b"*0\r\n", 0, 0),
        malformed(Malformed::NestingTooDeep)
    );
}

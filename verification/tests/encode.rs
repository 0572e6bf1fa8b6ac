use resp::{
    BulkString, EncodeError, RespArray, RespDouble, RespEncode, RespFrame, RespMap, RespNull,
    RespNullArray, RespNullBulkString, RespSet, SimpleError, SimpleString,
};

fn simple(text: &str) -> SimpleString {
    SimpleString::new(text.to_string()).unwrap()
}

fn double(d: f64) -> RespDouble {
    RespDouble::from_parts(d.to_bits(), &format!("{}", d), &format!("{:+e}", d)).unwrap()
}

#[test]
fn integer_sign_rule() {
    assert_eq!(5i64.encode().unwrap(), b":+5\r\n".to_vec());
    assert_eq!((-5i64).encode().unwrap(), b":-5\r\n".to_vec());
    assert_eq!(0i64.encode().unwrap(), b":+0\r\n".to_vec());
}

#[test]
fn integer_extremes() {
    assert_eq!(i64::MAX.encode().unwrap(), b":+9223372036854775807\r\n".to_vec());
    assert_eq!(i64::MIN.encode().unwrap(), b":-9223372036854775808\r\n".to_vec());
    assert_eq!(1234567890i64.encode().unwrap(), b":+1234567890\r\n".to_vec());
    assert_eq!((-10i64).encode().unwrap(), b":-10\r\n".to_vec());
}

#[test]
fn simple_string_encode() {
    assert_eq!(simple("OK").encode().unwrap(), b"+OK\r\n".to_vec());
    assert_eq!(simple("").encode().unwrap(), b"+\r\n".to_vec());
    let frame = RespFrame::SimpleString(simple("h\u{e9}llo"));
    assert_eq!(frame.encode().unwrap(), "+h\u{e9}llo\r\n".as_bytes().to_vec());
}

#[test]
fn simple_error_encode() {
    let e = SimpleError::new("Error message".to_string()).unwrap();
    assert_eq!(e.encode().unwrap(), b"-Error message\r\n".to_vec());
    let frame = RespFrame::Error(SimpleError::new("ERR x".to_string()).unwrap());
    assert_eq!(frame.encode().unwrap(), b"-ERR x\r\n".to_vec());
}

#[test]
fn text_with_line_breaks_is_refused() {
    assert!(SimpleString::new("a\r\nb".to_string()).is_none());
    assert!(SimpleString::new("a\nb".to_string()).is_none());
    assert!(SimpleString::new("a\rb".to_string()).is_none());
    assert!(SimpleError::new("a\nb".to_string()).is_none());
    assert!(RespDouble::from_text("1\r\n".to_string()).is_none());
    assert!(SimpleString::new("ab".to_string()).is_some());
}

#[test]
fn bulk_string_encode() {
    let b = BulkString::new(b"hello".to_vec());
    assert_eq!(b.encode().unwrap(), b"$5\r\nhello\r\n".to_vec());
    let binary = BulkString::new(b"a\r\nb".to_vec());
    assert_eq!(binary.encode().unwrap(), b"$4\r\na\r\nb\r\n".to_vec());
    let long = BulkString::new(vec![b'x'; 12]);
    assert_eq!(long.encode().unwrap(), b"$12\r\nxxxxxxxxxxxx\r\n".to_vec());
}

#[test]
fn null_distinctness() {
    assert_eq!(RespNullBulkString.encode().unwrap(), b"$-1\r\n".to_vec());
    assert_eq!(BulkString::new(Vec::new()).encode().unwrap(), b"$0\r\n\r\n".to_vec());
    assert_eq!(RespNullArray.encode().unwrap(), b"*-1\r\n".to_vec());
    assert_eq!(RespArray::new(Vec::new()).encode().unwrap(), b"*0\r\n".to_vec());
    assert_eq!(RespNull.encode().unwrap(), b"_\r\n".to_vec());
    assert_eq!(
        RespFrame::NullBulkString(RespNullBulkString).encode().unwrap(),
        b"$-1\r\n".to_vec()
    );
    assert_eq!(RespFrame::NullArray(RespNullArray).encode().unwrap(), b"*-1\r\n".to_vec());
    assert_eq!(RespFrame::Null(RespNull).encode().unwrap(), b"_\r\n".to_vec());
}

#[test]
fn boolean_encode() {
    assert_eq!(true.encode().unwrap(), b"#t\r\n".to_vec());
    assert_eq!(false.encode().unwrap(), b"#f\r\n".to_vec());
    assert_eq!(RespFrame::Boolean(true).encode().unwrap(), b"#t\r\n".to_vec());
}

#[test]
fn array_encode() {
    let array = RespArray::new(vec![
        RespFrame::Integer(1),
        RespFrame::Integer(2),
        RespFrame::BulkString(BulkString::new(b"get".to_vec())),
    ]);
    assert_eq!(array.encode().unwrap(), b"*3\r\n:+1\r\n:+2\r\n$3\r\nget\r\n".to_vec());
}

#[test]
fn nested_array_encode() {
    let inner = RespArray::new(vec![RespFrame::Boolean(false), RespFrame::Null(RespNull)]);
    let outer = RespFrame::Array(RespArray::new(vec![
        RespFrame::Array(inner),
        RespFrame::SimpleString(simple("x")),
    ]));
    assert_eq!(outer.encode().unwrap(), b"*2\r\n*2\r\n#f\r\n_\r\n+x\r\n".to_vec());
}

#[test]
fn set_encode() {
    let set = RespSet::new(vec![RespFrame::Integer(1), RespFrame::Integer(1)]);
    assert_eq!(set.encode().unwrap(), b"~2\r\n:+1\r\n:+1\r\n".to_vec());
    assert_eq!(RespSet::new(Vec::new()).encode().unwrap(), b"~0\r\n".to_vec());
}

#[test]
fn map_encode_counts_pairs() {
    let mut map = RespMap::new();
    map.insert(simple("hello"), RespFrame::BulkString(BulkString::new(b"world".to_vec())));
    map.insert(simple("foo"), RespFrame::Integer(-7));
    assert_eq!(
        map.encode().unwrap(),
        b"*2\r\n+foo\r\n:-7\r\n+hello\r\n$5\r\nworld\r\n".to_vec()
    );
    assert_eq!(RespMap::new().encode().unwrap(), b"*0\r\n".to_vec());
}

#[test]
fn big_number_is_unsupported() {
    let frame = RespFrame::BigNumber(b"123".to_vec());
    assert_eq!(frame.encode(), Err(EncodeError::UnsupportedVariant));
    let array = RespArray::new(vec![RespFrame::Integer(1), RespFrame::BigNumber(Vec::new())]);
    assert_eq!(array.encode(), Err(EncodeError::UnsupportedVariant));
    let set = RespSet::new(vec![RespFrame::BigNumber(Vec::new())]);
    assert_eq!(set.encode(), Err(EncodeError::UnsupportedVariant));
    let mut map = RespMap::new();
    map.insert(simple("k"), RespFrame::BigNumber(Vec::new()));
    assert_eq!(map.encode(), Err(EncodeError::UnsupportedVariant));
}

#[test]
fn double_formatting() {
    assert_eq!(double(1.5).encode().unwrap(), b",+1.5\r\n".to_vec());
    assert_eq!(double(-1.5).encode().unwrap(), b",-1.5\r\n".to_vec());
    assert_eq!(double(0.0).encode().unwrap(), b",+0\r\n".to_vec());
    assert_eq!(double(123.456).encode().unwrap(), b",+123.456\r\n".to_vec());
    assert_eq!(double(-1.23456e-9).encode().unwrap(), b",-0.00000000123456\r\n".to_vec());
}

#[test]
fn double_above_threshold_uses_exponent() {
    assert_eq!(double(1e8).encode().unwrap(), b",+100000000\r\n".to_vec());
    assert_eq!(double(-1e8).encode().unwrap(), b",-100000000\r\n".to_vec());
    assert_eq!(double(100000001.0).encode().unwrap(), b",+1.00000001e8\r\n".to_vec());
    assert_eq!(double(1e9).encode().unwrap(), b",+1e9\r\n".to_vec());
    assert_eq!(double(-1.23456e9).encode().unwrap(), b",-1.23456e9\r\n".to_vec());
    assert_eq!(double(1.23456e100).encode().unwrap(), b",+1.23456e100\r\n".to_vec());
}

#[test]
fn double_special_values() {
    assert_eq!(double(f64::INFINITY).encode().unwrap(), b",+inf\r\n".to_vec());
    assert_eq!(double(f64::NEG_INFINITY).encode().unwrap(), b",-inf\r\n".to_vec());
    assert_eq!(double(f64::NAN).encode().unwrap(), b",+NaN\r\n".to_vec());
    assert_eq!(double(-0.0).encode().unwrap(), b",+-0\r\n".to_vec());
}

#[test]
fn double_classification_matches_the_numbers() {
    let samples = [
        0.0f64,
        -0.0,
        1.0,
        -1.0,
        1e8,
        -1e8,
        f64::from_bits(resp::double::THRESHOLD + 1),
        f64::from_bits(resp::double::THRESHOLD - 1),
        -f64::from_bits(resp::double::THRESHOLD + 1),
        1e300,
        -1e300,
        f64::MIN_POSITIVE,
        -f64::MIN_POSITIVE,
        5e-324,
        -5e-324,
        f64::INFINITY,
        f64::NEG_INFINITY,
        f64::NAN,
        -f64::NAN,
        f64::MAX,
        f64::MIN,
    ];
    for d in samples {
        assert_eq!(resp::double::large(d.to_bits()), d.abs() > 1e8);
        assert_eq!(resp::double::negative(d.to_bits()), d < 0.0);
    }
    assert_eq!(1e8f64.to_bits(), resp::double::THRESHOLD);
    assert_eq!(f64::INFINITY.to_bits(), resp::double::INFINITY);
}

#[test]
fn frame_encode_matches_parts() {
    assert_eq!(RespFrame::Integer(42).encode().unwrap(), 42i64.encode().unwrap());
    assert_eq!(RespFrame::Double(double(2.5)).encode().unwrap(), b",+2.5\r\n".to_vec());
    let mut map = RespMap::new();
    map.insert(simple("a"), RespFrame::Integer(1));
    assert_eq!(RespFrame::RespMap(map).encode().unwrap(), b"*1\r\n+a\r\n:+1\r\n".to_vec());
    let set = RespSet::new(vec![RespFrame::Boolean(true)]);
    assert_eq!(RespFrame::RespSet(set).encode().unwrap(), b"~1\r\n#t\r\n".to_vec());
}

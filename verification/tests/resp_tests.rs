use miniredis::resp::Frame;
use miniredis::resp::IntoBytesError;
use miniredis::resp::ParseError;

#[test]
fn parse_simple_string() {
    let src = b"+hello\r\n".to_vec();
    let mut pos: usize = 0;

    let output_frame = Frame::parse(&src, &mut pos).expect("valid byte sequence");
    let expected_frame = Frame::Simple(b"hello".to_vec());

    assert_eq!(expected_frame, output_frame)
}

#[test]
fn parse_error() {
    let src = b"-error\r\n".to_vec();
    let mut pos: usize = 0;

    let output_frame = Frame::parse(&src, &mut pos).expect("valid byte sequence");
    let expected_frame = Frame::Error(b"error".to_vec());

    assert_eq!(expected_frame, output_frame)
}

#[test]
fn parse_integer_positive() {
    let src = b":100\r\n".to_vec();
    let mut pos: usize = 0;

    let output_frame = Frame::parse(&src, &mut pos).expect("valid byte sequence");
    let expected_frame = Frame::Integer(100);

    assert_eq!(expected_frame, output_frame);

    let src = b":+100\r\n".to_vec();
    let mut pos: usize = 0;

    let output_frame = Frame::parse(&src, &mut pos).expect("valid byte sequence");
    let expected_frame = Frame::Integer(100);

    assert_eq!(expected_frame, output_frame)
}

#[test]
fn parse_integer_negative() {
    let src = b":-100\r\n".to_vec();
    let mut pos: usize = 0;

    let output_frame = Frame::parse(&src, &mut pos).expect("valid byte sequence");
    let expected_frame = Frame::Integer(-100);

    assert_eq!(expected_frame, output_frame);
}

#[test]
fn parse_bulk_non_empty() {
    let src = b"$3\r\nhey\r\n".to_vec();
    let mut pos: usize = 0;

    let output_frame = Frame::parse(&src, &mut pos).expect("valid byte sequence");
    let expected_frame = Frame::Bulk(b"hey".to_vec());

    assert_eq!(expected_frame, output_frame);
}

#[test]
fn parse_bulk_empty() {
    let src = b"$-1\r\n".to_vec();
    let mut pos: usize = 0;

    let output_frame = Frame::parse(&src, &mut pos).expect("valid byte sequence");
    let expected_frame = Frame::Null;

    assert_eq!(expected_frame, output_frame);
}

#[test]
#[should_panic]
fn failed_with_invalid_seq() {
    let src = b"paosidjf;lkjewqpoi".to_vec();
    let mut pos: usize = 0;

    let _output_frame = Frame::parse(&src, &mut pos).expect("valid byte sequence");
}

#[test]
fn parse_array() {
    let src = b"*2\r\n$4\r\nECHO\r\n$3\r\nhey\r\n".to_vec();
    let mut pos: usize = 0;

    let output_frame = Frame::parse(&src, &mut pos).expect("valid byte sequence");
    let expected_frame = Frame::Array(vec![
        Frame::Bulk(b"ECHO".to_vec()),
        Frame::Bulk(b"hey".to_vec()),
    ]);

    assert_eq!(expected_frame, output_frame);
}

#[test]
fn parse_advances_cursor_and_supports_pipelining() {
    let src = b"+one\r\n:2\r\n".to_vec();
    let mut pos: usize = 0;

    let first = Frame::parse(&src, &mut pos).expect("first frame");
    assert_eq!(first, Frame::Simple(b"one".to_vec()));
    assert_eq!(pos, 6);

    let second = Frame::parse(&src, &mut pos).expect("second frame");
    assert_eq!(second, Frame::Integer(2));
    assert_eq!(pos, src.len());
}

#[test]
fn parse_incomplete_bulk_fails_cleanly() {
    let src = b"$10\r\nabc".to_vec();
    let mut pos: usize = 0;
    assert_eq!(Frame::parse(&src, &mut pos), Err(ParseError::NoMoreBytes));
}

#[test]
fn parse_bulk_without_terminator_is_rejected() {
    let src = b"$3\r\nheyXX".to_vec();
    let mut pos: usize = 0;
    assert_eq!(Frame::parse(&src, &mut pos), Err(ParseError::InvalidBulk));
}

#[test]
fn parse_missing_line_terminator() {
    let src = b"+hello".to_vec();
    let mut pos: usize = 0;
    assert_eq!(Frame::parse(&src, &mut pos), Err(ParseError::MissingDelimiter));
}

#[test]
fn parse_bad_bulk_header() {
    let src = b"$-2\r\n".to_vec();
    let mut pos: usize = 0;
    assert_eq!(Frame::parse(&src, &mut pos), Err(ParseError::InvalidBulk));
}

#[test]
fn parse_bad_integer_line() {
    let src = b":12a\r\n".to_vec();
    let mut pos: usize = 0;
    assert_eq!(Frame::parse(&src, &mut pos), Err(ParseError::InvalidInteger));
}

#[test]
fn parse_simple_rejects_bad_utf8() {
    let src = b"+he\xffllo\r\n".to_vec();
    let mut pos: usize = 0;
    assert_eq!(Frame::parse(&src, &mut pos), Err(ParseError::InvalidUtf8));
}

#[test]
fn serialize_each_variant_exactly() {
    assert_eq!(
        Frame::Simple(b"OK".to_vec()).serialize().unwrap(),
        b"+OK\r\n".to_vec()
    );
    assert_eq!(
        Frame::Error(b"oops".to_vec()).serialize().unwrap(),
        b"-oops\r\n".to_vec()
    );
    assert_eq!(Frame::Integer(100).serialize().unwrap(), b":100\r\n".to_vec());
    assert_eq!(Frame::Integer(-7).serialize().unwrap(), b":-7\r\n".to_vec());
    assert_eq!(
        Frame::Integer(i64::MIN).serialize().unwrap(),
        b":-9223372036854775808\r\n".to_vec()
    );
    assert_eq!(Frame::Null.serialize().unwrap(), b"$-1\r\n".to_vec());
    assert_eq!(
        Frame::Bulk(b"hey".to_vec()).serialize().unwrap(),
        b"$3\r\nhey\r\n".to_vec()
    );
    assert_eq!(
        Frame::Array(vec![Frame::Bulk(b"a".to_vec()), Frame::Integer(0)])
            .serialize()
            .unwrap(),
        b"*2\r\n$1\r\na\r\n:0\r\n".to_vec()
    );
}

#[test]
fn serialize_rejects_non_utf8_bulk() {
    let f = Frame::Bulk(vec![0xff, 0xfe]);
    assert!(f.serialize().is_err());
    let nested = Frame::Array(vec![Frame::Bulk(vec![0xff])]);
    assert!(nested.serialize().is_err());
}

#[test]
fn round_trip_through_bytes() {
    let frames = vec![
        Frame::Simple(b"hello".to_vec()),
        Frame::Error(b"bad".to_vec()),
        Frame::Integer(-42),
        Frame::Null,
        Frame::Bulk(b"payload".to_vec()),
        Frame::Array(vec![
            Frame::Simple(b"x".to_vec()),
            Frame::Array(vec![Frame::Integer(7), Frame::Null]),
            Frame::Bulk(b"".to_vec()),
        ]),
    ];
    for f in frames {
        let bytes = f.serialize().expect("serializable");
        let mut pos: usize = 0;
        let back = Frame::parse(&bytes, &mut pos).expect("parses back");
        assert_eq!(back, f);
        assert_eq!(pos, bytes.len());
    }
}

#[test]
fn into_bytes_payloads_and_failures() {
    assert_eq!(
        Frame::Simple(b"hi".to_vec()).into_bytes(),
        Ok(b"hi".to_vec())
    );
    assert_eq!(
        Frame::Error(b"err".to_vec()).into_bytes(),
        Ok(b"err".to_vec())
    );
    assert_eq!(
        Frame::Bulk(b"data".to_vec()).into_bytes(),
        Ok(b"data".to_vec())
    );
    assert_eq!(Frame::Integer(1).into_bytes(), Err(IntoBytesError::Integer));
    assert_eq!(Frame::Null.into_bytes(), Err(IntoBytesError::Null));
    assert_eq!(
        Frame::Array(vec![]).into_bytes(),
        Err(IntoBytesError::Array)
    );
}

#[test]
fn cursor_helpers_behave() {
    let src = b"ab\r\ncd".to_vec();
    let mut pos: usize = 0;
    assert_eq!(miniredis::resp::get_u8(&src, &mut pos), Ok(b'a'));
    assert_eq!(pos, 1);
    assert_eq!(miniredis::resp::peek_u8(&src, pos), Ok(b'b'));
    assert_eq!(pos, 1);
    let line = miniredis::resp::get_line(&src, &mut pos).expect("line");
    assert_eq!(line, b"b".to_vec());
    assert_eq!(pos, 4);
    assert!(miniredis::resp::skip(&src, &mut pos, 3).is_err());
    assert_eq!(miniredis::resp::skip(&src, &mut pos, 2), Ok(()));
    assert_eq!(pos, 6);
    assert!(miniredis::resp::get_u8(&src, &mut pos).is_err());

    let src = b"42\r\n".to_vec();
    let mut pos: usize = 0;
    assert_eq!(miniredis::resp::get_decimal(&src, &mut pos), Ok(42));
}

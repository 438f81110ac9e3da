use msredis::frame::{DecodeError, Frame};

#[test]
fn test_encode_scalars() {
    assert_eq!(Frame::Okay.as_bytes(), b"+OK\r\n");
    assert_eq!(Frame::Null.as_bytes(), b"$-1\r\n");
    assert_eq!(Frame::Integer(0).as_bytes(), b":0\r\n");
    assert_eq!(Frame::Integer(-42).as_bytes(), b":-42\r\n");
    assert_eq!(Frame::Integer(i64::MIN).as_bytes(), b":-9223372036854775808\r\n");
    assert_eq!(Frame::SimpleString("abc".to_owned()).as_bytes(), b"+abc\r\n");
    assert_eq!(Frame::Error("oops".to_owned()).as_bytes(), b"-oops\r\n");
    assert_eq!(Frame::BatchString("hello".to_owned()).as_bytes(), b"$5\r\nhello\r\n");
}

#[test]
fn test_encode_array() {
    let f = Frame::Array(vec![
        Frame::SimpleString("a".to_owned()),
        Frame::Integer(7),
        Frame::Null,
    ]);
    assert_eq!(f.as_bytes(), b"*3\r\n+a\r\n:7\r\n$-1\r\n");
}

#[test]
fn test_round_trip() {
    let frames = vec![
        Frame::Okay,
        Frame::Null,
        Frame::Integer(i64::MAX),
        Frame::Integer(i64::MIN),
        Frame::SimpleString("hello".to_owned()),
        Frame::Error("bad".to_owned()),
        Frame::BatchString("with\r\nnewlines".to_owned()),
        Frame::Array(vec![
            Frame::Integer(-5),
            Frame::Array(vec![Frame::BatchString("nested".to_owned())]),
            Frame::SimpleString("x".to_owned()),
        ]),
        Frame::Array(vec![]),
    ];
    for f in frames {
        let bytes = f.as_bytes();
        let decoded = Frame::from_bytes(&bytes).unwrap();
        // re-encoding the decoded frame reproduces the exact wire bytes
        assert_eq!(decoded.as_bytes(), bytes);
    }
}

#[test]
fn test_decode_request_scenario() {
    let f = Frame::from_bytes(b"*3\r\n+set\r\n+key1\r\n+msredis\r\n").unwrap();
    let args = f.get_args();
    assert_eq!(args, vec!["set".to_owned(), "key1".to_owned(), "msredis".to_owned()]);
    assert_eq!(f.get_arg(0), Some("set".to_owned()));
    assert_eq!(f.get_arg(2), Some("msredis".to_owned()));
    assert_eq!(f.get_arg(3), None);
    assert_eq!(f.get_args_from_index(1), vec!["key1".to_owned(), "msredis".to_owned()]);
    assert_eq!(f.get_args_from_index(3), Vec::<String>::new());
}

#[test]
fn test_decode_ok_collapses() {
    let decoded = Frame::from_bytes(b"+OK\r\n").unwrap();
    assert_eq!(decoded.to_string(), "OK");
    assert_eq!(decoded.as_bytes(), b"+OK\r\n");
}

#[test]
fn test_decode_errors() {
    assert!(matches!(Frame::from_bytes(b""), Err(DecodeError::Malformed)));
    assert!(matches!(Frame::from_bytes(b"?x\r\n"), Err(DecodeError::Malformed)));
    assert!(matches!(Frame::from_bytes(b"+abc"), Err(DecodeError::Malformed)));
    assert!(matches!(Frame::from_bytes(b"$5\r\nab\r\n"), Err(DecodeError::Malformed)));
    assert!(matches!(Frame::from_bytes(b":12a\r\n"), Err(DecodeError::Malformed)));
    assert!(matches!(Frame::from_bytes(b":\r\n"), Err(DecodeError::Malformed)));
    assert!(matches!(
        Frame::from_bytes(b":9223372036854775808\r\n"),
        Err(DecodeError::Malformed)
    ));
    assert!(matches!(Frame::from_bytes(b"*2\r\n+a\r\n"), Err(DecodeError::Malformed)));
    // text must be valid UTF-8
    assert!(matches!(Frame::from_bytes(b"+\xff\xfe\r\n"), Err(DecodeError::Malformed)));
}

#[test]
fn test_decode_integers() {
    let f = Frame::from_bytes(b":-9223372036854775808\r\n").unwrap();
    assert_eq!(f.to_string(), i64::MIN.to_string());
    let g = Frame::from_bytes(b":007\r\n").unwrap();
    assert_eq!(g.to_string(), "7");
}

#[test]
fn test_to_string_rendering() {
    assert_eq!(Frame::Okay.to_string(), "ok");
    assert_eq!(Frame::Null.to_string(), "");
    assert_eq!(Frame::Integer(-31).to_string(), "-31");
    assert_eq!(Frame::BatchString("v".to_owned()).to_string(), "v");
    let f = Frame::Array(vec![
        Frame::SimpleString("get".to_owned()),
        Frame::SimpleString("key".to_owned()),
    ]);
    assert_eq!(f.to_string(), "get key");
    let g = Frame::Array(vec![Frame::SimpleString("solo".to_owned()), Frame::Null]);
    assert_eq!(g.to_string(), "solo");
}

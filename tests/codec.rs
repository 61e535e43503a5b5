use bytes::BytesMut;
use codecrafters_redis::resp::codec::RespFrame;
use codecrafters_redis::resp::parse::RespParseError;
use codecrafters_redis::resp::RedisValue;

#[test]
fn encode_simple_string() {
    let mut buf = BytesMut::with_capacity(1024);
    let item = RedisValue::SimpleString("OK".into());
    RespFrame::encode_value(item, &mut buf);
    assert_eq!(&buf[..], &b"+OK\r\n"[..]);
}

#[test]
fn encode_simple_error() {
    let mut buf = BytesMut::with_capacity(1024);
    let item = RedisValue::SimpleError("Error message".into());
    RespFrame::encode_value(item, &mut buf);
    assert_eq!(&buf[..], &b"-Error message\r\n"[..]);
}

#[test]
fn encode_integer() {
    let mut buf = BytesMut::with_capacity(1024);

    // encoding 0
    let item = RedisValue::Integer(0);
    RespFrame::encode_value(item, &mut buf);
    assert_eq!(&buf[..], &b":0\r\n"[..]);
    buf.clear();

    // encoding 1000
    let item = RedisValue::Integer(1000);
    RespFrame::encode_value(item, &mut buf);
    assert_eq!(&buf[..], &b":1000\r\n"[..]);
    buf.clear();

    // encoding negative values
    let item = RedisValue::Integer(-1);
    RespFrame::encode_value(item, &mut buf);
    assert_eq!(&buf[..], &b":-1\r\n"[..]);
}

#[test]
fn encode_bulk_string() {
    let mut buf = BytesMut::with_capacity(1024);

    // null bulk string
    let item = RedisValue::NullBulkString;
    RespFrame::encode_value(item, &mut buf);
    assert_eq!(&buf[..], &b"$-1\r\n"[..]);
    buf.clear();

    // empty string
    let item = RedisValue::BulkString("".into());
    RespFrame::encode_value(item, &mut buf);
    assert_eq!(&buf[..], &b"$0\r\n\r\n"[..]);
    buf.clear();

    // basic bulk string
    let item = RedisValue::BulkString("hello".into());
    RespFrame::encode_value(item, &mut buf);
    assert_eq!(&buf[..], &b"$5\r\nhello\r\n"[..]);
}

#[test]
fn encode_array() {
    let mut buf = BytesMut::with_capacity(1024);

    // null array
    let item = RedisValue::NullArray;
    RespFrame::encode_value(item, &mut buf);
    assert_eq!(&buf[..], &b"*-1\r\n"[..]);
    buf.clear();

    // empty array
    let item = RedisValue::Array(vec![]);
    RespFrame::encode_value(item, &mut buf);
    assert_eq!(&buf[..], &b"*0\r\n"[..]);
    buf.clear();

    // array of two bulk strings "hello" and "world"
    let item = RedisValue::Array(vec![
        RedisValue::BulkString("hello".into()),
        RedisValue::BulkString("world".into()),
    ]);
    RespFrame::encode_value(item, &mut buf);
    assert_eq!(&buf[..], &b"*2\r\n$5\r\nhello\r\n$5\r\nworld\r\n"[..]);
    buf.clear();

    // array of three integers
    let item = RedisValue::Array(vec![
        RedisValue::Integer(1),
        RedisValue::Integer(2),
        RedisValue::Integer(3),
    ]);
    RespFrame::encode_value(item, &mut buf);
    assert_eq!(&buf[..], &b"*3\r\n:1\r\n:2\r\n:3\r\n"[..]);
    buf.clear();

    // mixed array types
    let item = RedisValue::Array(vec![
        RedisValue::Integer(1),
        RedisValue::Integer(2),
        RedisValue::Integer(3),
        RedisValue::Integer(4),
        RedisValue::BulkString("hello".into()),
    ]);
    RespFrame::encode_value(item, &mut buf);
    assert_eq!(
        &buf[..],
        &b"*5\r\n:1\r\n:2\r\n:3\r\n:4\r\n$5\r\nhello\r\n"[..]
    );
    buf.clear();

    // nested array
    let item = RedisValue::Array(vec![
        RedisValue::Array(vec![
            RedisValue::Integer(1),
            RedisValue::Integer(2),
            RedisValue::Integer(3),
        ]),
        RedisValue::Array(vec![
            RedisValue::SimpleString("Hello".into()),
            RedisValue::SimpleError("World".into()),
        ]),
    ]);
    RespFrame::encode_value(item, &mut buf);
    assert_eq!(
        &buf[..],
        &b"*2\r\n*3\r\n:1\r\n:2\r\n:3\r\n*2\r\n+Hello\r\n-World\r\n"[..]
    );
    buf.clear();
}

#[test]
fn encode_appends_to_what_is_buffered() {
    let mut buf = BytesMut::from(&b"+A\r\n"[..]);
    let mut frame = RespFrame;
    frame.encode(RedisValue::Integer(i64::MIN), &mut buf);
    assert_eq!(&buf[..], &b"+A\r\n:-9223372036854775808\r\n"[..]);
}

fn encoded(v: RedisValue) -> Vec<u8> {
    let mut buf = BytesMut::new();
    RespFrame::encode_value(v, &mut buf);
    buf.to_vec()
}

fn sample_values() -> Vec<RedisValue> {
    vec![
        RedisValue::SimpleString("OK".into()),
        RedisValue::SimpleError("ERR x".into()),
        RedisValue::Integer(-42),
        RedisValue::Integer(i64::MAX),
        RedisValue::NullBulkString,
        RedisValue::BulkString(b"a\r\nb".to_vec()),
        RedisValue::BulkString("".into()),
        RedisValue::NullArray,
        RedisValue::Array(vec![]),
        RedisValue::Array(vec![
            RedisValue::Integer(7),
            RedisValue::Array(vec![RedisValue::BulkString("in".into())]),
        ]),
    ]
}

#[test]
fn decode_reads_back_each_encoding() {
    for v in sample_values() {
        let bytes = encoded(v);
        let mut buf = BytesMut::from(&bytes[..]);
        let mut frame = RespFrame;
        let got = frame.decode(&mut buf).unwrap().unwrap();
        assert_eq!(encoded(got), bytes);
        assert!(buf.is_empty());
    }
}

#[test]
fn decode_asks_for_more_on_every_proper_prefix() {
    for v in sample_values() {
        let bytes = encoded(v);
        for n in 0..bytes.len() {
            let mut buf = BytesMut::from(&bytes[..n]);
            let mut frame = RespFrame;
            assert!(frame.decode(&mut buf).unwrap().is_none());
            assert_eq!(&buf[..], &bytes[..n]);
        }
    }
}

#[test]
fn decode_byte_by_byte_yields_the_stream_in_order() {
    let mut stream = Vec::new();
    for v in sample_values() {
        stream.extend(encoded(v));
    }
    let mut buf = BytesMut::new();
    let mut frame = RespFrame;
    let mut out = Vec::new();
    for b in stream {
        buf.extend_from_slice(&[b]);
        if let Some(v) = frame.decode(&mut buf).unwrap() {
            out.push(v);
        }
    }
    assert_eq!(out, sample_values());
    assert!(buf.is_empty());
}

#[test]
fn decode_leaves_the_next_message_buffered() {
    let mut buf = BytesMut::from(&b"+OK\r\n:100\r\n:1"[..]);
    let mut frame = RespFrame;
    assert_eq!(
        frame.decode(&mut buf).unwrap(),
        Some(RedisValue::SimpleString("OK".into()))
    );
    assert_eq!(&buf[..], &b":100\r\n:1"[..]);
    assert_eq!(frame.decode(&mut buf).unwrap(), Some(RedisValue::Integer(100)));
    assert_eq!(frame.decode(&mut buf).unwrap(), None);
    assert_eq!(&buf[..], &b":1"[..]);
}

#[test]
fn decode_empty_buffer_needs_more() {
    let mut buf = BytesMut::new();
    let mut frame = RespFrame;
    assert_eq!(frame.decode(&mut buf).unwrap(), None);
}

#[test]
fn length_bounds_are_enforced() {
    let mut frame = RespFrame;
    let mut buf = BytesMut::from(&b"$4294967296\r\n"[..]);
    assert_eq!(frame.decode(&mut buf), Err(RespParseError::ExceededMaxLength));
    assert_eq!(&buf[..], &b"$4294967296\r\n"[..]);
    let mut buf = BytesMut::from(&b"$-2\r\n"[..]);
    assert_eq!(
        frame.decode(&mut buf),
        Err(RespParseError::InvalidBulkStringLength(-2))
    );
    let mut buf = BytesMut::from(&b"*4294967296\r\n"[..]);
    assert_eq!(frame.decode(&mut buf), Err(RespParseError::ExceededMaxLength));
    let mut buf = BytesMut::from(&b"*-3\r\n"[..]);
    assert_eq!(frame.decode(&mut buf), Err(RespParseError::InvalidArrayLength(-3)));
}

#[test]
fn framing_errors() {
    let mut frame = RespFrame;
    let mut buf = BytesMut::from(&b"?x\r\n"[..]);
    assert_eq!(frame.decode(&mut buf), Err(RespParseError::InvalidFirstByte));
    let mut buf = BytesMut::from(&b":12x\r\n"[..]);
    assert_eq!(frame.decode(&mut buf), Err(RespParseError::ParseIntegerError));
    let mut buf = BytesMut::from(&b":\xff\r\n"[..]);
    assert_eq!(frame.decode(&mut buf), Err(RespParseError::ParseUtf8Error));
    let mut buf = BytesMut::from(&b":99999999999999999999\r\n"[..]);
    assert_eq!(frame.decode(&mut buf), Err(RespParseError::ParseIntegerError));
}

#[test]
fn integers_accept_signs_and_extremes() {
    let mut frame = RespFrame;
    let mut buf = BytesMut::from(&b":+17\r\n:-9223372036854775808\r\n:9223372036854775807\r\n"[..]);
    assert_eq!(frame.decode(&mut buf).unwrap(), Some(RedisValue::Integer(17)));
    assert_eq!(frame.decode(&mut buf).unwrap(), Some(RedisValue::Integer(i64::MIN)));
    assert_eq!(frame.decode(&mut buf).unwrap(), Some(RedisValue::Integer(i64::MAX)));
    let mut buf = BytesMut::from(&b":9223372036854775808\r\n"[..]);
    assert_eq!(frame.decode(&mut buf), Err(RespParseError::ParseIntegerError));
}

#[test]
fn decode_in_uneven_chunks_yields_the_stream_in_order() {
    let mut stream = Vec::new();
    for v in sample_values() {
        stream.extend(encoded(v));
    }
    for size in [2usize, 3, 7, 16, 1000] {
        let mut buf = BytesMut::new();
        let mut frame = RespFrame;
        let mut out = Vec::new();
        for chunk in stream.chunks(size) {
            buf.extend_from_slice(chunk);
            while let Some(v) = frame.decode(&mut buf).unwrap() {
                out.push(v);
            }
        }
        assert_eq!(out, sample_values());
        assert!(buf.is_empty());
    }
}

#[test]
fn bulk_string_needs_its_closing_crlf() {
    let mut frame = RespFrame;
    let mut buf = BytesMut::from(&b"$3\r\nabcXY"[..]);
    assert_eq!(
        frame.decode(&mut buf),
        Err(RespParseError::MissingBulkStringTerminator)
    );
    assert_eq!(&buf[..], &b"$3\r\nabcXY"[..]);
    let mut buf = BytesMut::from(&b"$3\r\nabc\r"[..]);
    assert_eq!(frame.decode(&mut buf), Ok(None));
    buf.extend_from_slice(b"\n");
    assert_eq!(
        frame.decode(&mut buf),
        Ok(Some(RedisValue::BulkString("abc".into())))
    );
}

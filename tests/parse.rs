use bytes::BytesMut;
use codecrafters_redis::resp::parse::{parse, parse_word, BufRange, RedisIntermediate, RespParseError};
use codecrafters_redis::resp::RedisValue;

fn setup_parse(input: &[u8]) -> RedisValue {
    let mut buf = BytesMut::from(input);
    let (pos, intermediate) = parse(&buf, 0).unwrap().unwrap();
    let parsed = buf.split_to(pos);
    intermediate.generate_value(&parsed.freeze())
}

fn setup_result(input: &[u8]) -> Result<Option<(usize, RedisIntermediate)>, RespParseError> {
    let buf = BytesMut::from(input);
    parse(&buf, 0)
}

#[test]
fn test_parse() {
    let mut buf = BytesMut::from("$5\r\nhello\r\n");
    let (pos, v) = parse(&buf, 0).unwrap().unwrap();
    assert_eq!(pos, 11);
    assert_eq!(v, RedisIntermediate::BulkString(BufRange(4, 9)));
    // how we would use it in the decoder is below
    let parsed = buf.split_to(pos);
    let value = v.generate_value(&parsed.freeze());
    assert_eq!(value, RedisValue::BulkString("hello".into()));
}

#[test]
fn test_word() {
    let buf = BytesMut::from("32\r\n");
    assert_eq!(parse_word(&buf, 0), Some((4, BufRange(0, 2))));
    let buf = BytesMut::from("string\r\n");
    assert_eq!(parse_word(&buf, 0), Some((8, BufRange(0, 6))));
    let buf = BytesMut::from("32\r");
    assert!(parse_word(&buf, 0).is_none());
}

#[test]
fn test_simple_string_error_succ() {
    let parsed = setup_parse(&b"+OK\r\n"[..]);
    assert_eq!(parsed, RedisValue::SimpleString("OK".into()));
    let parsed = setup_parse(&b"-Error message\r\n"[..]);
    assert_eq!(parsed, RedisValue::SimpleError("Error message".into()));
}

#[test]
fn test_simple_string_error_fail() {
    let res = setup_result(&b"+OK"[..]).unwrap();
    assert!(res.is_none());
    let res = setup_result(&b"-Error"[..]).unwrap();
    assert!(res.is_none());
}

#[test]
fn test_integer_succ() {
    let parsed = setup_parse(&b":0\r\n"[..]);
    assert_eq!(parsed, RedisValue::Integer(0));
    let parsed = setup_parse(&b":100\r\n"[..]);
    assert_eq!(parsed, RedisValue::Integer(100));
    let parsed = setup_parse(&b":-100\r\n"[..]);
    assert_eq!(parsed, RedisValue::Integer(-100));
}

#[test]
fn test_integer_fail() {
    let res = setup_result(&b":1a0\r\n"[..]);
    assert!(res.is_err());
}

#[test]
fn test_bulk_string_succ() {
    let parsed = setup_parse(&b"$-1\r\n"[..]);
    assert_eq!(parsed, RedisValue::NullBulkString);
    let parsed = setup_parse(&b"$5\r\nhello\r\n"[..]);
    assert_eq!(parsed, RedisValue::BulkString("hello".into()));
    let parsed = setup_parse(&b"$0\r\n\r\n"[..]);
    assert_eq!(parsed, RedisValue::BulkString("".into()));
}

#[test]
fn test_bulk_string_fail() {
    let res = setup_result(&b"$a\r\nhellohello\r\n"[..]);
    assert!(res.is_err());
    let res = setup_result(&b"$10\r\nhello\r\n"[..]).unwrap();
    assert!(res.is_none());
    let res = setup_result(&b"$10\r\nhello678\r\n"[..]).unwrap();
    assert!(res.is_none());
}

#[test]
fn test_array_succ() {
    let parsed = setup_parse(&b"*-1\r\n"[..]);
    assert_eq!(parsed, RedisValue::NullArray);
    let parsed = setup_parse(&b"*0\r\n"[..]);
    assert_eq!(parsed, RedisValue::Array(vec![]));
    let parsed = setup_parse(&b"*2\r\n$5\r\nhello\r\n$5\r\nworld\r\n"[..]);
    assert_eq!(
        parsed,
        RedisValue::Array(vec![
            RedisValue::BulkString("hello".into()),
            RedisValue::BulkString("world".into())
        ])
    );
    let parsed = setup_parse(&b"*3\r\n:1\r\n:2\r\n:3\r\n"[..]);
    assert_eq!(
        parsed,
        RedisValue::Array(vec![
            RedisValue::Integer(1),
            RedisValue::Integer(2),
            RedisValue::Integer(3)
        ])
    );
}

#[test]
fn complex_arrays() {
    let parsed = setup_parse(&b"*5\r\n:1\r\n:2\r\n:3\r\n:4\r\n$5\r\nhello\r\n"[..]);
    assert_eq!(
        parsed,
        RedisValue::Array(vec![
            RedisValue::Integer(1),
            RedisValue::Integer(2),
            RedisValue::Integer(3),
            RedisValue::Integer(4),
            RedisValue::BulkString("hello".into()),
        ])
    );

    let parsed = setup_parse(&b"*2\r\n*3\r\n:1\r\n:2\r\n:3\r\n*2\r\n+Hello\r\n-World\r\n"[..]);
    assert_eq!(
        parsed,
        RedisValue::Array(vec![
            RedisValue::Array(vec![
                RedisValue::Integer(1),
                RedisValue::Integer(2),
                RedisValue::Integer(3),
            ]),
            RedisValue::Array(vec![
                RedisValue::SimpleString("Hello".into()),
                RedisValue::SimpleError("World".into()),
            ]),
        ])
    );
}

#[test]
fn test_array_fail() {
    let res = setup_result(&b"*2\r\n:1\r\n"[..]).unwrap();
    assert!(res.is_none());
}

#[test]
fn test_multiple_parse() {
    let mut input = BytesMut::from(&b"+OK\r\n:100\r\n"[..]);
    let (pos, intermediate) = parse(&input, 0).unwrap().unwrap();
    let parsed = input.split_to(pos);
    assert_eq!(
        intermediate.generate_value(&parsed.freeze()),
        RedisValue::SimpleString("OK".into())
    );
    // parse the input again from index 0
    let (pos, intermediate) = parse(&input, 0).unwrap().unwrap();
    let parsed = input.split_to(pos);
    assert_eq!(
        intermediate.generate_value(&parsed.freeze()),
        RedisValue::Integer(100)
    );
}

#[test]
fn parse_word_finds_the_first_crlf_from_a_position() {
    let buf = BytesMut::from("+OK\r\n+NO\r\n");
    assert_eq!(parse_word(&buf, 6), Some((10, BufRange(6, 8))));
    let buf = BytesMut::from("+OK\r");
    assert_eq!(parse_word(&buf, 1), None);
    let buf = BytesMut::from("a\rb\r\n");
    assert_eq!(parse_word(&buf, 0), None);
}

#[test]
fn parse_at_a_position() {
    let buf = BytesMut::from("+OK\r\n:5\r\n");
    assert_eq!(
        parse(&buf, 5).unwrap(),
        Some((9, RedisIntermediate::Integer(5)))
    );
    assert_eq!(parse(&buf, 9).unwrap(), None);
}

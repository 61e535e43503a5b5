use bytes::BytesMut;
use codecrafters_redis::command::{CommandError, RedisCommand, Ttl};
use codecrafters_redis::connection::{error_reply, get_reply, handle_cmd, length_reply, respond};
use codecrafters_redis::resp::codec::RespFrame;
use codecrafters_redis::resp::RedisValue;
use codecrafters_redis::server::expiry::{expire_due, ExpiryQueue};
use codecrafters_redis::server::types::{Database, ExpiryEvent, Value};

/// Decodes one request, carries it out at `now` and encodes the reply.
fn exchange(db: &Database, request: &[u8], now: u64) -> (Vec<u8>, Option<ExpiryEvent>) {
    let mut buf = BytesMut::from(request);
    let mut frame = RespFrame;
    let msg = frame.decode(&mut buf).unwrap().unwrap();
    assert!(buf.is_empty());
    let cmd = RedisCommand::parse(msg).unwrap();
    let (reply, event) = handle_cmd(db, cmd, now).unwrap();
    let mut out = BytesMut::new();
    frame.encode(reply, &mut out);
    (out.to_vec(), event)
}

#[test]
fn ping_replies_pong() {
    let db = Database::new();
    let (reply, event) = exchange(&db, b"*1\r\n$4\r\nPING\r\n", 0);
    assert_eq!(reply, b"+PONG\r\n");
    assert_eq!(event, None);
}

#[test]
fn echo_replies_its_argument() {
    let db = Database::new();
    let (reply, _) = exchange(&db, b"*2\r\n$4\r\nECHO\r\n$5\r\nhello\r\n", 0);
    assert_eq!(reply, b"$5\r\nhello\r\n");
}

#[test]
fn get_of_an_absent_key_is_null() {
    let db = Database::new();
    let (reply, _) = exchange(&db, b"*2\r\n$3\r\nGET\r\n$6\r\nabsent\r\n", 0);
    assert_eq!(reply, b"$-1\r\n");
}

#[test]
fn set_then_get() {
    let db = Database::new();
    let (reply, event) = exchange(&db, b"*3\r\n$3\r\nSET\r\n$1\r\nk\r\n$1\r\nv\r\n", 0);
    assert_eq!(reply, b"+OK\r\n");
    assert_eq!(event, None);
    let (reply, _) = exchange(&db, b"*2\r\n$3\r\nGET\r\n$1\r\nk\r\n", 1_000_000);
    assert_eq!(reply, b"$1\r\nv\r\n");
}

#[test]
fn set_again_overwrites() {
    let db = Database::new();
    exchange(&db, b"*3\r\n$3\r\nSET\r\n$1\r\nk\r\n$1\r\nv\r\n", 0);
    exchange(&db, b"*3\r\n$3\r\nSET\r\n$1\r\nk\r\n$2\r\nv2\r\n", 1);
    let (reply, _) = exchange(&db, b"*2\r\n$3\r\nGET\r\n$1\r\nk\r\n", 2);
    assert_eq!(reply, b"$2\r\nv2\r\n");
}

#[test]
fn set_with_px_expires() {
    let db = Database::new();
    let (reply, event) = exchange(
        &db,
        b"*5\r\n$3\r\nSET\r\n$1\r\nk\r\n$1\r\nv\r\n$2\r\nPX\r\n$2\r\n50\r\n",
        1000,
    );
    assert_eq!(reply, b"+OK\r\n");
    assert_eq!(event, Some((1050, b"k".to_vec())));
    let (reply, _) = exchange(&db, b"*2\r\n$3\r\nGET\r\n$1\r\nk\r\n", 1049);
    assert_eq!(reply, b"$1\r\nv\r\n");
    // 100 ms later, before the scheduler has run
    let (reply, _) = exchange(&db, b"*2\r\n$3\r\nGET\r\n$1\r\nk\r\n", 1100);
    assert_eq!(reply, b"$-1\r\n");
}

#[test]
fn rpush_returns_the_new_length() {
    let db = Database::new();
    let (reply, _) = exchange(&db, b"*4\r\n$5\r\nRPUSH\r\n$1\r\nL\r\n$1\r\na\r\n$1\r\nb\r\n", 0);
    assert_eq!(reply, b":2\r\n");
    let (reply, _) = exchange(&db, b"*3\r\n$5\r\nRPUSH\r\n$1\r\nL\r\n$1\r\nc\r\n", 0);
    assert_eq!(reply, b":3\r\n");
}

#[test]
fn set_with_a_deadline_past_the_clock_fails() {
    let db = Database::new();
    let cmd = RedisCommand::SetValue {
        key: "k".into(),
        value: "v".into(),
        expiration: Some(Ttl::Millis(10)),
    };
    assert_eq!(
        handle_cmd(&db, cmd, u64::MAX - 5).err(),
        Some(CommandError::DeadlineOverflow)
    );
    assert_eq!(db.get_key(&b"k".to_vec(), 0), None);
}

#[test]
fn get_reply_maps_hits_and_misses() {
    assert_eq!(get_reply(None), RedisValue::NullBulkString);
    assert_eq!(get_reply(Some("x".into())), RedisValue::BulkString("x".into()));
}

#[test]
fn value_expiry() {
    let v = Value::new("v".into(), Some(10));
    assert!(!v.expired(9));
    assert!(v.expired(10));
    assert!(v.expires_at(10));
    assert!(!v.expires_at(11));
    assert!(!Value::new("v".into(), None).expired(u64::MAX));
    assert_eq!(Value::visible_value(Some(Value::new("v".into(), Some(10))), 9), Some("v".into()));
    assert_eq!(Value::visible_value(Some(Value::new("v".into(), Some(10))), 10), None);
    assert_eq!(Value::visible_value(None, 0), None);
}

#[test]
fn scheduler_removes_due_keys() {
    let db = Database::new();
    let mut queue = ExpiryQueue::new();
    let (_, event) = exchange(
        &db,
        b"*5\r\n$3\r\nSET\r\n$1\r\nk\r\n$1\r\nv\r\n$2\r\nPX\r\n$2\r\n50\r\n",
        0,
    );
    let (t, k) = event.unwrap();
    queue.schedule(t, k);
    assert_eq!(queue.next_deadline(), Some(50));
    assert_eq!(expire_due(&db, &mut queue, 49), 0);
    assert_eq!(db.get_key_expiration(&b"k".to_vec()), Some(50));
    assert_eq!(expire_due(&db, &mut queue, 50), 1);
    assert_eq!(db.get_key_expiration(&b"k".to_vec()), None);
    assert_eq!(queue.next_deadline(), None);
}

#[test]
fn a_later_set_outlives_the_earlier_deadline() {
    let db = Database::new();
    let mut queue = ExpiryQueue::new();
    let (_, e1) = exchange(
        &db,
        b"*5\r\n$3\r\nSET\r\n$1\r\nk\r\n$1\r\nv\r\n$2\r\nEX\r\n$2\r\n10\r\n",
        0,
    );
    queue.schedule(e1.clone().unwrap().0, e1.unwrap().1);
    let (_, e2) = exchange(
        &db,
        b"*5\r\n$3\r\nSET\r\n$1\r\nk\r\n$2\r\nv2\r\n$2\r\nEX\r\n$3\r\n100\r\n",
        5_000,
    );
    let (t2, k2) = e2.unwrap();
    assert_eq!(t2, 105_000);
    queue.schedule(t2, k2);
    assert_eq!(queue.next_deadline(), Some(105_000));
    expire_due(&db, &mut queue, 10_000);
    let (reply, _) = exchange(&db, b"*2\r\n$3\r\nGET\r\n$1\r\nk\r\n", 10_000);
    assert_eq!(reply, b"$2\r\nv2\r\n");
    // a stale event, should one arrive, removes nothing
    assert!(db.remove_if_expires_at(&b"k".to_vec(), 10_000).is_none());
    assert_eq!(db.get_key(&b"k".to_vec(), 10_001), Some("v2".into()));
    expire_due(&db, &mut queue, 105_000);
    assert_eq!(db.get_key_expiration(&b"k".to_vec()), None);
}

#[test]
fn a_shorter_set_expires_sooner() {
    let db = Database::new();
    let mut queue = ExpiryQueue::new();
    db.set_key(&b"k".to_vec(), Value::new("v".into(), Some(100_000)));
    queue.schedule(100_000, b"k".to_vec());
    db.set_key(&b"k".to_vec(), Value::new("v".into(), Some(10_000)));
    queue.schedule(10_000, b"k".to_vec());
    assert_eq!(queue.next_deadline(), Some(10_000));
    assert_eq!(expire_due(&db, &mut queue, 10_000), 1);
    assert_eq!(db.get_key(&b"k".to_vec(), 10_000), None);
    assert_eq!(queue.next_deadline(), None);
}

#[test]
fn queue_takes_the_earliest_first() {
    let mut queue = ExpiryQueue::new();
    queue.schedule(30, b"c".to_vec());
    queue.schedule(10, b"a".to_vec());
    queue.schedule(20, b"b".to_vec());
    assert_eq!(queue.pop_due(5), None);
    assert_eq!(queue.pop_due(100), Some((10, b"a".to_vec())));
    assert_eq!(queue.pop_due(100), Some((20, b"b".to_vec())));
    assert_eq!(queue.pop_due(100), Some((30, b"c".to_vec())));
    assert_eq!(queue.pop_due(100), None);
}

#[test]
fn pipelined_requests_reply_in_order() {
    let db = Database::new();
    let mut buf = BytesMut::from(
        &b"*3\r\n$3\r\nSET\r\n$1\r\nk\r\n$1\r\nv\r\n*2\r\n$3\r\nGET\r\n$1\r\nk\r\n*1\r\n$4\r\nPING\r\n"[..],
    );
    let mut frame = RespFrame;
    let mut out = BytesMut::new();
    while let Some(msg) = frame.decode(&mut buf).unwrap() {
        let cmd = RedisCommand::parse(msg).unwrap();
        let (reply, _) = handle_cmd(&db, cmd, 0).unwrap();
        frame.encode(reply, &mut out);
    }
    assert_eq!(&out[..], &b"+OK\r\n$1\r\nv\r\n+PONG\r\n"[..]);
}

#[test]
fn get_key_expiration_reports_the_stored_deadline() {
    let db = Database::new();
    let k = b"k".to_vec();
    assert_eq!(db.get_key_expiration(&k), None);
    db.set_key(&k, Value::new("v".into(), Some(40)));
    assert_eq!(db.get_key_expiration(&k), Some(40));
    // still reported once the deadline has passed, until the entry is removed
    assert_eq!(db.get_key(&k, 50), None);
    assert_eq!(db.get_key_expiration(&k), Some(40));
    db.set_key(&k, Value::new("v".into(), None));
    assert_eq!(db.get_key_expiration(&k), None);
    assert_eq!(Value::expiration_of(Some(Value::new("v".into(), Some(7)))), Some(7));
    assert_eq!(Value::expiration_of(None), None);
}

#[test]
fn error_replies_drop_line_breaks() {
    assert_eq!(
        error_reply(b"ERR bad\r\ninput"),
        RedisValue::SimpleError("ERR badinput".into())
    );
}

#[test]
fn set_with_ex_beyond_the_clock_is_refused_when_carried_out() {
    let db = Database::new();
    let cmd = RedisCommand::SetValue {
        key: "k".into(),
        value: "v".into(),
        expiration: Some(Ttl::Seconds(18446744073709552)),
    };
    assert_eq!(
        handle_cmd(&db, cmd, 0).err(),
        Some(CommandError::DeadlineOverflow)
    );
    let cmd = RedisCommand::SetValue {
        key: "k".into(),
        value: "v".into(),
        expiration: Some(Ttl::Seconds(3)),
    };
    let (_, event) = handle_cmd(&db, cmd, 500).unwrap();
    assert_eq!(event, Some((3500, b"k".to_vec())));
}

#[test]
fn length_replies() {
    assert_eq!(length_reply(0), RedisValue::Integer(0));
    assert_eq!(length_reply(3), RedisValue::Integer(3));
}

#[test]
fn respond_maps_errors_to_error_replies() {
    let db = Database::new();
    let (reply, event) = respond(&db, RedisValue::Integer(1), 0);
    assert!(matches!(reply, RedisValue::SimpleError(_)));
    assert_eq!(event, None);
    let set = RedisValue::Array(vec![
        RedisValue::BulkString("SET".into()),
        RedisValue::BulkString("k".into()),
        RedisValue::BulkString("v".into()),
        RedisValue::BulkString("EX".into()),
        RedisValue::BulkString("18446744073709552".into()),
    ]);
    let (reply, event) = respond(&db, set, 0);
    assert!(matches!(reply, RedisValue::SimpleError(_)));
    assert_eq!(event, None);
    let ping = RedisValue::Array(vec![RedisValue::BulkString("PING".into())]);
    assert_eq!(respond(&db, ping, 0), (RedisValue::SimpleString("PONG".into()), None));
}

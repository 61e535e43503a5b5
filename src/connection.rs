//! What a connection does with each command: the reply it writes and the
//! expiration it hands to the scheduler.

use vstd::prelude::*;

use crate::command::{spec_command, ttl_millis, Command, CommandError, RedisCommand, Ttl};
use crate::resp::{well_formed, RedisValue, Resp, CR, LF};
use crate::server::types::{Database, ExpiryEvent, Value};

verus! {

/// `PONG`.
pub open spec fn pong() -> Seq<u8> {
    seq![80u8, 79u8, 78u8, 71u8]
}

/// `OK`.
pub open spec fn ok() -> Seq<u8> {
    seq![79u8, 75u8]
}

/// The reply to a GET whose lookup found `found`.
pub open spec fn spec_get_reply(found: Option<Seq<u8>>) -> Resp {
    match found {
        Some(v) => Resp::BulkString(v),
        None => Resp::NullBulkString,
    }
}

/// The reply to a GET whose lookup found `found`: the value as a bulk
/// string, or the null bulk string on a miss.
pub fn get_reply(found: Option<Vec<u8>>) -> (r: RedisValue)
    ensures
        r@ == spec_get_reply(
            match found {
                Some(v) => Some(v@),
                None => None,
            },
        ),
{
    match found {
        Some(v) => RedisValue::BulkString(v),
        None => RedisValue::NullBulkString,
    }
}

/// `s` without its carriage returns and line feeds.
pub open spec fn without_line_breaks(s: Seq<u8>) -> Seq<u8>
    decreases s.len(),
{
    if s.len() == 0 {
        Seq::empty()
    } else if s.last() == CR || s.last() == LF {
        without_line_breaks(s.drop_last())
    } else {
        without_line_breaks(s.drop_last()).push(s.last())
    }
}

proof fn lemma_without_line_breaks(s: Seq<u8>)
    ensures
        forall|i: int| 0 <= i < without_line_breaks(s).len() ==> #[trigger] without_line_breaks(s)[i] != CR,
    decreases s.len(),
{
    if s.len() > 0 {
        let t = without_line_breaks(s.drop_last());
        lemma_without_line_breaks(s.drop_last());
        assert forall|i: int| 0 <= i < without_line_breaks(s).len() implies #[trigger] without_line_breaks(
            s,
        )[i] != CR by {
            if i < t.len() {
                assert(without_line_breaks(s)[i] == t[i]);
            }
        }
    }
}

/// The error reply that carries `message`, less the line breaks that a
/// simple error cannot hold.
pub fn error_reply(message: &[u8]) -> (r: RedisValue)
    ensures
        r@ == Resp::SimpleError(without_line_breaks(message@)),
        well_formed(r@),
{
    let mut out: Vec<u8> = Vec::new();
    let mut i: usize = 0;
    while i < message.len()
        invariant
            0 <= i <= message@.len(),
            out@ == without_line_breaks(message@.subrange(0, i as int)),
        decreases message.len() - i,
    {
        let b = message[i];
        let ghost pre = message@.subrange(0, i as int);
        assert(message@.subrange(0, i + 1).drop_last() =~= pre);
        if b != CR && b != LF {
            out.push(b);
        }
        i = i + 1;
    }
    assert(message@.subrange(0, i as int) =~= message@);
    proof {
        lemma_without_line_breaks(message@);
    }
    RedisValue::SimpleError(out)
}

/// The reply to an RPUSH whose list now has `size` elements.
pub open spec fn spec_length_reply(size: usize) -> Resp {
    Resp::Integer(
        if size <= i64::MAX as usize {
            size as i64
        } else {
            i64::MAX
        },
    )
}

/// The reply to an RPUSH whose list now has `size` elements: the length as
/// an integer, held at `i64::MAX` should it not fit.
pub fn length_reply(size: usize) -> (r: RedisValue)
    ensures
        r@ == spec_length_reply(size),
{
    let n: i64 = if size > i64::MAX as usize {
        i64::MAX
    } else {
        size as i64
    };
    RedisValue::Integer(n)
}

/// The deadline that SET with `ttl` at `now` gives, in the clock's range or
/// not.
pub open spec fn deadline_of(ttl: Ttl, now: u64) -> int {
    now + ttl_millis(ttl)
}

/// Carrying out `c` at `now` gives a deadline beyond the clock's range.
pub open spec fn overflows(c: Command, now: u64) -> bool {
    match c {
        Command::SetValue { expiration: Some(t), .. } => deadline_of(t, now) > u64::MAX,
        _ => false,
    }
}

/// What the reply and the expiration handed to the scheduler are for `c`
/// carried out at `now`, where the store's answer is not fixed by `c`.
pub open spec fn reply_for(c: Command, now: u64, reply: Resp, event: Option<ExpiryEvent>) -> bool {
    match c {
        Command::Ping => reply == Resp::SimpleString(pong()) && event is None,
        Command::Echo(m) => reply == Resp::BulkString(m) && event is None,
        Command::Get(_) => (reply is NullBulkString || reply is BulkString) && event is None,
        Command::SetValue { key, value, expiration } => match expiration {
            None => reply == Resp::SimpleString(ok()) && event is None,
            Some(t) => if deadline_of(t, now) <= u64::MAX {
                &&& reply == Resp::SimpleString(ok())
                &&& event matches Some(e) && e.0 == deadline_of(t, now) && e.1@ == key
            } else {
                reply is SimpleError && event is None
            },
        },
        Command::RPush { list_name, elements } => {
            &&& reply matches Resp::Integer(n) && n >= 0 && (elements.len() <= i64::MAX ==> n
                >= elements.len())
            &&& event is None
        },
    }
}

/// Carries out `cmd` on `db` at `now`: the reply, and for a SET with a
/// duration the expiration to hand to the scheduler. A deadline beyond the
/// clock's range is refused and nothing is stored.
pub fn handle_cmd(db: &Database, cmd: RedisCommand, now: u64) -> (r: Result<
    (RedisValue, Option<ExpiryEvent>),
    CommandError,
>)
    ensures
        match r {
            Ok((v, e)) => !overflows(cmd@, now) && reply_for(cmd@, now, v@, e),
            Err(e) => overflows(cmd@, now) && e == CommandError::DeadlineOverflow,
        },
{
    match cmd {
        RedisCommand::Ping => {
            let pong: Vec<u8> = vec![80, 79, 78, 71];
            Ok((RedisValue::SimpleString(pong), None))
        },
        RedisCommand::Echo(msg) => Ok((RedisValue::BulkString(msg), None)),
        RedisCommand::Get(key) => Ok((get_reply(db.get_key(&key, now)), None)),
        RedisCommand::SetValue { key, value, expiration } => {
            let ok: Vec<u8> = vec![79, 75];
            match expiration {
                None => {
                    db.set_key(&key, Value::new(value, None));
                    Ok((RedisValue::SimpleString(ok), None))
                },
                Some(ttl) => {
                    let ms: u64 = match ttl {
                        Ttl::Millis(n) => n,
                        Ttl::Seconds(n) => {
                            if n > u64::MAX / 1000 {
                                assert(n * 1000 > u64::MAX) by (nonlinear_arith)
                                    requires
                                        n > u64::MAX / 1000,
                                ;
                                return Err(CommandError::DeadlineOverflow);
                            }
                            assert(n * 1000 <= u64::MAX) by (nonlinear_arith)
                                requires
                                    n <= u64::MAX / 1000,
                            ;
                            n * 1000
                        },
                    };
                    if ms > u64::MAX - now {
                        return Err(CommandError::DeadlineOverflow);
                    }
                    let deadline = now + ms;
                    db.set_key(&key, Value::new(value, Some(deadline)));
                    Ok((RedisValue::SimpleString(ok), Some((deadline, key))))
                },
            }
        },
        RedisCommand::RPush { list_name, elements } => {
            let size = db.rpush(&list_name, elements);
            Ok((length_reply(size), None))
        },
    }
}

/// One request, start to end: parses `msg` and carries the command out on
/// `db` at `now`. A request that is no command, or a deadline beyond the
/// clock's range, gets an error reply and hands nothing to the scheduler.
pub fn respond(db: &Database, msg: RedisValue, now: u64) -> (r: (RedisValue, Option<ExpiryEvent>))
    ensures
        match spec_command(msg@) {
            Ok(c) => reply_for(c, now, r.0@, r.1),
            Err(_) => r.0@ is SimpleError && r.1 is None,
        },
        r.0@ is SimpleError ==> well_formed(r.0@),
{
    match RedisCommand::parse(msg) {
        Ok(cmd) => match handle_cmd(db, cmd, now) {
            Ok(out) => out,
            Err(e) => (error_reply(e.message().as_slice()), None),
        },
        Err(e) => (error_reply(e.message().as_slice()), None),
    }
}

} // verus!

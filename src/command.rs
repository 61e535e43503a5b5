//! Commands: the typed form of a request, parsed from a decoded RESP array of
//! bulk strings.

use vstd::prelude::*;
use vstd::slice::slice_to_vec;

use crate::number::{parse_u64, u64_of};
use crate::resp::{lemma_views_index, views, RedisValue, Resp};

verus! {

/// How long a key set with a duration lives, in the unit it was given in.
#[derive(Debug, PartialEq, Eq, Structural, Clone, Copy)]
pub enum Ttl {
    /// `PX n`
    Millis(u64),
    /// `EX n`
    Seconds(u64),
}

/// The length of `t` in milliseconds.
pub open spec fn ttl_millis(t: Ttl) -> int {
    match t {
        Ttl::Millis(n) => n as int,
        Ttl::Seconds(n) => n * 1000,
    }
}

/// A request that the server carries out.
#[derive(Debug, PartialEq)]
pub enum RedisCommand {
    Ping,
    Echo(Vec<u8>),
    Get(Vec<u8>),
    SetValue { key: Vec<u8>, value: Vec<u8>, expiration: Option<Ttl> },
    RPush { list_name: Vec<u8>, elements: Vec<Vec<u8>> },
}

/// The mathematical form of a command.
pub enum Command {
    Ping,
    Echo(Seq<u8>),
    Get(Seq<u8>),
    SetValue { key: Seq<u8>, value: Seq<u8>, expiration: Option<Ttl> },
    RPush { list_name: Seq<u8>, elements: Seq<Seq<u8>> },
}

pub open spec fn byte_strings(v: Seq<Vec<u8>>) -> Seq<Seq<u8>> {
    v.map_values(|e: Vec<u8>| e@)
}

impl View for RedisCommand {
    type V = Command;

    open spec fn view(&self) -> Command {
        match self {
            RedisCommand::Ping => Command::Ping,
            RedisCommand::Echo(m) => Command::Echo(m@),
            RedisCommand::Get(k) => Command::Get(k@),
            RedisCommand::SetValue { key, value, expiration } => Command::SetValue {
                key: key@,
                value: value@,
                expiration: *expiration,
            },
            RedisCommand::RPush { list_name, elements } => Command::RPush {
                list_name: list_name@,
                elements: byte_strings(elements@),
            },
        }
    }
}

/// Why a request is not a command.
#[derive(Debug, PartialEq, Eq, Structural)]
pub enum CommandError {
    /// The request is not an array.
    NotAnArray,
    /// The array does not start with a bulk string.
    InvalidCommandName,
    /// The command name is none that the server knows.
    UnsupportedCommand,
    /// An argument that must be a bulk string is missing or of another type.
    ExpectedBulkString,
    /// `PX` or `EX` is the last argument.
    MissingDuration,
    /// A duration is not an unsigned decimal that fits a `u64`.
    InvalidDuration,
    /// An option of SET is neither `PX` nor `EX`.
    UnsupportedOption,
    /// RPUSH names a list but no element.
    NoElements,
    /// The deadline that a duration gives lies beyond the clock's range.
    DeadlineOverflow,
}

impl CommandError {
    /// A line that tells a client what went wrong: `ERR ` and a description.
    pub fn message(&self) -> (r: Vec<u8>)
        ensures
            r@.len() >= 4,
            r@.subrange(0, 4) == seq![69u8, 82u8, 82u8, 32u8],
    {
        let text: &str = match self {
            CommandError::NotAnArray => "request is not an array",
            CommandError::InvalidCommandName => "command name is not a bulk string",
            CommandError::UnsupportedCommand => "unsupported command",
            CommandError::ExpectedBulkString => "missing or invalid argument",
            CommandError::MissingDuration => "duration missing after PX or EX",
            CommandError::InvalidDuration => "duration is not an unsigned integer",
            CommandError::UnsupportedOption => "unsupported option",
            CommandError::NoElements => "no elements to push",
            CommandError::DeadlineOverflow => "invalid expire time",
        };
        let mut r: Vec<u8> = vec![69, 82, 82, 32];
        let ghost head = r@;
        r.extend_from_slice(text.as_bytes());
        assert(r@.subrange(0, 4) =~= head);
        r
    }
}

/// The ASCII upper case of `b`.
pub open spec fn ascii_upper(b: u8) -> u8 {
    if 97 <= b <= 122 {
        (b - 32) as u8
    } else {
        b
    }
}

/// `s` is `name` (which is upper case) up to ASCII case.
pub open spec fn names(s: Seq<u8>, name: Seq<u8>) -> bool {
    s.len() == name.len() && forall|i: int| 0 <= i < s.len() ==> ascii_upper(#[trigger] s[i]) == name[i]
}

pub open spec fn ping_name() -> Seq<u8> {
    seq![80u8, 73u8, 78u8, 71u8]
}

pub open spec fn echo_name() -> Seq<u8> {
    seq![69u8, 67u8, 72u8, 79u8]
}

pub open spec fn get_name() -> Seq<u8> {
    seq![71u8, 69u8, 84u8]
}

pub open spec fn set_name() -> Seq<u8> {
    seq![83u8, 69u8, 84u8]
}

pub open spec fn rpush_name() -> Seq<u8> {
    seq![82u8, 80u8, 85u8, 83u8, 72u8]
}

pub open spec fn px_name() -> Seq<u8> {
    seq![80u8, 88u8]
}

pub open spec fn ex_name() -> Seq<u8> {
    seq![69u8, 88u8]
}

/// The payload of `items[i]` when it is a bulk string.
pub open spec fn bulk_at(items: Seq<Resp>, i: int) -> Option<Seq<u8>> {
    if 0 <= i < items.len() {
        match items[i] {
            Resp::BulkString(b) => Some(b),
            _ => None,
        }
    } else {
        None
    }
}

/// The options of SET from `items[i]` on, pair by pair, with `acc` the
/// expiration that the options before `i` set: the last one wins.
pub open spec fn set_options(items: Seq<Resp>, i: int, acc: Option<Ttl>) -> Result<
    Option<Ttl>,
    CommandError,
>
    decreases items.len() - i,
{
    if i < 0 || i >= items.len() {
        Ok(acc)
    } else {
        match bulk_at(items, i) {
            Some(arg) => if names(arg, px_name()) || names(arg, ex_name()) {
                if i + 1 >= items.len() {
                    Err(CommandError::MissingDuration)
                } else {
                    match bulk_at(items, i + 1) {
                        Some(d) => match u64_of(d) {
                            Some(n) => if names(arg, px_name()) {
                                set_options(items, i + 2, Some(Ttl::Millis(n)))
                            } else {
                                set_options(items, i + 2, Some(Ttl::Seconds(n)))
                            },
                            None => Err(CommandError::InvalidDuration),
                        },
                        None => Err(CommandError::InvalidDuration),
                    }
                }
            } else {
                Err(CommandError::UnsupportedOption)
            },
            None => Err(CommandError::UnsupportedOption),
        }
    }
}

/// The elements of RPUSH: the payloads of `items[2..]`, all bulk strings.
pub open spec fn rpush_elements(items: Seq<Resp>) -> Result<Seq<Seq<u8>>, CommandError> {
    if forall|j: int| 2 <= j < items.len() ==> (#[trigger] bulk_at(items, j)) is Some {
        Ok(Seq::new((items.len() - 2) as nat, |j: int| bulk_at(items, j + 2)->Some_0))
    } else {
        Err(CommandError::ExpectedBulkString)
    }
}

/// The command that the request `msg` makes, or why it makes none.
pub open spec fn spec_command(msg: Resp) -> Result<Command, CommandError> {
    match msg {
        Resp::Array(items) => match bulk_at(items, 0) {
            Some(name) => if names(name, ping_name()) {
                Ok(Command::Ping)
            } else if names(name, echo_name()) {
                match bulk_at(items, 1) {
                    Some(m) => Ok(Command::Echo(m)),
                    None => Err(CommandError::ExpectedBulkString),
                }
            } else if names(name, get_name()) {
                match bulk_at(items, 1) {
                    Some(k) => Ok(Command::Get(k)),
                    None => Err(CommandError::ExpectedBulkString),
                }
            } else if names(name, set_name()) {
                match (bulk_at(items, 1), bulk_at(items, 2)) {
                    (Some(k), Some(v)) => match set_options(items, 3, None) {
                        Ok(e) => Ok(Command::SetValue { key: k, value: v, expiration: e }),
                        Err(e) => Err(e),
                    },
                    _ => Err(CommandError::ExpectedBulkString),
                }
            } else if names(name, rpush_name()) {
                match bulk_at(items, 1) {
                    Some(l) => if items.len() <= 2 {
                        Err(CommandError::NoElements)
                    } else {
                        match rpush_elements(items) {
                            Ok(es) => Ok(Command::RPush { list_name: l, elements: es }),
                            Err(e) => Err(e),
                        }
                    },
                    None => Err(CommandError::ExpectedBulkString),
                }
            } else {
                Err(CommandError::UnsupportedCommand)
            },
            None => Err(CommandError::InvalidCommandName),
        },
        _ => Err(CommandError::NotAnArray),
    }
}

/// Whether `s` is `name` (upper case) up to ASCII case.
fn names_exec(s: &[u8], name: &[u8]) -> (r: bool)
    ensures
        r == names(s@, name@),
{
    if s.len() != name.len() {
        return false;
    }
    let mut i: usize = 0;
    while i < s.len()
        invariant
            s@.len() == name@.len(),
            0 <= i <= s@.len(),
            forall|j: int| 0 <= j < i ==> ascii_upper(#[trigger] s@[j]) == name@[j],
        decreases s.len() - i,
    {
        let b = s[i];
        let u = if 97 <= b && b <= 122 {
            b - 32
        } else {
            b
        };
        if u != name[i] {
            return false;
        }
        i = i + 1;
    }
    true
}

impl RedisCommand {
    /// The command that the request `msg` makes, or why it makes none.
    pub fn parse(msg: RedisValue) -> (r: Result<RedisCommand, CommandError>)
        ensures
            match r {
                Ok(c) => spec_command(msg@) == Ok::<Command, CommandError>(c@),
                Err(e) => spec_command(msg@) == Err::<Command, CommandError>(e),
            },
    {
        let ghost m = msg@;
        let values = match msg {
            RedisValue::Array(values) => values,
            _ => {
                return Err(CommandError::NotAnArray);
            },
        };
        let ghost items = views(values@);
        assert(m == Resp::Array(items));
        proof {
            lemma_views_index(values@);
        }
        let name = match RedisCommand::expect_bulk_string(&values, 0) {
            Ok(n) => n,
            Err(_) => {
                return Err(CommandError::InvalidCommandName);
            },
        };
        let ping: Vec<u8> = vec![80, 73, 78, 71];
        let echo: Vec<u8> = vec![69, 67, 72, 79];
        let get: Vec<u8> = vec![71, 69, 84];
        let set: Vec<u8> = vec![83, 69, 84];
        let rpush: Vec<u8> = vec![82, 80, 85, 83, 72];
        assert(ping@ == ping_name());
        assert(echo@ == echo_name());
        assert(get@ == get_name());
        assert(set@ == set_name());
        assert(rpush@ == rpush_name());
        if names_exec(name.as_slice(), ping.as_slice()) {
            Ok(RedisCommand::Ping)
        } else if names_exec(name.as_slice(), echo.as_slice()) {
            let msg = RedisCommand::expect_bulk_string(&values, 1)?;
            Ok(RedisCommand::Echo(msg))
        } else if names_exec(name.as_slice(), get.as_slice()) {
            let key = RedisCommand::expect_bulk_string(&values, 1)?;
            Ok(RedisCommand::Get(key))
        } else if names_exec(name.as_slice(), set.as_slice()) {
            let key = RedisCommand::expect_bulk_string(&values, 1)?;
            let value = RedisCommand::expect_bulk_string(&values, 2)?;
            let expiration = RedisCommand::parse_set_options(&values)?;
            Ok(RedisCommand::SetValue { key, value, expiration })
        } else if names_exec(name.as_slice(), rpush.as_slice()) {
            let list_name = RedisCommand::expect_bulk_string(&values, 1)?;
            if values.len() <= 2 {
                return Err(CommandError::NoElements);
            }
            let mut elements: Vec<Vec<u8>> = Vec::new();
            let mut i: usize = 2;
            assert(spec_command(m) == match rpush_elements(items) {
                Ok(es) => Ok(Command::RPush { list_name: list_name@, elements: es }),
                Err(e) => Err::<Command, CommandError>(e),
            });
            assert(byte_strings(elements@) =~= Seq::new(
                (i - 2) as nat,
                |j: int| bulk_at(items, j + 2)->Some_0,
            ));
            while i < values.len()
                invariant
                    m == msg@,
                    spec_command(m) == match rpush_elements(items) {
                        Ok(es) => Ok(Command::RPush { list_name: list_name@, elements: es }),
                        Err(e) => Err::<Command, CommandError>(e),
                    },
                    items == views(values@),
                    items.len() == values@.len(),
                    forall|j: int| 0 <= j < values@.len() ==> #[trigger] items[j] == values@[j]@,
                    2 <= i <= values@.len(),
                    forall|j: int| 2 <= j < i ==> (#[trigger] bulk_at(items, j)) is Some,
                    byte_strings(elements@) == Seq::new(
                        (i - 2) as nat,
                        |j: int| bulk_at(items, j + 2)->Some_0,
                    ),
                decreases values.len() - i,
            {
                match RedisCommand::expect_bulk_string(&values, i) {
                    Ok(e) => {
                        let ghost before = byte_strings(elements@);
                        elements.push(e);
                        assert(byte_strings(elements@) =~= before.push(e@));
                        assert(byte_strings(elements@) =~= Seq::new(
                            (i + 1 - 2) as nat,
                            |j: int| bulk_at(items, j + 2)->Some_0,
                        ));
                    },
                    Err(_) => {
                        assert(bulk_at(items, i as int) is None);
                        assert(!(forall|j: int|
                            2 <= j < items.len() ==> (#[trigger] bulk_at(items, j)) is Some));
                        assert(rpush_elements(items) == Err::<Seq<Seq<u8>>, CommandError>(
                            CommandError::ExpectedBulkString,
                        ));
                        return Err(CommandError::ExpectedBulkString);
                    },
                }
                i = i + 1;
            }
            assert(rpush_elements(items) == Ok::<Seq<Seq<u8>>, CommandError>(byte_strings(elements@)));
            Ok(RedisCommand::RPush { list_name, elements })
        } else {
            Err(CommandError::UnsupportedCommand)
        }
    }

    /// The expiration that the options of SET, from `values[3]` on, set.
    fn parse_set_options(values: &Vec<RedisValue>) -> (r: Result<Option<Ttl>, CommandError>)
        requires
            values@.len() >= 3,
        ensures
            r == set_options(views(values@), 3, None),
    {
        let ghost items = views(values@);
        proof {
            lemma_views_index(values@);
        }
        let px: Vec<u8> = vec![80, 88];
        let ex: Vec<u8> = vec![69, 88];
        assert(px@ == px_name());
        assert(ex@ == ex_name());
        let mut expiration: Option<Ttl> = None;
        let mut i: usize = 3;
        while i < values.len()
            invariant
                items == views(values@),
                items.len() == values@.len(),
                3 <= i <= values@.len(),
                px@ == px_name(),
                ex@ == ex_name(),
                set_options(items, 3, None) == set_options(items, i as int, expiration),
            decreases values.len() - i,
        {
            let arg = match RedisCommand::expect_bulk_string(values, i) {
                Ok(a) => a,
                Err(_) => {
                    return Err(CommandError::UnsupportedOption);
                },
            };
            let is_px = names_exec(arg.as_slice(), px.as_slice());
            let is_ex = names_exec(arg.as_slice(), ex.as_slice());
            if !is_px && !is_ex {
                return Err(CommandError::UnsupportedOption);
            }
            if i + 1 >= values.len() {
                return Err(CommandError::MissingDuration);
            }
            let dur = match RedisCommand::expect_bulk_string(values, i + 1) {
                Ok(d) => d,
                Err(_) => {
                    return Err(CommandError::InvalidDuration);
                },
            };
            let n = match parse_u64(dur.as_slice()) {
                Some(n) => n,
                None => {
                    return Err(CommandError::InvalidDuration);
                },
            };
            if is_px {
                expiration = Some(Ttl::Millis(n));
            } else {
                expiration = Some(Ttl::Seconds(n));
            }
            i = i + 2;
        }
        Ok(expiration)
    }

    /// The payload of `values[index]` when it is a bulk string.
    fn expect_bulk_string(values: &Vec<RedisValue>, index: usize) -> (r: Result<
        Vec<u8>,
        CommandError,
    >)
        ensures
            match bulk_at(views(values@), index as int) {
                Some(b) => r matches Ok(v) && v@ == b,
                None => r == Err::<Vec<u8>, CommandError>(CommandError::ExpectedBulkString),
            },
    {
        proof {
            lemma_views_index(values@);
        }
        if index < values.len() {
            match &values[index] {
                RedisValue::BulkString(b) => Ok(slice_to_vec(b.as_slice())),
                _ => Err(CommandError::ExpectedBulkString),
            }
        } else {
            Err(CommandError::ExpectedBulkString)
        }
    }
}

} // verus!

//! The RESP2 decoder: a parser over a byte buffer that either finds one
//! complete message at a position, reports that more input is needed, or
//! reports a framing error.

use vstd::prelude::*;
use vstd::slice::{slice_subrange, slice_to_vec};

use crate::number::{i64_of, lemma_decimal_ascii, parse_i64};
use crate::resp::{views, RedisValue, Resp, CR, LF};

verus! {

/// A framing error: the bytes cannot be the start of a RESP message.
#[derive(Debug, PartialEq, Eq, Structural)]
pub enum RespParseError {
    /// A length or integer token is not UTF-8.
    ParseUtf8Error,
    /// A length or integer token is not a decimal `i64`.
    ParseIntegerError,
    /// The message starts with a byte that tags no RESP type.
    InvalidFirstByte,
    /// A bulk string declares a length below `-1`.
    InvalidBulkStringLength(i64),
    /// A bulk string or array declares a length above `u32::MAX`.
    ExceededMaxLength,
    /// An array declares a length below `-1`.
    InvalidArrayLength(i64),
    /// The payload of a bulk string is not followed by CRLF.
    MissingBulkStringTerminator,
}

/// The largest length that a bulk string or an array may declare.
pub const MAX_LENGTH: i64 = 0xffff_ffff;

/// A range `start..end` of the buffer being parsed.
#[derive(Debug, PartialEq, Eq, Structural)]
pub struct BufRange(pub usize, pub usize);

/// A parsed message whose payloads are still ranges of the input buffer.
#[derive(Debug, PartialEq)]
pub enum RedisIntermediate {
    SimpleString(BufRange),
    SimpleError(BufRange),
    Integer(i64),
    NullBulkString,
    BulkString(BufRange),
    NullArray,
    Array(Vec<RedisIntermediate>),
}

impl RedisIntermediate {
    /// The message that `self` stands for, read from `buf`.
    pub open spec fn value_in(&self, buf: Seq<u8>) -> Resp
        decreases self,
    {
        match self {
            RedisIntermediate::SimpleString(r) => Resp::SimpleString(
                buf.subrange(r.0 as int, r.1 as int),
            ),
            RedisIntermediate::SimpleError(r) => Resp::SimpleError(
                buf.subrange(r.0 as int, r.1 as int),
            ),
            RedisIntermediate::Integer(i) => Resp::Integer(*i),
            RedisIntermediate::NullBulkString => Resp::NullBulkString,
            RedisIntermediate::BulkString(r) => Resp::BulkString(
                buf.subrange(r.0 as int, r.1 as int),
            ),
            RedisIntermediate::NullArray => Resp::NullArray,
            RedisIntermediate::Array(items) => Resp::Array(values_in(items@, buf)),
        }
    }

    /// Every range in `self` lies within the first `bound` bytes.
    pub open spec fn within(&self, bound: int) -> bool
        decreases self,
    {
        match self {
            RedisIntermediate::SimpleString(r) => r.0 <= r.1 <= bound,
            RedisIntermediate::SimpleError(r) => r.0 <= r.1 <= bound,
            RedisIntermediate::BulkString(r) => r.0 <= r.1 <= bound,
            RedisIntermediate::Array(items) => all_within(items@, bound),
            _ => true,
        }
    }

    /// Builds the message, copying each payload out of `buffer`.
    pub fn generate_value(&self, buffer: &[u8]) -> (r: RedisValue)
        requires
            self.within(buffer@.len() as int),
        ensures
            r@ == self.value_in(buffer@),
        decreases self,
    {
        match self {
            RedisIntermediate::SimpleString(br) => RedisValue::SimpleString(
                slice_to_vec(slice_subrange(buffer, br.0, br.1)),
            ),
            RedisIntermediate::SimpleError(br) => RedisValue::SimpleError(
                slice_to_vec(slice_subrange(buffer, br.0, br.1)),
            ),
            RedisIntermediate::Integer(i) => RedisValue::Integer(*i),
            RedisIntermediate::NullBulkString => RedisValue::NullBulkString,
            RedisIntermediate::BulkString(br) => RedisValue::BulkString(
                slice_to_vec(slice_subrange(buffer, br.0, br.1)),
            ),
            RedisIntermediate::NullArray => RedisValue::NullArray,
            RedisIntermediate::Array(items) => {
                let mut out: Vec<RedisValue> = Vec::new();
                let mut i: usize = 0;
                while i < items.len()
                    invariant
                        0 <= i <= items@.len(),
                        *self == RedisIntermediate::Array(*items),
                        all_within(items@, buffer@.len() as int),
                        views(out@) == values_in(items@.subrange(0, i as int), buffer@),
                    decreases items.len() - i,
                {
                    assert(items@[i as int].within(buffer@.len() as int));
                    proof {
                        vstd::std_specs::vec::axiom_vec_index_decreases(*items, i as int);
                        assert(decreases_to!(*self => self->Array_0));
                    }
                    let v = items[i].generate_value(buffer);
                    proof {
                        lemma_views_push(out@, v);
                        lemma_values_in_push(items@.subrange(0, i as int), items@[i as int], buffer@);
                        assert(items@.subrange(0, i + 1) =~= items@.subrange(0, i as int).push(
                            items@[i as int],
                        ));
                    }
                    out.push(v);
                    i = i + 1;
                }
                assert(items@.subrange(0, i as int) =~= items@);
                RedisValue::Array(out)
            },
        }
    }
}

/// The messages that `items` stand for, read from `buf`.
pub open spec fn values_in(items: Seq<RedisIntermediate>, buf: Seq<u8>) -> Seq<Resp>
    decreases items,
{
    if items.len() == 0 {
        Seq::empty()
    } else {
        seq![items[0].value_in(buf)] + values_in(items.subrange(1, items.len() as int), buf)
    }
}

/// Every range in each of `items` lies within the first `bound` bytes.
pub open spec fn all_within(items: Seq<RedisIntermediate>, bound: int) -> bool
    decreases items,
{
    forall|i: int| 0 <= i < items.len() ==> (#[trigger] items[i]).within(bound)
}

pub proof fn lemma_views_push(s: Seq<RedisValue>, x: RedisValue)
    ensures
        views(s.push(x)) == views(s).push(x@),
    decreases s.len(),
{
    if s.len() > 0 {
        let t = s.subrange(1, s.len() as int);
        lemma_views_push(t, x);
        assert(s.push(x).subrange(1, s.len() as int + 1) =~= t.push(x));
        assert(s.push(x)[0] == s[0]);
        assert(views(s.push(x)) == seq![s[0]@] + views(t.push(x)));
        assert(views(s) == seq![s[0]@] + views(t));
        assert(views(s.push(x)) =~= views(s).push(x@));
    } else {
        assert(s.push(x).subrange(1, 1) =~= Seq::<RedisValue>::empty());
        assert(views(Seq::<RedisValue>::empty()) == Seq::<Resp>::empty());
        assert(views(s.push(x)) == seq![x@] + views(Seq::<RedisValue>::empty()));
        assert(views(s.push(x)) =~= views(s).push(x@));
    }
}

pub proof fn lemma_values_in_push(s: Seq<RedisIntermediate>, x: RedisIntermediate, buf: Seq<u8>)
    ensures
        values_in(s.push(x), buf) == values_in(s, buf).push(x.value_in(buf)),
    decreases s.len(),
{
    if s.len() > 0 {
        let t = s.subrange(1, s.len() as int);
        lemma_values_in_push(t, x, buf);
        assert(s.push(x).subrange(1, s.len() as int + 1) =~= t.push(x));
        assert(s.push(x)[0] == s[0]);
        assert(values_in(s.push(x), buf) == seq![s[0].value_in(buf)] + values_in(t.push(x), buf));
        assert(values_in(s, buf) == seq![s[0].value_in(buf)] + values_in(t, buf));
        assert(values_in(s.push(x), buf) =~= values_in(s, buf).push(x.value_in(buf)));
    } else {
        assert(s.push(x).subrange(1, 1) =~= Seq::<RedisIntermediate>::empty());
        assert(values_in(Seq::<RedisIntermediate>::empty(), buf) == Seq::<Resp>::empty());
        assert(values_in(s.push(x), buf) == seq![x.value_in(buf)] + values_in(
            Seq::<RedisIntermediate>::empty(),
            buf,
        ));
        assert(values_in(s.push(x), buf) =~= values_in(s, buf).push(x.value_in(buf)));
    }
}

/// The index of the first carriage return at or after `i`.
pub open spec fn first_cr(input: Seq<u8>, i: int) -> Option<int>
    decreases input.len() - i,
{
    if i < 0 || i >= input.len() {
        None
    } else if input[i] == CR {
        Some(i)
    } else {
        first_cr(input, i + 1)
    }
}

/// The token that starts at `pos` and ends at the first CRLF: the position
/// after the CRLF and the end of the token. `None` while the CRLF is not all
/// there, and when the first carriage return is followed by another byte.
pub open spec fn spec_word(input: Seq<u8>, pos: int) -> Option<(int, int)> {
    if pos < 0 || pos >= input.len() {
        None
    } else {
        match first_cr(input, pos) {
            Some(i) => if i + 1 < input.len() && input[i + 1] == LF {
                Some((i + 2, i))
            } else {
                None
            },
            None => None,
        }
    }
}

/// What `std::str::from_utf8` accepts.
pub uninterp spec fn utf8_valid(b: Seq<u8>) -> bool;

pub open spec fn all_ascii(b: Seq<u8>) -> bool {
    forall|i: int| 0 <= i < b.len() ==> #[trigger] b[i] < 128
}

/// Relies on std::str::from_utf8: whether the bytes are well-formed UTF-8,
/// which every ASCII text is.
#[verifier::external_body]
fn is_utf8(b: &[u8]) -> (r: bool)
    ensures
        r == utf8_valid(b@),
        all_ascii(b@) ==> r,
{
    std::str::from_utf8(b).is_ok()
}

/// Relies on memchr::memchr: the index of the first occurrence of `needle`
/// in `haystack`, if there is one.
#[verifier::external_body]
fn find_byte(needle: u8, haystack: &[u8]) -> (r: Option<usize>)
    ensures
        match r {
            Some(i) => i < haystack@.len() && haystack@[i as int] == needle && forall|j: int|
                0 <= j < i ==> haystack@[j] != needle,
            None => forall|j: int| 0 <= j < haystack@.len() ==> haystack@[j] != needle,
        },
{
    memchr::memchr(needle, haystack)
}

/// An integer token at `pos`: the position after it and its value.
pub open spec fn spec_int(input: Seq<u8>, pos: int) -> Result<Option<(int, i64)>, RespParseError> {
    match spec_word(input, pos) {
        Some((next, end)) => {
            let tok = input.subrange(pos, end);
            match i64_of(tok) {
                Some(v) => Ok(Some((next, v))),
                None => if utf8_valid(tok) {
                    Err(RespParseError::ParseIntegerError)
                } else {
                    Err(RespParseError::ParseUtf8Error)
                },
            }
        },
        None => Ok(None),
    }
}

/// The outcome of parsing one message at `pos`: the position after it and
/// the message; `Ok(None)` when more input is needed; or the framing error.
pub open spec fn spec_parse(input: Seq<u8>, pos: int) -> Result<Option<(int, Resp)>, RespParseError>
    decreases input.len() - pos, 3int,
{
    if pos < 0 || pos >= input.len() {
        Ok(None)
    } else {
        let tag = input[pos];
        if tag == 43 {
            match spec_word(input, pos + 1) {
                Some((next, end)) => Ok(
                    Some((next, Resp::SimpleString(input.subrange(pos + 1, end)))),
                ),
                None => Ok(None),
            }
        } else if tag == 45 {
            match spec_word(input, pos + 1) {
                Some((next, end)) => Ok(
                    Some((next, Resp::SimpleError(input.subrange(pos + 1, end)))),
                ),
                None => Ok(None),
            }
        } else if tag == 58 {
            match spec_int(input, pos + 1) {
                Ok(Some((next, v))) => Ok(Some((next, Resp::Integer(v)))),
                Ok(None) => Ok(None),
                Err(e) => Err(e),
            }
        } else if tag == 36 {
            spec_bulk(input, pos + 1)
        } else if tag == 42 {
            spec_array(input, pos + 1)
        } else {
            Err(RespParseError::InvalidFirstByte)
        }
    }
}

/// A bulk string whose length token starts at `pos`.
pub open spec fn spec_bulk(input: Seq<u8>, pos: int) -> Result<Option<(int, Resp)>, RespParseError> {
    match spec_int(input, pos) {
        Ok(Some((p, len))) => if len == -1 {
            Ok(Some((p, Resp::NullBulkString)))
        } else if len < -1 {
            Err(RespParseError::InvalidBulkStringLength(len))
        } else if len > MAX_LENGTH {
            Err(RespParseError::ExceededMaxLength)
        } else if input.len() < p + len + 2 {
            Ok(None)
        } else if input[p + len] != CR || input[p + len + 1] != LF {
            Err(RespParseError::MissingBulkStringTerminator)
        } else {
            Ok(Some((p + len + 2, Resp::BulkString(input.subrange(p, p + len)))))
        },
        Ok(None) => Ok(None),
        Err(e) => Err(e),
    }
}

/// An array whose length token starts at `pos`.
pub open spec fn spec_array(input: Seq<u8>, pos: int) -> Result<Option<(int, Resp)>, RespParseError>
    decreases input.len() - pos, 2int,
{
    match spec_int(input, pos) {
        Ok(Some((p, len))) => if len == -1 {
            Ok(Some((p, Resp::NullArray)))
        } else if len < -1 {
            Err(RespParseError::InvalidArrayLength(len))
        } else if len > MAX_LENGTH {
            Err(RespParseError::ExceededMaxLength)
        } else if pos < p <= input.len() {
            match spec_items(input, p, len as nat) {
                Ok(Some((q, items))) => Ok(Some((q, Resp::Array(items)))),
                Ok(None) => Ok(None),
                Err(e) => Err(e),
            }
        } else {
            Ok(None)
        },
        Ok(None) => Ok(None),
        Err(e) => Err(e),
    }
}

/// `n` messages one after another from `pos`. Each message takes at least
/// one byte; the test on positions keeps the recursion well founded.
pub open spec fn spec_items(input: Seq<u8>, pos: int, n: nat) -> Result<
    Option<(int, Seq<Resp>)>,
    RespParseError,
>
    decreases input.len() - pos, 4int,
{
    if n == 0 {
        Ok(Some((pos, Seq::empty())))
    } else {
        match spec_parse(input, pos) {
            Ok(Some((p, v))) => if pos < p <= input.len() {
                match spec_items(input, p, (n - 1) as nat) {
                    Ok(Some((q, vs))) => Ok(Some((q, seq![v] + vs))),
                    Ok(None) => Ok(None),
                    Err(e) => Err(e),
                }
            } else {
                Ok(None)
            },
            Ok(None) => Ok(None),
            Err(e) => Err(e),
        }
    }
}

/// Bytes other than carriage returns do not change where the first one is.
pub proof fn lemma_first_cr_skip(input: Seq<u8>, from: int, to: int)
    requires
        0 <= from <= to <= input.len(),
        forall|j: int| from <= j < to ==> input[j] != CR,
    ensures
        first_cr(input, from) == first_cr(input, to),
    decreases to - from,
{
    if from < to {
        lemma_first_cr_skip(input, from + 1, to);
    }
}

/// What an exec parse result says, set against the spec parser.
pub open spec fn parse_agrees(
    r: Result<Option<(usize, RedisIntermediate)>, RespParseError>,
    expected: Result<Option<(int, Resp)>, RespParseError>,
    input: Seq<u8>,
    pos: int,
) -> bool {
    match r {
        Ok(Some((p, it))) => {
            &&& expected == Ok::<Option<(int, Resp)>, RespParseError>(
                Some((p as int, it.value_in(input))),
            )
            &&& it.within(input.len() as int)
            &&& pos < p <= input.len()
        },
        Ok(None) => expected == Ok::<Option<(int, Resp)>, RespParseError>(None),
        Err(e) => expected == Err::<Option<(int, Resp)>, RespParseError>(e),
    }
}

/// The token from `pos` to the first CRLF: the position after the CRLF and
/// the token's range.
pub fn parse_word(input: &[u8], pos: usize) -> (r: Option<(usize, BufRange)>)
    ensures
        match r {
            Some((next, range)) => spec_word(input@, pos as int) == Some(
                (next as int, range.1 as int),
            ) && range.0 == pos && pos <= range.1 && range.1 + 2 == next && next <= input@.len(),
            None => spec_word(input@, pos as int) is None,
        },
{
    if input.len() <= pos {
        return None;
    }
    let rest = slice_subrange(input, pos, input.len());
    match find_byte(CR, rest) {
        Some(ret) => {
            proof {
                assert forall|j: int| pos <= j < pos + ret implies input@[j] != CR by {
                    assert(rest@[j - pos] == input@[j]);
                }
                assert(input@[pos + ret] == rest@[ret as int]);
                lemma_first_cr_skip(input@, pos as int, pos + ret);
            }
            if pos + ret + 1 < input.len() && input[pos + ret + 1] == LF {
                Some((pos + ret + 2, BufRange(pos, pos + ret)))
            } else {
                None
            }
        },
        None => {
            proof {
                assert forall|j: int| pos <= j < input@.len() implies input@[j] != CR by {
                    assert(rest@[j - pos] == input@[j]);
                }
                lemma_first_cr_skip(input@, pos as int, input@.len() as int);
            }
            None
        },
    }
}

/// An integer token at `pos`: the position after it and its value.
fn parse_int(input: &[u8], pos: usize) -> (r: Result<Option<(usize, i64)>, RespParseError>)
    ensures
        match r {
            Ok(Some((p, v))) => spec_int(input@, pos as int) == Ok::<
                Option<(int, i64)>,
                RespParseError,
            >(Some((p as int, v))) && pos < p <= input@.len(),
            Ok(None) => spec_int(input@, pos as int) == Ok::<Option<(int, i64)>, RespParseError>(
                None,
            ),
            Err(e) => spec_int(input@, pos as int) == Err::<Option<(int, i64)>, RespParseError>(e),
        },
{
    match parse_word(input, pos) {
        Some((p, range)) => {
            let tok = slice_subrange(input, range.0, range.1);
            proof {
                lemma_decimal_ascii(tok@, true);
            }
            if !is_utf8(tok) {
                return Err(RespParseError::ParseUtf8Error);
            }
            match parse_i64(tok) {
                Some(v) => Ok(Some((p, v))),
                None => Err(RespParseError::ParseIntegerError),
            }
        },
        None => Ok(None),
    }
}

/// A bulk string whose length token starts at `pos`.
fn parse_bulk_string(input: &[u8], pos: usize) -> (r: Result<
    Option<(usize, RedisIntermediate)>,
    RespParseError,
>)
    ensures
        parse_agrees(r, spec_bulk(input@, pos as int), input@, pos as int),
{
    match parse_int(input, pos)? {
        Some((p, length)) => {
            if length == -1 {
                Ok(Some((p, RedisIntermediate::NullBulkString)))
            } else if length < -1 {
                Err(RespParseError::InvalidBulkStringLength(length))
            } else if length > MAX_LENGTH {
                Err(RespParseError::ExceededMaxLength)
            } else {
                let len = length as usize;
                if input.len() - p < 2 || input.len() - p - 2 < len {
                    Ok(None)
                } else {
                    let end = p + len;
                    if input[end] != CR || input[end + 1] != LF {
                        return Err(RespParseError::MissingBulkStringTerminator);
                    }
                    Ok(Some((end + 2, RedisIntermediate::BulkString(BufRange(p, end)))))
                }
            }
        },
        None => Ok(None),
    }
}

/// `r` with the messages `vs` put in front of those it found.
pub open spec fn prepend(
    vs: Seq<Resp>,
    r: Result<Option<(int, Seq<Resp>)>, RespParseError>,
) -> Result<Option<(int, Seq<Resp>)>, RespParseError> {
    match r {
        Ok(Some((q, ws))) => Ok(Some((q, vs + ws))),
        _ => r,
    }
}

/// An array whose length token starts at `pos`.
fn parse_array(input: &[u8], pos: usize) -> (r: Result<
    Option<(usize, RedisIntermediate)>,
    RespParseError,
>)
    ensures
        parse_agrees(r, spec_array(input@, pos as int), input@, pos as int),
    decreases input@.len() - pos, 2int,
{
    match parse_int(input, pos)? {
        Some((p0, length)) => {
            if length == -1 {
                Ok(Some((p0, RedisIntermediate::NullArray)))
            } else if length < -1 {
                Err(RespParseError::InvalidArrayLength(length))
            } else if length > MAX_LENGTH {
                Err(RespParseError::ExceededMaxLength)
            } else {
                let mut values: Vec<RedisIntermediate> = Vec::new();
                let mut p = p0;
                let mut k: i64 = 0;
                proof {
                    assert(values_in(values@, input@) =~= Seq::<Resp>::empty());
                    assert(prepend(Seq::empty(), spec_items(input@, p0 as int, length as nat))
                        == spec_items(input@, p0 as int, length as nat)) by {
                        match spec_items(input@, p0 as int, length as nat) {
                            Ok(Some((q, ws))) => {
                                assert(Seq::<Resp>::empty() + ws =~= ws);
                            },
                            _ => {},
                        }
                    }
                }
                while k < length
                    invariant
                        spec_int(input@, pos as int) == Ok::<Option<(int, i64)>, RespParseError>(
                            Some((p0 as int, length)),
                        ),
                        pos < p0 <= p <= input@.len(),
                        0 <= k <= length <= MAX_LENGTH,
                        values@.len() == k,
                        all_within(values@, input@.len() as int),
                        spec_items(input@, p0 as int, length as nat) == prepend(
                            values_in(values@, input@),
                            spec_items(input@, p as int, (length - k) as nat),
                        ),
                    decreases length - k,
                {
                    let ghost m = (length - k) as nat;
                    let ghost vs = values_in(values@, input@);
                    match parse(input, p) {
                        Ok(Some((new_p, v))) => {
                            proof {
                                let vm = v.value_in(input@);
                                lemma_values_in_push(values@, v, input@);
                                match spec_items(input@, new_p as int, (m - 1) as nat) {
                                    Ok(Some((q, ws))) => {
                                        assert(vs + (seq![vm] + ws) =~= vs.push(vm) + ws);
                                    },
                                    _ => {},
                                }
                            }
                            p = new_p;
                            values.push(v);
                        },
                        Ok(None) => {
                            assert(spec_items(input@, p as int, m) == Ok::<
                                Option<(int, Seq<Resp>)>,
                                RespParseError,
                            >(None));
                            return Ok(None);
                        },
                        Err(e) => {
                            assert(spec_items(input@, p as int, m) == Err::<
                                Option<(int, Seq<Resp>)>,
                                RespParseError,
                            >(e));
                            return Err(e);
                        },
                    }
                    k = k + 1;
                }
                proof {
                    let vs = values_in(values@, input@);
                    assert(vs + Seq::<Resp>::empty() =~= vs);
                }
                Ok(Some((p, RedisIntermediate::Array(values))))
            }
        },
        None => Ok(None),
    }
}

/// Parses one message at `pos`: the position after it and the message, with
/// its payloads as ranges of `input`; `Ok(None)` when more input is needed.
pub fn parse(input: &[u8], pos: usize) -> (r: Result<
    Option<(usize, RedisIntermediate)>,
    RespParseError,
>)
    ensures
        parse_agrees(r, spec_parse(input@, pos as int), input@, pos as int),
    decreases input@.len() - pos, 3int,
{
    if input.len() == 0 {
        return Ok(None);
    }
    if input.len() <= pos {
        return Ok(None);
    }
    let tag = input[pos];
    if tag == 43 {
        match parse_word(input, pos + 1) {
            Some((p, range)) => Ok(Some((p, RedisIntermediate::SimpleString(range)))),
            None => Ok(None),
        }
    } else if tag == 45 {
        match parse_word(input, pos + 1) {
            Some((p, range)) => Ok(Some((p, RedisIntermediate::SimpleError(range)))),
            None => Ok(None),
        }
    } else if tag == 58 {
        match parse_int(input, pos + 1)? {
            Some((p, v)) => Ok(Some((p, RedisIntermediate::Integer(v)))),
            None => Ok(None),
        }
    } else if tag == 36 {
        parse_bulk_string(input, pos + 1)
    } else if tag == 42 {
        parse_array(input, pos + 1)
    } else {
        Err(RespParseError::InvalidFirstByte)
    }
}

} // verus!

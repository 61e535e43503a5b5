//! The RESP2 value model: what travels on the wire, and its byte encoding.

use vstd::prelude::*;

use crate::number::{digit_text, signed_text};

pub mod codec;
pub mod parse;
pub mod roundtrip;

verus! {

/// The ASCII code of a carriage return.
pub const CR: u8 = 13;

/// The ASCII code of a line feed.
pub const LF: u8 = 10;

/// A RESP message as the library holds it.
#[derive(Debug, PartialEq)]
pub enum RedisValue {
    SimpleString(Vec<u8>),
    SimpleError(Vec<u8>),
    Integer(i64),
    NullBulkString,
    BulkString(Vec<u8>),
    NullArray,
    Array(Vec<RedisValue>),
}

/// The mathematical RESP message: payloads as byte sequences, arrays as
/// sequences of messages.
pub enum Resp {
    SimpleString(Seq<u8>),
    SimpleError(Seq<u8>),
    Integer(i64),
    NullBulkString,
    BulkString(Seq<u8>),
    NullArray,
    Array(Seq<Resp>),
}

impl View for RedisValue {
    type V = Resp;

    open spec fn view(&self) -> Resp
        decreases self,
    {
        match self {
            RedisValue::SimpleString(s) => Resp::SimpleString(s@),
            RedisValue::SimpleError(s) => Resp::SimpleError(s@),
            RedisValue::Integer(i) => Resp::Integer(*i),
            RedisValue::NullBulkString => Resp::NullBulkString,
            RedisValue::BulkString(s) => Resp::BulkString(s@),
            RedisValue::NullArray => Resp::NullArray,
            RedisValue::Array(items) => Resp::Array(views(items@)),
        }
    }
}

/// The models of a sequence of messages, element by element.
pub open spec fn views(items: Seq<RedisValue>) -> Seq<Resp>
    decreases items,
{
    if items.len() == 0 {
        Seq::empty()
    } else {
        seq![items[0]@] + views(items.subrange(1, items.len() as int))
    }
}

/// A message that RESP2 can carry and this decoder reads back: no carriage
/// return inside a simple string or error, and no length above `u32::MAX`.
pub open spec fn well_formed(v: Resp) -> bool
    decreases v,
{
    match v {
        Resp::SimpleString(s) => forall|i: int| 0 <= i < s.len() ==> #[trigger] s[i] != CR,
        Resp::SimpleError(s) => forall|i: int| 0 <= i < s.len() ==> #[trigger] s[i] != CR,
        Resp::BulkString(s) => s.len() <= 0xffff_ffff,
        Resp::Array(items) => items.len() <= 0xffff_ffff && forall|i: int|
            0 <= i < items.len() ==> well_formed(#[trigger] items[i]),
        _ => true,
    }
}

pub open spec fn crlf() -> Seq<u8> {
    seq![CR, LF]
}

/// The bytes that RESP2 writes for `v`.
pub open spec fn encoding(v: Resp) -> Seq<u8>
    decreases v,
{
    match v {
        Resp::SimpleString(s) => seq![43u8] + s + crlf(),
        Resp::SimpleError(s) => seq![45u8] + s + crlf(),
        Resp::Integer(i) => seq![58u8] + signed_text(i as int) + crlf(),
        Resp::NullBulkString => seq![36u8, 45u8, 49u8] + crlf(),
        Resp::BulkString(s) => seq![36u8] + digit_text(s.len()) + crlf() + s + crlf(),
        Resp::NullArray => seq![42u8, 45u8, 49u8] + crlf(),
        Resp::Array(items) => seq![42u8] + digit_text(items.len()) + crlf() + encodings(items),
    }
}

/// The encodings of `items`, one after another.
pub open spec fn encodings(items: Seq<Resp>) -> Seq<u8>
    decreases items,
{
    if items.len() == 0 {
        Seq::empty()
    } else {
        encoding(items[0]) + encodings(items.subrange(1, items.len() as int))
    }
}

pub proof fn lemma_views_index(s: Seq<RedisValue>)
    ensures
        views(s).len() == s.len(),
        forall|i: int| 0 <= i < s.len() ==> #[trigger] views(s)[i] == s[i]@,
    decreases s.len(),
{
    if s.len() > 0 {
        let t = s.subrange(1, s.len() as int);
        lemma_views_index(t);
        assert(views(s) == seq![s[0]@] + views(t));
        assert forall|i: int| 0 <= i < s.len() implies #[trigger] views(s)[i] == s[i]@ by {
            if i > 0 {
                assert(views(s)[i] == views(t)[i - 1]);
                assert(t[i - 1] == s[i]);
            }
        }
    } else {
        assert(views(s) == Seq::<Resp>::empty());
    }
}

pub proof fn lemma_encodings_push(s: Seq<Resp>, x: Resp)
    ensures
        encodings(s.push(x)) == encodings(s) + encoding(x),
    decreases s.len(),
{
    if s.len() > 0 {
        let t = s.subrange(1, s.len() as int);
        lemma_encodings_push(t, x);
        assert(s.push(x).subrange(1, s.len() as int + 1) =~= t.push(x));
        assert(s.push(x)[0] == s[0]);
        assert(encodings(s.push(x)) =~= encodings(s) + encoding(x));
    } else {
        assert(s.push(x).subrange(1, 1) =~= Seq::<Resp>::empty());
        assert(encodings(Seq::<Resp>::empty()) == Seq::<u8>::empty());
        assert(encodings(s.push(x)) =~= encodings(s) + encoding(x));
    }
}

} // verus!

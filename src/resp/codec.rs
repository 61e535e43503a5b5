//! The streaming codec: decoding RESP messages off the front of a growing
//! buffer, and encoding messages onto the end of one.

use bytes::BytesMut;
use vstd::prelude::*;

use crate::number::{decimal_text, signed_decimal_text};
use crate::resp::parse::{lemma_views_push, parse, spec_parse, RespParseError};
use crate::resp::{
    crlf, encoding, encodings, lemma_encodings_push, lemma_views_index, views, RedisValue, Resp,
    CR, LF,
};

verus! {

#[verifier::external_type_specification]
#[verifier::external_body]
pub struct ExBytesMut(BytesMut);

/// The bytes that a `BytesMut` holds, in order.
pub uninterp spec fn buf_view(b: BytesMut) -> Seq<u8>;

/// Relies on `BytesMut`'s `Deref<Target = [u8]>`: a slice of the bytes held.
#[verifier::external_body]
fn buf_bytes(b: &BytesMut) -> (r: &[u8])
    ensures
        r@ == buf_view(*b),
{
    &b[..]
}

/// Relies on `BytesMut::extend_from_slice`: the bytes of `s` are appended.
#[verifier::external_body]
fn buf_extend(b: &mut BytesMut, s: &[u8])
    ensures
        buf_view(*final(b)) == buf_view(*old(b)) + s@,
{
    b.extend_from_slice(s)
}

/// Relies on `BytesMut::split_to`: the bytes before `at` leave the buffer,
/// which keeps those from `at` on.
#[verifier::external_body]
fn buf_split_to(b: &mut BytesMut, at: usize)
    requires
        at <= buf_view(*old(b)).len(),
    ensures
        buf_view(*final(b)) == buf_view(*old(b)).subrange(at as int, buf_view(*old(b)).len() as int),
{
    let _front = b.split_to(at);
}

/// What one call of the decoder does, given what the parser finds at the
/// front of the buffer `before`: the buffer is left as `after`.
pub open spec fn decode_agrees(
    r: Result<Option<RedisValue>, RespParseError>,
    before: Seq<u8>,
    after: Seq<u8>,
) -> bool {
    match spec_parse(before, 0) {
        Ok(Some((p, m))) => {
            &&& r matches Ok(Some(v)) && v@ == m
            &&& after == before.subrange(p, before.len() as int)
        },
        Ok(None) => r matches Ok(None) && after == before,
        Err(e) => r matches Err(f) && f == e && after == before,
    }
}

/// One call of the decoder on the buffer `buf`, as a step on the messages
/// taken so far and the bytes left.
pub open spec fn decode_step(taken: Seq<Resp>, buf: Seq<u8>) -> (Seq<Resp>, Seq<u8>) {
    match spec_parse(buf, 0) {
        Ok(Some((p, m))) => (taken.push(m), buf.subrange(p, buf.len() as int)),
        _ => (taken, buf),
    }
}

/// The decoder fed `bytes` one at a time, called once after each byte: the
/// messages taken and the bytes left.
pub open spec fn feed_bytes(taken: Seq<Resp>, buf: Seq<u8>, bytes: Seq<u8>) -> (Seq<Resp>, Seq<u8>)
    decreases bytes.len(),
{
    if bytes.len() == 0 {
        (taken, buf)
    } else {
        let next = decode_step(taken, buf.push(bytes[0]));
        feed_bytes(next.0, next.1, bytes.drop_first())
    }
}

/// Calls of the decoder on `buf` until one takes nothing, at most `fuel`
/// of them: the messages taken and the bytes left.
pub open spec fn drain(taken: Seq<Resp>, buf: Seq<u8>, fuel: nat) -> (Seq<Resp>, Seq<u8>)
    decreases fuel,
{
    if fuel == 0 {
        (taken, buf)
    } else {
        match spec_parse(buf, 0) {
            Ok(Some((p, m))) => drain(taken.push(m), buf.subrange(p, buf.len() as int), (fuel - 1) as nat),
            _ => (taken, buf),
        }
    }
}

/// The decoder fed `chunks` one after another, called after each chunk
/// until a call takes nothing: the messages taken and the bytes left. Each
/// message takes at least one byte, so as many calls as there are bytes
/// buffered are enough.
pub open spec fn feed_chunks(taken: Seq<Resp>, buf: Seq<u8>, chunks: Seq<Seq<u8>>) -> (
    Seq<Resp>,
    Seq<u8>,
)
    decreases chunks.len(),
{
    if chunks.len() == 0 {
        (taken, buf)
    } else {
        let b = buf + chunks[0];
        let next = drain(taken, b, b.len());
        feed_chunks(next.0, next.1, chunks.drop_first())
    }
}

/// The RESP2 codec.
pub struct RespFrame;

/// `tag`, then `body`, then CRLF.
fn line(tag: u8, body: &[u8]) -> (r: Vec<u8>)
    ensures
        r@ == seq![tag] + body@ + crlf(),
{
    let mut r: Vec<u8> = Vec::new();
    r.push(tag);
    let mut i: usize = 0;
    while i < body.len()
        invariant
            0 <= i <= body@.len(),
            r@ == seq![tag] + body@.subrange(0, i as int),
        decreases body.len() - i,
    {
        r.push(body[i]);
        assert(body@.subrange(0, i + 1) =~= body@.subrange(0, i as int).push(body@[i as int]));
        i = i + 1;
    }
    r.push(CR);
    r.push(LF);
    assert(body@.subrange(0, i as int) =~= body@);
    assert(r@ =~= seq![tag] + body@ + crlf());
    r
}

impl RespFrame {
    /// Takes one message off the front of `src` when it holds a whole one;
    /// leaves `src` as it is when more input is needed or on a framing error.
    pub fn decode(&mut self, src: &mut BytesMut) -> (r: Result<Option<RedisValue>, RespParseError>)
        ensures
            decode_agrees(r, buf_view(*old(src)), buf_view(*final(src))),
    {
        let data = buf_bytes(src);
        if data.len() == 0 {
            return Ok(None);
        }
        match parse(data, 0) {
            Ok(Some((pos, intermediate))) => {
                let value = intermediate.generate_value(data);
                buf_split_to(src, pos);
                Ok(Some(value))
            },
            Ok(None) => Ok(None),
            Err(e) => Err(e),
        }
    }

    /// Appends the encoding of `item` to `dst`.
    pub fn encode(&mut self, item: RedisValue, dst: &mut BytesMut)
        ensures
            buf_view(*final(dst)) == buf_view(*old(dst)) + encoding(item@),
    {
        RespFrame::encode_value(item, dst)
    }

    /// Appends the encoding of `item` to `dst`.
    pub fn encode_value(item: RedisValue, dst: &mut BytesMut)
        ensures
            buf_view(*final(dst)) == buf_view(*old(dst)) + encoding(item@),
    {
        RespFrame::encode_ref(&item, dst)
    }

    fn encode_ref(item: &RedisValue, dst: &mut BytesMut)
        ensures
            buf_view(*final(dst)) == buf_view(*old(dst)) + encoding(item@),
        decreases item,
    {
        let ghost start = buf_view(*dst);
        match item {
            RedisValue::NullArray => {
                let mut body: Vec<u8> = Vec::new();
                body.push(45);
                body.push(49);
                let l = line(42, body.as_slice());
                buf_extend(dst, l.as_slice());
                assert(buf_view(*dst) =~= start + encoding(item@));
            },
            RedisValue::NullBulkString => {
                let mut body: Vec<u8> = Vec::new();
                body.push(45);
                body.push(49);
                let l = line(36, body.as_slice());
                buf_extend(dst, l.as_slice());
                assert(buf_view(*dst) =~= start + encoding(item@));
            },
            RedisValue::SimpleString(s) => {
                let empty: Vec<u8> = Vec::new();
                let head = line(43, empty.as_slice());
                buf_extend(dst, slice_head(head.as_slice()));
                buf_extend(dst, s.as_slice());
                buf_extend(dst, slice_tail(head.as_slice()));
                assert(buf_view(*dst) =~= start + encoding(item@));
            },
            RedisValue::SimpleError(s) => {
                let empty: Vec<u8> = Vec::new();
                let head = line(45, empty.as_slice());
                buf_extend(dst, slice_head(head.as_slice()));
                buf_extend(dst, s.as_slice());
                buf_extend(dst, slice_tail(head.as_slice()));
                assert(buf_view(*dst) =~= start + encoding(item@));
            },
            RedisValue::Integer(i) => {
                let digits = signed_decimal_text(*i);
                let l = line(58, digits.as_slice());
                buf_extend(dst, l.as_slice());
                assert(buf_view(*dst) =~= start + encoding(item@));
            },
            RedisValue::BulkString(s) => {
                let digits = decimal_text(s.len() as u64);
                let head = line(36, digits.as_slice());
                buf_extend(dst, head.as_slice());
                buf_extend(dst, s.as_slice());
                let empty: Vec<u8> = Vec::new();
                let tail = line(CR, empty.as_slice());
                buf_extend(dst, slice_tail(tail.as_slice()));
                assert(buf_view(*dst) =~= start + encoding(item@));
            },
            RedisValue::Array(v) => {
                let digits = decimal_text(v.len() as u64);
                let head = line(42, digits.as_slice());
                buf_extend(dst, head.as_slice());
                let ghost after_head = buf_view(*dst);
                proof {
                    lemma_views_index(v@);
                }
                let mut i: usize = 0;
                while i < v.len()
                    invariant
                        *item == RedisValue::Array(*v),
                        0 <= i <= v@.len(),
                        buf_view(*dst) == after_head + encodings(views(v@.subrange(0, i as int))),
                    decreases v.len() - i,
                {
                    proof {
                        vstd::std_specs::vec::axiom_vec_index_decreases(*v, i as int);
                        assert(decreases_to!(*item => item->Array_0));
                        lemma_views_push(v@.subrange(0, i as int), v@[i as int]);
                        assert(v@.subrange(0, i + 1) =~= v@.subrange(0, i as int).push(
                            v@[i as int],
                        ));
                        lemma_encodings_push(views(v@.subrange(0, i as int)), v@[i as int]@);
                    }
                    RespFrame::encode_ref(&v[i], dst);
                    i = i + 1;
                }
                assert(v@.subrange(0, i as int) =~= v@);
                assert(buf_view(*dst) =~= start + encoding(item@));
            },
        }
    }
}

/// The first byte of `s`.
fn slice_head(s: &[u8]) -> (r: &[u8])
    requires
        s@.len() >= 1,
    ensures
        r@ == s@.subrange(0, 1),
{
    vstd::slice::slice_subrange(s, 0, 1)
}

/// All of `s` but its first byte.
fn slice_tail(s: &[u8]) -> (r: &[u8])
    requires
        s@.len() >= 1,
    ensures
        r@ == s@.subrange(1, s@.len() as int),
{
    vstd::slice::slice_subrange(s, 1, s.len())
}

} // verus!

//! What the decoder makes of encoded messages: each encoding reads back as
//! its message, a cut encoding asks for more input, and a stream of encodings
//! fed byte by byte yields the messages in order.

use vstd::prelude::*;

use crate::number::{digit_text, lemma_signed_text_value, signed_text, MINUS};
use crate::resp::parse::{first_cr, lemma_first_cr_skip, spec_int, spec_items, spec_parse, spec_word, MAX_LENGTH};
use crate::resp::codec::{decode_step, drain, feed_bytes, feed_chunks};
use crate::resp::{crlf, encoding, encodings, well_formed, Resp, CR, LF};

verus! {

/// A part of a window of `input` that holds `w` at `pos`.
proof fn lemma_window(input: Seq<u8>, pos: int, w: Seq<u8>, a: int, b: int)
    requires
        0 <= pos,
        0 <= a <= b <= w.len(),
        pos + w.len() <= input.len(),
        input.subrange(pos, pos + w.len()) == w,
    ensures
        input.subrange(pos + a, pos + b) == w.subrange(a, b),
{
    assert forall|j: int| 0 <= j < b - a implies input.subrange(pos + a, pos + b)[j] == w.subrange(
        a,
        b,
    )[j] by {
        assert(input[pos + a + j] == input.subrange(pos, pos + w.len())[a + j]);
    }
    assert(input.subrange(pos + a, pos + b) =~= w.subrange(a, b));
}

/// A token without a carriage return, then CRLF, read at `pos`.
proof fn lemma_word_at(input: Seq<u8>, pos: int, tok: Seq<u8>)
    requires
        0 <= pos,
        pos + tok.len() + 2 <= input.len(),
        input.subrange(pos, pos + tok.len() + 2) == tok + crlf(),
        forall|i: int| 0 <= i < tok.len() ==> #[trigger] tok[i] != CR,
    ensures
        spec_word(input, pos) == Some((pos + tok.len() + 2, pos + tok.len())),
        input.subrange(pos, pos + tok.len()) == tok,
{
    let w = tok + crlf();
    assert forall|j: int| pos <= j < pos + tok.len() implies input[j] != CR by {
        assert(input[j] == input.subrange(pos, pos + tok.len() + 2)[j - pos]);
        assert(w[j - pos] == tok[j - pos]);
    }
    assert(input[pos + tok.len()] == input.subrange(pos, pos + tok.len() + 2)[tok.len() as int]);
    assert(input[pos + tok.len() + 1] == input.subrange(pos, pos + tok.len() + 2)[tok.len() as int + 1]);
    lemma_first_cr_skip(input, pos, pos + tok.len());
    assert(input.subrange(pos, pos + tok.len()) =~= w.subrange(0, tok.len() as int));
    assert(w.subrange(0, tok.len() as int) =~= tok);
}

/// What is there of a token without a carriage return and its CRLF, short of
/// the whole, read at `pos`.
proof fn lemma_word_cut(input: Seq<u8>, pos: int, tok: Seq<u8>)
    requires
        0 <= pos <= input.len() < pos + tok.len() + 2,
        input.subrange(pos, input.len() as int) == (tok + crlf()).subrange(0, input.len() - pos),
        forall|i: int| 0 <= i < tok.len() ==> #[trigger] tok[i] != CR,
    ensures
        spec_word(input, pos) is None,
{
    let w = tok + crlf();
    let end = if input.len() < pos + tok.len() {
        input.len() as int
    } else {
        pos + tok.len()
    };
    assert forall|j: int| pos <= j < end implies input[j] != CR by {
        assert(input[j] == input.subrange(pos, input.len() as int)[j - pos]);
        assert(w[j - pos] == tok[j - pos]);
    }
    lemma_first_cr_skip(input, pos, end);
    if pos < input.len() {
        if end == input.len() {
            assert(first_cr(input, end) is None);
        } else {
            assert(end + 1 == input.len());
            assert(first_cr(input, pos) == first_cr(input, end));
            assert(first_cr(input, end + 1) is None);
            assert(first_cr(input, end) matches Some(i) ==> i == end);
        }
    }
}

/// The decimal text of `i`, then CRLF, read at `pos` as an integer token.
proof fn lemma_int_at(input: Seq<u8>, pos: int, i: i64)
    requires
        0 <= pos,
        pos + signed_text(i as int).len() + 2 <= input.len(),
        input.subrange(pos, pos + signed_text(i as int).len() + 2) == signed_text(i as int) + crlf(),
    ensures
        spec_int(input, pos) == Ok::<Option<(int, i64)>, crate::resp::parse::RespParseError>(
            Some((pos + signed_text(i as int).len() + 2, i)),
        ),
{
    let tok = signed_text(i as int);
    lemma_signed_text_value(i);
    assert forall|k: int| 0 <= k < tok.len() implies #[trigger] tok[k] != CR by {
        assert(tok[k] == MINUS || crate::number::is_digit(tok[k]));
    }
    lemma_word_at(input, pos, tok);
}

/// What is there of an integer token, short of the whole, read at `pos`.
proof fn lemma_int_cut(input: Seq<u8>, pos: int, i: i64)
    requires
        0 <= pos <= input.len() < pos + signed_text(i as int).len() + 2,
        input.subrange(pos, input.len() as int) == (signed_text(i as int) + crlf()).subrange(
            0,
            input.len() - pos,
        ),
    ensures
        spec_int(input, pos) == Ok::<Option<(int, i64)>, crate::resp::parse::RespParseError>(None),
{
    let tok = signed_text(i as int);
    lemma_signed_text_value(i);
    assert forall|k: int| 0 <= k < tok.len() implies #[trigger] tok[k] != CR by {
        assert(tok[k] == MINUS || crate::number::is_digit(tok[k]));
    }
    lemma_word_cut(input, pos, tok);
}

proof fn lemma_minus_one_text()
    ensures
        signed_text(-1) == seq![45u8, 49u8],
{
    assert(digit_text(1) == seq![49u8]);
    assert(signed_text(-1) =~= seq![45u8, 49u8]);
}

proof fn lemma_length_text(n: nat)
    requires
        n <= MAX_LENGTH,
    ensures
        signed_text((n as i64) as int) == digit_text(n),
{
}

proof fn lemma_encoding_nonempty(v: Resp)
    ensures
        encoding(v).len() > 0,
{
}

/// The encoding of `v` read at `pos`.
proof fn lemma_parse_at(v: Resp, input: Seq<u8>, pos: int)
    requires
        well_formed(v),
        0 <= pos,
        pos + encoding(v).len() <= input.len(),
        input.subrange(pos, pos + encoding(v).len()) == encoding(v),
    ensures
        spec_parse(input, pos) == Ok::<Option<(int, Resp)>, crate::resp::parse::RespParseError>(
            Some((pos + encoding(v).len(), v)),
        ),
    decreases v,
{
    let e = encoding(v);
    assert(input[pos] == e[0]);
    match v {
        Resp::SimpleString(s) => {
            assert(input.subrange(pos + 1, pos + 1 + s.len() + 2) =~= s + crlf()) by {
                assert(input.subrange(pos + 1, pos + 1 + s.len() + 2) =~= e.subrange(1, e.len() as int));
            }
            lemma_word_at(input, pos + 1, s);
        },
        Resp::SimpleError(s) => {
            assert(input.subrange(pos + 1, pos + 1 + s.len() + 2) =~= s + crlf()) by {
                assert(input.subrange(pos + 1, pos + 1 + s.len() + 2) =~= e.subrange(1, e.len() as int));
            }
            lemma_word_at(input, pos + 1, s);
        },
        Resp::Integer(i) => {
            let t = signed_text(i as int);
            assert(input.subrange(pos + 1, pos + 1 + t.len() + 2) =~= t + crlf()) by {
                assert(input.subrange(pos + 1, pos + 1 + t.len() + 2) =~= e.subrange(1, e.len() as int));
            }
            lemma_int_at(input, pos + 1, i);
        },
        Resp::NullBulkString => {
            lemma_minus_one_text();
            let t = signed_text(-1);
            assert(input.subrange(pos + 1, pos + 1 + t.len() + 2) =~= t + crlf()) by {
                assert(input.subrange(pos + 1, pos + 1 + t.len() + 2) =~= e.subrange(1, e.len() as int));
            }
            lemma_int_at(input, pos + 1, -1i64);
        },
        Resp::NullArray => {
            lemma_minus_one_text();
            let t = signed_text(-1);
            assert(input.subrange(pos + 1, pos + 1 + t.len() + 2) =~= t + crlf()) by {
                assert(input.subrange(pos + 1, pos + 1 + t.len() + 2) =~= e.subrange(1, e.len() as int));
            }
            lemma_int_at(input, pos + 1, -1i64);
        },
        Resp::BulkString(s) => {
            let n = s.len();
            lemma_length_text(n);
            let t = digit_text(n);
            let p = pos + 1 + t.len() + 2;
            assert(input.subrange(pos + 1, p) =~= t + crlf()) by {
                assert(input.subrange(pos + 1, p) =~= e.subrange(1, 1 + t.len() as int + 2));
            }
            lemma_int_at(input, pos + 1, n as i64);
            assert(input.subrange(p, p + n) =~= s) by {
                assert(input.subrange(p, p + n) =~= e.subrange(p - pos, p - pos + n));
            }
            assert(input[p + n] == input.subrange(pos, pos + e.len())[p - pos + n]);
            assert(input[p + n + 1] == input.subrange(pos, pos + e.len())[p - pos + n + 1]);
            assert(e[p - pos + n] == CR);
            assert(e[p - pos + n + 1] == LF);
        },
        Resp::Array(items) => {
            let n = items.len();
            lemma_length_text(n);
            let t = digit_text(n);
            let p = pos + 1 + t.len() + 2;
            assert(input.subrange(pos + 1, p) =~= t + crlf()) by {
                assert(input.subrange(pos + 1, p) =~= e.subrange(1, 1 + t.len() as int + 2));
            }
            lemma_int_at(input, pos + 1, n as i64);
            let es = encodings(items);
            assert(input.subrange(p, p + es.len()) =~= es) by {
                assert(input.subrange(p, p + es.len()) =~= e.subrange(p - pos, e.len() as int));
            }
            lemma_items_at(items, input, p);
        },
    }
}

/// The encodings of `items` read at `pos`, one after another.
proof fn lemma_items_at(items: Seq<Resp>, input: Seq<u8>, pos: int)
    requires
        forall|i: int| 0 <= i < items.len() ==> well_formed(#[trigger] items[i]),
        0 <= pos,
        pos + encodings(items).len() <= input.len(),
        input.subrange(pos, pos + encodings(items).len()) == encodings(items),
    ensures
        spec_items(input, pos, items.len()) == Ok::<
            Option<(int, Seq<Resp>)>,
            crate::resp::parse::RespParseError,
        >(Some((pos + encodings(items).len(), items))),
    decreases items,
{
    if items.len() == 0 {
        assert(items =~= Seq::<Resp>::empty());
    } else {
        let es = encodings(items);
        let e0 = encoding(items[0]);
        let rest = items.subrange(1, items.len() as int);
        assert(es == e0 + encodings(rest));
        assert(input.subrange(pos, pos + e0.len()) =~= e0) by {
            assert(input.subrange(pos, pos + e0.len()) =~= es.subrange(0, e0.len() as int));
        }
        lemma_parse_at(items[0], input, pos);
        lemma_encoding_nonempty(items[0]);
        let p = pos + e0.len();
        assert(input.subrange(p, p + encodings(rest).len()) =~= encodings(rest)) by {
            assert(input.subrange(p, p + encodings(rest).len()) =~= es.subrange(
                e0.len() as int,
                es.len() as int,
            ));
        }
        assert forall|i: int| 0 <= i < rest.len() implies well_formed(#[trigger] rest[i]) by {
            assert(rest[i] == items[i + 1]);
        }
        lemma_items_at(rest, input, p);
        assert(seq![items[0]] + rest =~= items);
    }
}

/// What is there of the encoding of `v`, short of the whole, read at `pos`.
proof fn lemma_parse_cut(v: Resp, input: Seq<u8>, pos: int)
    requires
        well_formed(v),
        0 <= pos <= input.len() < pos + encoding(v).len(),
        input.subrange(pos, input.len() as int) == encoding(v).subrange(0, input.len() - pos),
    ensures
        spec_parse(input, pos) == Ok::<Option<(int, Resp)>, crate::resp::parse::RespParseError>(
            None,
        ),
    decreases v,
{
    let e = encoding(v);
    let len = input.len() as int;
    if pos == len {
        return;
    }
    assert(input[pos] == input.subrange(pos, len)[0]);
    assert(input[pos] == e[0]);
    let cut = input.subrange(pos + 1, len);
    lemma_window(input, pos, e.subrange(0, len - pos), 1, len - pos);
    assert(cut =~= e.subrange(1, len - pos));
    match v {
        Resp::SimpleString(s) => {
            assert(cut =~= (s + crlf()).subrange(0, len - pos - 1));
            lemma_word_cut(input, pos + 1, s);
        },
        Resp::SimpleError(s) => {
            assert(cut =~= (s + crlf()).subrange(0, len - pos - 1));
            lemma_word_cut(input, pos + 1, s);
        },
        Resp::Integer(i) => {
            let t = signed_text(i as int);
            assert(cut =~= (t + crlf()).subrange(0, len - pos - 1));
            lemma_int_cut(input, pos + 1, i);
        },
        Resp::NullBulkString => {
            lemma_minus_one_text();
            let t = signed_text(-1);
            assert(cut =~= (t + crlf()).subrange(0, len - pos - 1));
            lemma_int_cut(input, pos + 1, -1i64);
        },
        Resp::NullArray => {
            lemma_minus_one_text();
            let t = signed_text(-1);
            assert(cut =~= (t + crlf()).subrange(0, len - pos - 1));
            lemma_int_cut(input, pos + 1, -1i64);
        },
        Resp::BulkString(s) => {
            let n = s.len();
            lemma_length_text(n);
            let t = digit_text(n);
            let p = pos + 1 + t.len() + 2;
            if len < p {
                assert(cut =~= (t + crlf()).subrange(0, len - pos - 1));
                lemma_int_cut(input, pos + 1, n as i64);
            } else {
                assert(input.subrange(pos + 1, p) =~= t + crlf()) by {
                    assert(input.subrange(pos + 1, p) =~= e.subrange(1, 1 + t.len() as int + 2));
                }
                lemma_int_at(input, pos + 1, n as i64);
            }
        },
        Resp::Array(items) => {
            let n = items.len();
            lemma_length_text(n);
            let t = digit_text(n);
            let p = pos + 1 + t.len() + 2;
            if len < p {
                assert(cut =~= (t + crlf()).subrange(0, len - pos - 1));
                lemma_int_cut(input, pos + 1, n as i64);
            } else {
                assert(input.subrange(pos + 1, p) =~= t + crlf()) by {
                    assert(input.subrange(pos + 1, p) =~= e.subrange(1, 1 + t.len() as int + 2));
                }
                lemma_int_at(input, pos + 1, n as i64);
                let es = encodings(items);
                assert(input.subrange(p, len) =~= es.subrange(0, len - p)) by {
                    lemma_window(input, pos, e.subrange(0, len - pos), p - pos, len - pos);
                    assert(input.subrange(p, len) =~= e.subrange(p - pos, len - pos));
                }
                lemma_items_cut(items, input, p);
            }
        },
    }
}

/// What is there of the encodings of `items`, short of the whole, read at
/// `pos`.
proof fn lemma_items_cut(items: Seq<Resp>, input: Seq<u8>, pos: int)
    requires
        forall|i: int| 0 <= i < items.len() ==> well_formed(#[trigger] items[i]),
        0 <= pos <= input.len() < pos + encodings(items).len(),
        input.subrange(pos, input.len() as int) == encodings(items).subrange(0, input.len() - pos),
    ensures
        spec_items(input, pos, items.len()) == Ok::<
            Option<(int, Seq<Resp>)>,
            crate::resp::parse::RespParseError,
        >(None),
    decreases items,
{
    let len = input.len() as int;
    let es = encodings(items);
    let e0 = encoding(items[0]);
    let rest = items.subrange(1, items.len() as int);
    assert(es == e0 + encodings(rest));
    if len < pos + e0.len() {
        assert(input.subrange(pos, len) =~= e0.subrange(0, len - pos));
        lemma_parse_cut(items[0], input, pos);
    } else {
        assert(input.subrange(pos, pos + e0.len()) =~= e0) by {
            assert(input.subrange(pos, pos + e0.len()) =~= es.subrange(0, e0.len() as int));
        }
        lemma_parse_at(items[0], input, pos);
        lemma_encoding_nonempty(items[0]);
        let p = pos + e0.len();
        assert(input.subrange(p, len) =~= encodings(rest).subrange(0, len - p)) by {
            lemma_window(input, pos, es.subrange(0, len - pos), e0.len() as int, len - pos);
            assert(input.subrange(p, len) =~= es.subrange(e0.len() as int, len - pos));
        }
        assert forall|i: int| 0 <= i < rest.len() implies well_formed(#[trigger] rest[i]) by {
            assert(rest[i] == items[i + 1]);
        }
        lemma_items_cut(rest, input, p);
    }
}

/// Decoding a buffer that starts with the encoding of a message gives the
/// message and consumes exactly its encoding, whatever follows it.
pub proof fn lemma_decode_encoding(v: Resp, rest: Seq<u8>)
    requires
        well_formed(v),
    ensures
        spec_parse(encoding(v) + rest, 0) == Ok::<
            Option<(int, Resp)>,
            crate::resp::parse::RespParseError,
        >(Some((encoding(v).len() as int, v))),
{
    let input = encoding(v) + rest;
    assert(input.subrange(0, encoding(v).len() as int) =~= encoding(v));
    lemma_parse_at(v, input, 0);
}

/// Decoding a proper prefix of the encoding of a message asks for more input.
pub proof fn lemma_decode_prefix(v: Resp, n: int)
    requires
        well_formed(v),
        0 <= n < encoding(v).len(),
    ensures
        spec_parse(encoding(v).subrange(0, n), 0) == Ok::<
            Option<(int, Resp)>,
            crate::resp::parse::RespParseError,
        >(None),
{
    let input = encoding(v).subrange(0, n);
    assert(input.subrange(0, n) =~= input);
    lemma_parse_cut(v, input, 0);
}

/// Feeding the rest of the encoding of `v`, byte by byte, after its first
/// `k` bytes are buffered, takes `v` and leaves nothing buffered.
proof fn lemma_feed_one(taken: Seq<Resp>, v: Resp, k: int, rest: Seq<u8>)
    requires
        well_formed(v),
        0 <= k < encoding(v).len(),
    ensures
        feed_bytes(taken, encoding(v).subrange(0, k), encoding(v).subrange(k, encoding(v).len() as int) + rest)
            == feed_bytes(taken.push(v), Seq::empty(), rest),
    decreases encoding(v).len() - k,
{
    let e = encoding(v);
    let bytes = e.subrange(k, e.len() as int) + rest;
    let buf = e.subrange(0, k).push(bytes[0]);
    assert(buf =~= e.subrange(0, k + 1));
    if k + 1 < e.len() {
        lemma_decode_prefix(v, k + 1);
        assert(bytes.drop_first() =~= e.subrange(k + 1, e.len() as int) + rest);
        lemma_feed_one(taken, v, k + 1, rest);
    } else {
        assert(buf =~= e + Seq::<u8>::empty());
        lemma_decode_encoding(v, Seq::empty());
        assert(decode_step(taken, buf) == (taken.push(v), buf.subrange(e.len() as int, e.len() as int)));
        assert(buf.subrange(e.len() as int, e.len() as int) =~= Seq::<u8>::empty());
        assert(bytes.drop_first() =~= rest);
    }
}

proof fn lemma_feed_all(taken: Seq<Resp>, vs: Seq<Resp>, rest: Seq<u8>)
    requires
        forall|i: int| 0 <= i < vs.len() ==> well_formed(#[trigger] vs[i]),
    ensures
        feed_bytes(taken, Seq::empty(), encodings(vs) + rest) == feed_bytes(
            taken + vs,
            Seq::empty(),
            rest,
        ),
    decreases vs.len(),
{
    if vs.len() == 0 {
        assert(encodings(vs) + rest =~= rest);
        assert(taken + vs =~= taken);
    } else {
        let e0 = encoding(vs[0]);
        let tail = vs.subrange(1, vs.len() as int);
        lemma_encoding_nonempty(vs[0]);
        assert(encodings(vs) + rest =~= e0.subrange(0, e0.len() as int) + (encodings(tail) + rest));
        assert(e0.subrange(0, 0) =~= Seq::<u8>::empty());
        lemma_feed_one(taken, vs[0], 0, encodings(tail) + rest);
        assert forall|i: int| 0 <= i < tail.len() implies well_formed(#[trigger] tail[i]) by {
            assert(tail[i] == vs[i + 1]);
        }
        lemma_feed_all(taken.push(vs[0]), tail, rest);
        assert(taken.push(vs[0]) + tail =~= taken + vs);
    }
}

/// Feeding the encodings of `vs`, one after another, to the decoder one byte
/// at a time yields exactly the messages `vs`, in order, and leaves nothing
/// buffered.
pub proof fn lemma_decode_stream(vs: Seq<Resp>)
    requires
        forall|i: int| 0 <= i < vs.len() ==> well_formed(#[trigger] vs[i]),
    ensures
        feed_bytes(Seq::empty(), Seq::empty(), encodings(vs)) == (vs, Seq::<u8>::empty()),
{
    lemma_feed_all(Seq::empty(), vs, Seq::empty());
    assert(encodings(vs) + Seq::<u8>::empty() =~= encodings(vs));
    assert(Seq::<Resp>::empty() + vs =~= vs);
}

/// A bulk string that declares a length above `u32::MAX` is refused with
/// `ExceededMaxLength`, and one that declares a length below `-1` with
/// `InvalidBulkStringLength`, before any payload is looked at.
pub proof fn lemma_bulk_length_refused(len: i64, rest: Seq<u8>)
    requires
        len < -1 || len > MAX_LENGTH,
    ensures
        spec_parse(seq![36u8] + signed_text(len as int) + crlf() + rest, 0) == Err::<
            Option<(int, Resp)>,
            crate::resp::parse::RespParseError,
        >(
            if len < -1 {
                crate::resp::parse::RespParseError::InvalidBulkStringLength(len)
            } else {
                crate::resp::parse::RespParseError::ExceededMaxLength
            },
        ),
{
    let t = signed_text(len as int);
    let input = seq![36u8] + t + crlf() + rest;
    assert(input.subrange(1, 1 + t.len() as int + 2) =~= t + crlf());
    lemma_int_at(input, 1, len);
}

proof fn lemma_encodings_split(ws: Seq<Resp>, k: int)
    requires
        0 <= k <= ws.len(),
    ensures
        encodings(ws) == encodings(ws.take(k)) + encodings(ws.skip(k)),
    decreases k,
{
    if k > 0 {
        let t = ws.subrange(1, ws.len() as int);
        lemma_encodings_split(t, k - 1);
        let wk = ws.take(k);
        assert(wk[0] == ws[0]);
        assert(wk.subrange(1, wk.len() as int) =~= t.take(k - 1));
        assert(ws.skip(k) =~= t.skip(k - 1));
        assert(encodings(ws) =~= encodings(ws.take(k)) + encodings(ws.skip(k)));
    } else {
        assert(ws.take(0) =~= Seq::<Resp>::empty());
        assert(ws.skip(0) =~= ws);
        assert(encodings(Seq::<Resp>::empty()) == Seq::<u8>::empty());
        assert(encodings(ws) =~= encodings(ws.take(k)) + encodings(ws.skip(k)));
    }
}

/// Draining a buffer that, with `rest` still to come, holds the encodings
/// of `ws`: the first `k` messages are taken, those that fit whole.
proof fn lemma_drain(taken: Seq<Resp>, ws: Seq<Resp>, b: Seq<u8>, rest: Seq<u8>, fuel: nat) -> (k:
    nat)
    requires
        forall|i: int| 0 <= i < ws.len() ==> well_formed(#[trigger] ws[i]),
        b + rest == encodings(ws),
        fuel >= b.len(),
    ensures
        k <= ws.len(),
        encodings(ws.take(k as int)).len() <= b.len(),
        drain(taken, b, fuel) == (
            taken + ws.take(k as int),
            b.subrange(encodings(ws.take(k as int)).len() as int, b.len() as int),
        ),
        k < ws.len() ==> b.len() - encodings(ws.take(k as int)).len() < encoding(ws[k as int]).len(),
    decreases fuel,
{
    if ws.len() > 0 && encoding(ws[0]).len() <= b.len() {
        let e0 = encoding(ws[0]);
        let t = ws.subrange(1, ws.len() as int);
        assert(encodings(ws) == e0 + encodings(t));
        let b2 = b.subrange(e0.len() as int, b.len() as int);
        assert(b.subrange(0, e0.len() as int) =~= e0) by {
            assert(b.subrange(0, e0.len() as int) =~= (b + rest).subrange(0, e0.len() as int));
            assert((e0 + encodings(t)).subrange(0, e0.len() as int) =~= e0);
        }
        assert(b =~= e0 + b2);
        lemma_decode_encoding(ws[0], b2);
        lemma_encoding_nonempty(ws[0]);
        assert(b2 + rest =~= encodings(t)) by {
            assert((b + rest).subrange(e0.len() as int, (b + rest).len() as int) =~= b2 + rest);
            assert((e0 + encodings(t)).subrange(e0.len() as int, (e0 + encodings(t)).len() as int)
                =~= encodings(t));
        }
        assert forall|i: int| 0 <= i < t.len() implies well_formed(#[trigger] t[i]) by {
            assert(t[i] == ws[i + 1]);
        }
        let k2 = lemma_drain(taken.push(ws[0]), t, b2, rest, (fuel - 1) as nat);
        let k = k2 + 1;
        let wk = ws.take(k as int);
        assert(wk[0] == ws[0]);
        assert(wk.subrange(1, wk.len() as int) =~= t.take(k2 as int));
        assert(encodings(wk) == e0 + encodings(t.take(k2 as int)));
        assert(taken.push(ws[0]) + t.take(k2 as int) =~= taken + wk);
        let e = encodings(t.take(k2 as int)).len() as int;
        assert(b2.subrange(e, b2.len() as int) =~= b.subrange(e0.len() + e, b.len() as int));
        if k < ws.len() {
            assert(ws[k as int] == t[k2 as int]);
        }
        k
    } else {
        assert(ws.take(0) =~= Seq::<Resp>::empty());
        assert(encodings(Seq::<Resp>::empty()) == Seq::<u8>::empty());
        assert(b.subrange(0, b.len() as int) =~= b);
        assert(taken + Seq::<Resp>::empty() =~= taken);
        if fuel > 0 {
            if ws.len() == 0 {
                assert(b.len() == 0);
            } else {
                let e0 = encoding(ws[0]);
                let t = ws.subrange(1, ws.len() as int);
                assert(encodings(ws) == e0 + encodings(t));
                assert(e0.subrange(0, b.len() as int) =~= b) by {
                    assert((b + rest).subrange(0, b.len() as int) =~= b);
                    assert((e0 + encodings(t)).subrange(0, b.len() as int) =~= e0.subrange(
                        0,
                        b.len() as int,
                    ));
                }
                lemma_decode_prefix(ws[0], b.len() as int);
            }
        }
        0
    }
}

proof fn lemma_feed_chunks_from(taken: Seq<Resp>, ws: Seq<Resp>, buf: Seq<u8>, chunks: Seq<Seq<u8>>)
    requires
        forall|i: int| 0 <= i < ws.len() ==> well_formed(#[trigger] ws[i]),
        buf + chunks.flatten() == encodings(ws),
        ws.len() > 0 ==> buf.len() < encoding(ws[0]).len(),
    ensures
        feed_chunks(taken, buf, chunks) == (taken + ws, Seq::<u8>::empty()),
    decreases chunks.len(),
{
    if chunks.len() == 0 {
        assert(chunks.flatten() == Seq::<u8>::empty());
        assert(buf + Seq::<u8>::empty() =~= buf);
        if ws.len() > 0 {
            let t = ws.subrange(1, ws.len() as int);
            assert(encodings(ws) == encoding(ws[0]) + encodings(t));
        }
        assert(ws.len() == 0);
        assert(taken + ws =~= taken);
        assert(encodings(ws) == Seq::<u8>::empty());
    } else {
        let b = buf + chunks[0];
        let r = chunks.drop_first().flatten();
        assert(chunks.flatten() == chunks.first() + r);
        assert(b + r =~= buf + chunks.flatten());
        let k = lemma_drain(taken, ws, b, r, b.len());
        let e = encodings(ws.take(k as int)).len() as int;
        let b2 = b.subrange(e, b.len() as int);
        lemma_encodings_split(ws, k as int);
        let ws2 = ws.skip(k as int);
        assert(b2 + r =~= encodings(ws2)) by {
            assert((b + r).subrange(e, (b + r).len() as int) =~= b2 + r);
            assert((encodings(ws.take(k as int)) + encodings(ws2)).subrange(
                e,
                encodings(ws).len() as int,
            ) =~= encodings(ws2));
        }
        assert forall|i: int| 0 <= i < ws2.len() implies well_formed(#[trigger] ws2[i]) by {
            assert(ws2[i] == ws[i + k]);
        }
        if ws2.len() > 0 {
            assert(ws2[0] == ws[k as int]);
        }
        lemma_feed_chunks_from(taken + ws.take(k as int), ws2, b2, chunks.drop_first());
        assert(taken + ws.take(k as int) + ws2 =~= taken + ws);
    }
}

/// However the encodings of `vs` are cut into chunks, feeding the chunks to
/// the decoder one after another, and calling it after each until it takes
/// nothing, yields exactly the messages `vs`, in order, and leaves nothing
/// buffered.
pub proof fn lemma_decode_chunks(vs: Seq<Resp>, chunks: Seq<Seq<u8>>)
    requires
        forall|i: int| 0 <= i < vs.len() ==> well_formed(#[trigger] vs[i]),
        chunks.flatten() == encodings(vs),
    ensures
        feed_chunks(Seq::empty(), Seq::empty(), chunks) == (vs, Seq::<u8>::empty()),
{
    assert(Seq::<u8>::empty() + chunks.flatten() =~= chunks.flatten());
    if vs.len() > 0 {
        lemma_encoding_nonempty(vs[0]);
    }
    lemma_feed_chunks_from(Seq::empty(), vs, Seq::empty(), chunks);
    assert(Seq::<Resp>::empty() + vs =~= vs);
}

} // verus!

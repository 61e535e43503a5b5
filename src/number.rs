//! Decimal text of integers, as RESP writes lengths and integers and as
//! command arguments carry durations.

use vstd::prelude::*;

verus! {

/// The ASCII code of `0`.
pub const ZERO: u8 = 48;

/// The ASCII code of `+`.
pub const PLUS: u8 = 43;

/// The ASCII code of `-`.
pub const MINUS: u8 = 45;

pub open spec fn is_digit(b: u8) -> bool {
    ZERO <= b <= ZERO + 9
}

pub open spec fn all_digits(s: Seq<u8>) -> bool {
    forall|i: int| 0 <= i < s.len() ==> is_digit(#[trigger] s[i])
}

/// The decimal digits of `n`, most significant first, with no leading zero.
pub open spec fn digit_text(n: nat) -> Seq<u8>
    decreases n,
{
    if n < 10 {
        seq![(ZERO + n) as u8]
    } else {
        digit_text(n / 10) + seq![(ZERO + n % 10) as u8]
    }
}

/// The decimal text of `i`, with a leading `-` when negative.
pub open spec fn signed_text(i: int) -> Seq<u8> {
    if i < 0 {
        seq![MINUS] + digit_text((-i) as nat)
    } else {
        digit_text(i as nat)
    }
}

/// The number that a string of digits denotes.
pub open spec fn digits_value(s: Seq<u8>) -> nat
    decreases s.len(),
{
    if s.len() == 0 {
        0
    } else {
        digits_value(s.drop_last()) * 10 + (s.last() - ZERO) as nat
    }
}

/// The digits of a decimal without its sign: `s` less a leading `+` or `-`
/// (when `signed` allows `-`).
pub open spec fn unsigned_part(s: Seq<u8>, signed: bool) -> Seq<u8> {
    if s.len() > 0 && (s[0] == PLUS || (signed && s[0] == MINUS)) {
        s.drop_first()
    } else {
        s
    }
}

pub open spec fn is_negative(s: Seq<u8>) -> bool {
    s.len() > 0 && s[0] == MINUS
}

/// What a decimal text denotes, in the form that std's `from_str` accepts for
/// signed (`signed`) or unsigned integers: an optional sign, then one digit or
/// more. Whether the value fits the integer type is left to the caller.
pub open spec fn decimal_value(s: Seq<u8>, signed: bool) -> Option<int> {
    let d = unsigned_part(s, signed);
    if d.len() > 0 && all_digits(d) {
        if signed && is_negative(s) {
            Some(-(digits_value(d) as int))
        } else {
            Some(digits_value(d) as int)
        }
    } else {
        None
    }
}

/// The `i64` that `s` spells, if any.
pub open spec fn i64_of(s: Seq<u8>) -> Option<i64> {
    match decimal_value(s, true) {
        Some(v) => if i64::MIN <= v <= i64::MAX {
            Some(v as i64)
        } else {
            None
        },
        None => None,
    }
}

/// The `u64` that `s` spells, if any.
pub open spec fn u64_of(s: Seq<u8>) -> Option<u64> {
    match decimal_value(s, false) {
        Some(v) => if v <= u64::MAX {
            Some(v as u64)
        } else {
            None
        },
        None => None,
    }
}

/// Writing a number and reading it back gives the number.
pub proof fn lemma_digit_text_value(n: nat)
    ensures
        all_digits(digit_text(n)),
        digits_value(digit_text(n)) == n,
        digit_text(n).len() > 0,
    decreases n,
{
    let t = digit_text(n);
    if n >= 10 {
        lemma_digit_text_value(n / 10);
        assert(t.drop_last() =~= digit_text(n / 10));
        assert(t.last() - ZERO == n % 10);
        assert(n == (n / 10) * 10 + n % 10);
        assert forall|i: int| 0 <= i < t.len() implies is_digit(#[trigger] t[i]) by {
            if i < t.len() - 1 {
                assert(t[i] == digit_text(n / 10)[i]);
            }
        }
    } else {
        assert(t.drop_last() =~= Seq::<u8>::empty());
        assert(digits_value(t) == digits_value(t.drop_last()) * 10 + (t.last() - ZERO) as nat);
    }
}

/// The decimal text of an `i64` reads back as that `i64`; it holds only
/// digits and perhaps a leading `-`.
pub proof fn lemma_signed_text_value(i: i64)
    ensures
        i64_of(signed_text(i as int)) == Some(i),
        signed_text(i as int).len() > 0,
        forall|k: int|
            0 <= k < signed_text(i as int).len() ==> #[trigger] signed_text(i as int)[k] == MINUS
                || is_digit(signed_text(i as int)[k]),
{
    let t = signed_text(i as int);
    if i < 0 {
        let n = (-i) as nat;
        lemma_digit_text_value(n);
        assert(unsigned_part(t, true) =~= digit_text(n));
        assert forall|k: int| 0 <= k < t.len() implies #[trigger] t[k] == MINUS || is_digit(t[k]) by {
            if k > 0 {
                assert(t[k] == digit_text(n)[k - 1]);
            }
        }
    } else {
        let n = i as nat;
        lemma_digit_text_value(n);
        assert(is_digit(t[0]));
        assert(unsigned_part(t, true) =~= t);
    }
}

/// A decimal text is ASCII.
pub proof fn lemma_decimal_ascii(s: Seq<u8>, signed: bool)
    ensures
        decimal_value(s, signed) is Some ==> forall|i: int| 0 <= i < s.len() ==> #[trigger] s[i] < 128,
{
    if decimal_value(s, signed) is Some {
        let d = unsigned_part(s, signed);
        assert forall|i: int| 0 <= i < s.len() implies #[trigger] s[i] < 128 by {
            if d.len() < s.len() && i > 0 {
                assert(s[i] == d[i - 1]);
                assert(is_digit(d[i - 1]));
            } else if d.len() == s.len() {
                assert(d =~= s);
                assert(is_digit(d[i]));
            }
        }
    }
}

/// The value of a string of digits is at least that of any of its prefixes.
pub proof fn lemma_digits_value_prefix(s: Seq<u8>, k: int)
    requires
        0 <= k <= s.len(),
        all_digits(s),
    ensures
        digits_value(s.subrange(0, k)) <= digits_value(s),
    decreases s.len() - k,
{
    if k < s.len() {
        lemma_digits_value_prefix(s, k + 1);
        let p = s.subrange(0, k + 1);
        assert(p.drop_last() =~= s.subrange(0, k));
        assert(is_digit(s[k]));
        let x = digits_value(s.subrange(0, k));
        assert(x * 10 + (p.last() - ZERO) as nat >= x) by (nonlinear_arith);
    } else {
        assert(s.subrange(0, k) =~= s);
    }
}

/// The decimal text of `n`.
pub fn decimal_text(n: u64) -> (r: Vec<u8>)
    ensures
        r@ == digit_text(n as nat),
    decreases n,
{
    if n < 10 {
        let mut r: Vec<u8> = Vec::new();
        r.push(ZERO + n as u8);
        assert(r@ =~= seq![(ZERO + n) as u8]);
        r
    } else {
        let mut r = decimal_text(n / 10);
        r.push(ZERO + (n % 10) as u8);
        assert(r@ =~= digit_text((n / 10) as nat) + seq![(ZERO + n % 10) as u8]);
        r
    }
}

/// The decimal text of `i`, with a leading `-` when negative.
pub fn signed_decimal_text(i: i64) -> (r: Vec<u8>)
    ensures
        r@ == signed_text(i as int),
{
    if i < 0 {
        let magnitude: u64 = (-(i + 1)) as u64 + 1;
        let digits = decimal_text(magnitude);
        let mut r: Vec<u8> = Vec::new();
        r.push(MINUS);
        let mut k: usize = 0;
        while k < digits.len()
            invariant
                0 <= k <= digits.len(),
                r@ == seq![MINUS] + digits@.subrange(0, k as int),
            decreases digits.len() - k,
        {
            r.push(digits[k]);
            assert(digits@.subrange(0, k + 1) =~= digits@.subrange(0, k as int).push(digits@[k as int]));
            k = k + 1;
        }
        assert(digits@.subrange(0, digits.len() as int) =~= digits@);
        r
    } else {
        decimal_text(i as u64)
    }
}

/// The value of the digits `d[start..]` when they are all digits, there is at
/// least one, and the value is at most `limit`.
fn bounded_digits(d: &[u8], start: usize, limit: u64) -> (r: Option<u64>)
    requires
        start <= d@.len(),
        limit >= 9,
    ensures
        ({
            let s = d@.subrange(start as int, d@.len() as int);
            r == if s.len() > 0 && all_digits(s) && digits_value(s) <= limit {
                Some(digits_value(s) as u64)
            } else {
                None
            }
        }),
{
    let ghost s = d@.subrange(start as int, d@.len() as int);
    if start == d.len() {
        return None;
    }
    let mut acc: u64 = 0;
    let mut i: usize = start;
    while i < d.len()
        invariant
            start <= i <= d@.len(),
            s == d@.subrange(start as int, d@.len() as int),
            all_digits(d@.subrange(start as int, i as int)),
            acc as nat == digits_value(d@.subrange(start as int, i as int)),
            acc <= limit,
            limit >= 9,
        decreases d.len() - i,
    {
        let b = d[i];
        let ghost pre = d@.subrange(start as int, i as int);
        let ghost next = d@.subrange(start as int, i + 1);
        assert(next.drop_last() =~= pre);
        if b < ZERO || b > ZERO + 9 {
            assert(!is_digit(s[i - start]));
            return None;
        }
        let dig: u64 = (b - ZERO) as u64;
        assert(dig <= 9);
        if acc > (limit - dig) / 10 {
            assert(acc * 10 + dig > limit) by (nonlinear_arith)
                requires
                    acc > (limit - dig) / 10,
                    dig <= 9,
                    dig <= limit,
            ;
            proof {
                if all_digits(s) {
                    assert(next =~= s.subrange(0, (i + 1 - start) as int));
                    lemma_digits_value_prefix(s, (i + 1 - start) as int);
                }
            }
            return None;
        }
        assert(acc * 10 + dig <= limit) by (nonlinear_arith)
            requires
                acc <= (limit - dig) / 10,
                dig <= limit,
        ;
        acc = acc * 10 + dig;
        i = i + 1;
    }
    assert(d@.subrange(start as int, i as int) =~= s);
    Some(acc)
}

/// Reads an unsigned decimal as std's `u64::from_str` does: an optional `+`,
/// then one digit or more, with a value that fits.
pub fn parse_u64(tok: &[u8]) -> (r: Option<u64>)
    ensures
        r == u64_of(tok@),
{
    let start: usize = if tok.len() > 0 && tok[0] == PLUS {
        1
    } else {
        0
    };
    assert(unsigned_part(tok@, false) =~= tok@.subrange(start as int, tok@.len() as int));
    bounded_digits(tok, start, u64::MAX)
}

/// Reads a signed decimal as std's `i64::from_str` does: an optional `+` or
/// `-`, then one digit or more, with a value that fits.
pub fn parse_i64(tok: &[u8]) -> (r: Option<i64>)
    ensures
        r == i64_of(tok@),
{
    if tok.len() > 0 && tok[0] == MINUS {
        assert(unsigned_part(tok@, true) =~= tok@.subrange(1, tok@.len() as int));
        match bounded_digits(tok, 1, 0x8000_0000_0000_0000u64) {
            Some(m) => {
                if m == 0x8000_0000_0000_0000u64 {
                    Some(i64::MIN)
                } else {
                    Some(-(m as i64))
                }
            },
            None => None,
        }
    } else {
        let start: usize = if tok.len() > 0 && tok[0] == PLUS {
            1
        } else {
            0
        };
        assert(unsigned_part(tok@, true) =~= tok@.subrange(start as int, tok@.len() as int));
        match bounded_digits(tok, start, 0x7fff_ffff_ffff_ffffu64) {
            Some(m) => Some(m as i64),
            None => None,
        }
    }
}

} // verus!

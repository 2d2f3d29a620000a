//! Decimal ASCII numbers: how a run of digit bytes denotes a number, and the
//! digits by which a number is written.

use vstd::prelude::*;

verus! {

/// The byte is one of the ASCII digits `0` to `9`.
pub open spec fn is_digit(b: u8) -> bool {
    48 <= b && b <= 57
}

/// Every byte of the sequence is an ASCII digit.
pub open spec fn all_digits(s: Seq<u8>) -> bool {
    forall|i: int| 0 <= i < s.len() ==> is_digit(#[trigger] s[i])
}

/// The number that a run of digits denotes in base ten; leading zeros count
/// for nothing and the empty run denotes zero.
pub open spec fn digits_value(s: Seq<u8>) -> nat
    decreases s.len(),
{
    if s.len() == 0 {
        0
    } else {
        digits_value(s.drop_last()) * 10 + (s.last() - 48) as nat
    }
}

/// The digits of an unsigned literal: the text without an optional leading `+`.
pub open spec fn unsigned_body(s: Seq<u8>) -> Seq<u8> {
    if s.len() > 0 && s[0] == 43 {
        s.subrange(1, s.len() as int)
    } else {
        s
    }
}

/// The value of an unsigned decimal literal: an optional `+`, then at least
/// one digit. Anything else denotes nothing.
pub open spec fn unsigned_decimal(s: Seq<u8>) -> Option<nat> {
    let body = unsigned_body(s);
    if body.len() > 0 && all_digits(body) {
        Some(digits_value(body))
    } else {
        None
    }
}

/// The value of a signed decimal literal: an optional `+` or `-`, then at
/// least one digit.
pub open spec fn signed_decimal(s: Seq<u8>) -> Option<int> {
    if s.len() > 0 && s[0] == 45 {
        let body = s.subrange(1, s.len() as int);
        if body.len() > 0 && all_digits(body) {
            Some(-(digits_value(body) as int))
        } else {
            None
        }
    } else {
        match unsigned_decimal(s) {
            Some(v) => Some(v as int),
            None => None,
        }
    }
}

/// The shortest decimal writing of a number: no sign, no leading zeros.
pub open spec fn decimal_digits(n: nat) -> Seq<u8>
    decreases n,
{
    if n < 10 {
        seq![(48 + n) as u8]
    } else {
        decimal_digits(n / 10).push((48 + n % 10) as u8)
    }
}

/// The decimal writing of an integer: a `-` before the digits of a negative one.
pub open spec fn signed_digits(i: int) -> Seq<u8> {
    if i < 0 {
        seq![45u8] + decimal_digits((-i) as nat)
    } else {
        decimal_digits(i as nat)
    }
}

/// A prefix of a run of digits never denotes more than the whole run.
pub proof fn lemma_prefix_value_bounded(s: Seq<u8>, k: int)
    requires
        0 <= k <= s.len(),
    ensures
        digits_value(s.subrange(0, k)) <= digits_value(s),
    decreases s.len(),
{
    if k == s.len() {
        assert(s.subrange(0, k) =~= s);
    } else {
        lemma_prefix_value_bounded(s.drop_last(), k);
        assert(s.drop_last().subrange(0, k) =~= s.subrange(0, k));
    }
}

/// Reading back the digits that write a number gives that number.
pub proof fn lemma_digits_round_trip(n: nat)
    ensures
        decimal_digits(n).len() > 0,
        all_digits(decimal_digits(n)),
        digits_value(decimal_digits(n)) == n,
    decreases n,
{
    if n < 10 {
        let s = decimal_digits(n);
        assert(s.drop_last() =~= Seq::<u8>::empty());
        assert(digits_value(s.drop_last()) == 0);
    } else {
        lemma_digits_round_trip(n / 10);
        let p = decimal_digits(n / 10);
        let s = decimal_digits(n);
        assert(s.drop_last() =~= p);
        assert(s.last() == (48 + n % 10) as u8);
    }
}

/// A written number reads back as itself, as an unsigned and as a signed literal.
pub proof fn lemma_decimal_round_trip(i: int)
    ensures
        signed_decimal(signed_digits(i)) == Some(i),
        i >= 0 ==> unsigned_decimal(decimal_digits(i as nat)) == Some(i as nat),
{
    if i < 0 {
        let d = decimal_digits((-i) as nat);
        lemma_digits_round_trip((-i) as nat);
        let s = signed_digits(i);
        assert(s.subrange(1, s.len() as int) =~= d);
    } else {
        let d = decimal_digits(i as nat);
        lemma_digits_round_trip(i as nat);
        assert(is_digit(d[0]));
    }
}

/// Reads the digits of `v` from `start` to its end as a number of at most `limit`.
pub fn magnitude(v: &[u8], start: usize, limit: u64) -> (r: Option<u64>)
    requires
        start <= v@.len(),
    ensures
        r is Some <==> ({
            let body = v@.subrange(start as int, v@.len() as int);
            body.len() > 0 && all_digits(body) && digits_value(body) <= limit
        }),
        r matches Some(n) ==> n == digits_value(v@.subrange(start as int, v@.len() as int)),
{
    if start == v.len() {
        return None;
    }
    let ghost body = v@.subrange(start as int, v@.len() as int);
    let mut acc: u64 = 0;
    let mut i: usize = start;
    assert(body.subrange(0, 0) =~= Seq::<u8>::empty());
    while i < v.len()
        invariant
            start <= i <= v@.len(),
            body == v@.subrange(start as int, v@.len() as int),
            all_digits(body.subrange(0, i - start)),
            acc == digits_value(body.subrange(0, i - start)),
            acc <= limit,
        decreases v@.len() - i,
    {
        let b: u8 = v[i];
        if b < 48 || b > 57 {
            assert(!is_digit(body[i - start]));
            return None;
        }
        let next: u128 = acc as u128 * 10 + (b - 48) as u128;
        proof {
            let p = body.subrange(0, i + 1 - start);
            assert(p.drop_last() =~= body.subrange(0, i - start));
            assert(p.last() == b);
            assert(digits_value(p) == next);
            assert forall|j: int| 0 <= j < p.len() implies is_digit(#[trigger] p[j]) by {
                if j < i - start {
                    assert(is_digit(body.subrange(0, i - start)[j]));
                }
            }
            lemma_prefix_value_bounded(body, i + 1 - start);
        }
        if next > limit as u128 {
            return None;
        }
        acc = next as u64;
        i = i + 1;
    }
    assert(body.subrange(0, i - start) =~= body);
    Some(acc)
}

/// Appends the decimal writing of `n` to `out`.
pub fn push_decimal(out: &mut Vec<u8>, n: u64)
    ensures
        final(out)@ == old(out)@ + decimal_digits(n as nat),
    decreases n,
{
    if n >= 10 {
        push_decimal(out, n / 10);
    }
    out.push(48 + (n % 10) as u8);
    assert(final(out)@ =~= old(out)@ + decimal_digits(n as nat));
}

/// Appends the decimal writing of a signed number to `out`.
pub fn push_signed(out: &mut Vec<u8>, i: i64)
    ensures
        final(out)@ == old(out)@ + signed_digits(i as int),
{
    if i < 0 {
        out.push(45);
        let m: u64 = (-(i as i128)) as u64;
        push_decimal(out, m);
        assert(final(out)@ =~= old(out)@ + signed_digits(i as int));
    } else {
        push_decimal(out, i as u64);
    }
}

} // verus!

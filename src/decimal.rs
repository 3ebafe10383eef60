//! Decimal spelling of integers, as bytes.

use vstd::prelude::*;

verus! {

pub open spec fn is_digit(c: u8) -> bool {
    48 <= c <= 57
}

pub open spec fn all_digits(s: Seq<u8>) -> bool {
    forall|i: int| 0 <= i < s.len() ==> is_digit(#[trigger] s[i])
}

/// The number written by a string of decimal digits, most significant first.
pub open spec fn digits_value(s: Seq<u8>) -> nat
    decreases s.len(),
{
    if s.len() == 0 {
        0
    } else {
        digits_value(s.drop_last()) * 10 + (s.last() - 48) as nat
    }
}

/// The shortest decimal spelling of `v`.
pub open spec fn decimal(v: nat) -> Seq<u8>
    decreases v,
{
    if v < 10 {
        seq![(v + 48) as u8]
    } else {
        decimal(v / 10).push((v % 10 + 48) as u8)
    }
}

/// `v` in decimal, with a leading `-` when it is negative.
pub open spec fn signed_decimal(v: int) -> Seq<u8> {
    if v < 0 {
        seq![45u8] + decimal((-v) as nat)
    } else {
        decimal(v as nat)
    }
}

/// The natural number that `s` spells, if it is a non-empty run of digits.
pub open spec fn natural_value(s: Seq<u8>) -> Option<nat> {
    if s.len() > 0 && all_digits(s) {
        Some(digits_value(s))
    } else {
        None
    }
}

/// The integer that `s` spells: digits, with an optional leading `-`.
pub open spec fn integer_value(s: Seq<u8>) -> Option<int> {
    if s.len() > 0 && s[0] == 45u8 {
        match natural_value(s.drop_first()) {
            Some(v) => Some(-(v as int)),
            None => None,
        }
    } else {
        match natural_value(s) {
            Some(v) => Some(v as int),
            None => None,
        }
    }
}

proof fn lemma_prefix_value_le(s: Seq<u8>, i: int)
    requires
        0 <= i <= s.len(),
    ensures
        digits_value(s.subrange(0, i)) <= digits_value(s),
    decreases s.len(),
{
    if i < s.len() {
        assert(s.drop_last().subrange(0, i) =~= s.subrange(0, i));
        lemma_prefix_value_le(s.drop_last(), i);
    } else {
        assert(s.subrange(0, i) =~= s);
    }
}

/// Spelling a number and reading it back gives the number.
pub proof fn lemma_decimal_round_trip(v: nat)
    ensures
        decimal(v).len() > 0,
        all_digits(decimal(v)),
        digits_value(decimal(v)) == v,
        natural_value(decimal(v)) == Some(v),
    decreases v,
{
    if v >= 10 {
        lemma_decimal_round_trip(v / 10);
        let d = decimal(v);
        assert(d.drop_last() =~= decimal(v / 10));
        assert(d.last() == (v % 10 + 48) as u8);
        assert(v == (v / 10) * 10 + v % 10);
        assert(digits_value(d) == digits_value(decimal(v / 10)) * 10 + (d.last() - 48) as nat);
        assert(all_digits(d)) by {
            assert forall|i: int| 0 <= i < d.len() implies is_digit(#[trigger] d[i]) by {
                if i < d.len() - 1 {
                    assert(d[i] == decimal(v / 10)[i]);
                }
            }
        }
    } else {
        let d = decimal(v);
        assert(d.drop_last() =~= Seq::<u8>::empty());
        assert(digits_value(d) == digits_value(d.drop_last()) * 10 + (d.last() - 48) as nat);
    }
}

/// Spelling an integer and reading it back gives the integer.
pub proof fn lemma_signed_decimal_round_trip(v: int)
    ensures
        integer_value(signed_decimal(v)) == Some(v),
{
    if v < 0 {
        lemma_decimal_round_trip((-v) as nat);
        let s = signed_decimal(v);
        assert(s.drop_first() =~= decimal((-v) as nat));
    } else {
        lemma_decimal_round_trip(v as nat);
        assert(is_digit(decimal(v as nat)[0]));
    }
}

/// Reads the digits of `s[start..]` as a number no larger than `bound`.
fn parse_digits(s: &[u8], start: usize, bound: u64) -> (r: Option<u64>)
    requires
        start <= s@.len(),
    ensures
        ({
            let t = s@.subrange(start as int, s@.len() as int);
            match natural_value(t) {
                Some(v) => if v <= bound {
                    r == Some(v as u64)
                } else {
                    r is None
                },
                None => r is None,
            }
        }),
{
    let ghost t = s@.subrange(start as int, s@.len() as int);
    if start == s.len() {
        return None;
    }
    let mut acc: u64 = 0;
    let mut i: usize = start;
    while i < s.len()
        invariant
            start <= i <= s@.len(),
            t == s@.subrange(start as int, s@.len() as int),
            all_digits(t.subrange(0, i - start)),
            acc as nat == digits_value(t.subrange(0, i - start)),
            acc <= bound,
        decreases s@.len() - i,
    {
        let c = s[i];
        let ghost p = t.subrange(0, i - start + 1);
        assert(p.drop_last() =~= t.subrange(0, i - start));
        if c < 48 || c > 57 {
            assert(!is_digit(t[i - start]));
            return None;
        }
        let d = (c - 48) as u64;
        if d > bound {
            proof {
                if all_digits(t) {
                    lemma_prefix_value_le(t, i - start + 1);
                }
            }
            return None;
        }
        if acc > (bound - d) / 10 {
            proof {
                assert(digits_value(p) > bound) by (nonlinear_arith)
                    requires
                        acc > (bound - d) / 10,
                        digits_value(p) == acc * 10 + d,
                        d <= bound,
                ;
                if all_digits(t) {
                    lemma_prefix_value_le(t, i - start + 1);
                }
            }
            return None;
        }
        assert(acc * 10 + d <= bound) by (nonlinear_arith)
            requires
                acc <= (bound - d) / 10,
                d <= bound,
        ;
        acc = acc * 10 + d;
        i = i + 1;
    }
    assert(t.subrange(0, i - start) =~= t);
    Some(acc)
}

/// Reads a natural number that fits a `usize`.
pub fn parse_natural(s: &[u8]) -> (r: Option<usize>)
    ensures
        match natural_value(s@) {
            Some(v) => if v <= usize::MAX {
                r == Some(v as usize)
            } else {
                r is None
            },
            None => r is None,
        },
{
    assert(s@.subrange(0, s@.len() as int) =~= s@);
    match parse_digits(s, 0, usize::MAX as u64) {
        Some(v) => Some(v as usize),
        None => None,
    }
}

/// Reads an integer that fits an `i64`.
pub fn parse_integer(s: &[u8]) -> (r: Option<i64>)
    ensures
        match integer_value(s@) {
            Some(v) => if i64::MIN <= v <= i64::MAX {
                r == Some(v as i64)
            } else {
                r is None
            },
            None => r is None,
        },
{
    if s.len() > 0 && s[0] == 45u8 {
        assert(s@.subrange(1, s@.len() as int) =~= s@.drop_first());
        match parse_digits(s, 1, 0x8000_0000_0000_0000u64) {
            Some(v) => {
                if v == 0x8000_0000_0000_0000u64 {
                    Some(i64::MIN)
                } else {
                    Some(-(v as i64))
                }
            },
            None => None,
        }
    } else {
        assert(s@.subrange(0, s@.len() as int) =~= s@);
        match parse_digits(s, 0, i64::MAX as u64) {
            Some(v) => Some(v as i64),
            None => None,
        }
    }
}

/// Writes `v` in decimal.
pub fn render_natural(v: u64) -> (r: Vec<u8>)
    ensures
        r@ == decimal(v as nat),
    decreases v,
{
    if v < 10 {
        vec![(v as u8) + 48]
    } else {
        let mut r = render_natural(v / 10);
        r.push(((v % 10) as u8) + 48);
        r
    }
}

/// Writes `v` in decimal, with a leading `-` when it is negative.
pub fn render_integer(v: i64) -> (r: Vec<u8>)
    ensures
        r@ == signed_decimal(v as int),
{
    if v < 0 {
        let m: u64 = (-(v + 1)) as u64 + 1;
        let digits = render_natural(m);
        let mut r: Vec<u8> = vec![45u8];
        let mut k: usize = 0;
        while k < digits.len()
            invariant
                0 <= k <= digits@.len(),
                r@ == seq![45u8] + digits@.subrange(0, k as int),
            decreases digits@.len() - k,
        {
            assert(digits@.subrange(0, k + 1) =~= digits@.subrange(0, k as int).push(digits@[k as int]));
            r.push(digits[k]);
            k = k + 1;
        }
        assert(digits@.subrange(0, k as int) =~= digits@);
        r
    } else {
        render_natural(v as u64)
    }
}

} // verus!

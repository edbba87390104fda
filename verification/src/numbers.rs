//! Decimal integers as Rust's `FromStr` reads them: an optional sign, then
//! one or more ASCII digits, refused when the value does not fit the type;
//! and as `Display` writes them.
use vstd::prelude::*;
use crate::text_ops::push_char;

verus! {

pub open spec fn is_digit(c: char) -> bool {
    '0' <= c <= '9'
}

pub open spec fn all_digits(s: Seq<char>) -> bool {
    forall|i: int| 0 <= i < s.len() ==> is_digit(#[trigger] s[i])
}

/// The character of the decimal digit `d`.
pub open spec fn digit_char(d: nat) -> char {
    (48 + d) as char
}

/// The decimal digits of `n`, most significant first, with no leading zero.
pub open spec fn decimal_of(n: nat) -> Seq<char>
    decreases n,
{
    if n < 10 {
        seq![digit_char(n)]
    } else {
        decimal_of(n / 10).push(digit_char(n % 10))
    }
}

/// Reading back what [`decimal`] writes gives the number written: the
/// digits are all decimal digits, and their value is `n`.
pub proof fn lemma_decimal_round_trip(n: nat)
    ensures
        all_digits(decimal_of(n)),
        dec_value(decimal_of(n)) == n,
    decreases n,
{
    if n < 10 {
        assert(decimal_of(n).drop_last() =~= Seq::<char>::empty());
        assert(digit_char(n) as int == 48 + n);
        assert('0' as int == 48);
        assert(dec_value(Seq::<char>::empty()) == 0);
        assert(dec_value(decimal_of(n)) == dec_value(decimal_of(n).drop_last()) * 10 + (decimal_of(n).last() as int
            - '0' as int));
    } else {
        lemma_decimal_round_trip(n / 10);
        let s = decimal_of(n);
        assert(s.drop_last() =~= decimal_of(n / 10));
        assert(digit_char(n % 10) as int == 48 + n % 10);
        assert(s.last() == digit_char(n % 10));
        assert((n / 10) * 10 + n % 10 == n);
        assert('0' as int == 48);
        assert(dec_value(s) == dec_value(s.drop_last()) * 10 + (s.last() as int - '0' as int));
        assert(forall|i: int| 0 <= i < s.len() - 1 ==> s[i] == decimal_of(n / 10)[i]);
    }
}

/// The character of the decimal digit `d`.
fn digit(d: u64) -> (r: char)
    requires
        d < 10,
    ensures
        r == digit_char(d as nat),
{
    let b: u8 = 48u8 + d as u8;
    b as char
}

/// `n` written in decimal.
pub fn decimal(n: u64) -> (r: String)
    ensures
        r@ == decimal_of(n as nat),
    decreases n,
{
    if n < 10 {
        let mut s = String::new();
        push_char(&mut s, digit(n));
        s
    } else {
        let mut s = decimal(n / 10);
        push_char(&mut s, digit(n % 10));
        s
    }
}

/// The decimal value of a string of digits.
pub open spec fn dec_value(p: Seq<char>) -> int
    decreases p.len(),
{
    if p.len() == 0 {
        0
    } else {
        dec_value(p.drop_last()) * 10 + (p.last() as int - '0' as int)
    }
}

/// What an unsigned integer type whose largest value is `max` parses `s` as:
/// an optional `+`, then at least one digit.
pub open spec fn parse_unsigned(s: Seq<char>, max: int) -> Option<int> {
    let body = if s.len() > 0 && s[0] == '+' {
        s.drop_first()
    } else {
        s
    };
    if body.len() == 0 || !all_digits(body) || dec_value(body) > max {
        None
    } else {
        Some(dec_value(body))
    }
}

/// What a signed integer type with range `[min, max]` parses `s` as.
pub open spec fn parse_signed(s: Seq<char>, min: int, max: int) -> Option<int> {
    if s.len() > 0 && s[0] == '-' {
        let body = s.drop_first();
        if body.len() == 0 || !all_digits(body) || -dec_value(body) < min {
            None
        } else {
            Some(-dec_value(body))
        }
    } else {
        parse_unsigned(s, max)
    }
}

pub proof fn lemma_dec_value_nonneg(p: Seq<char>)
    requires
        all_digits(p),
    ensures
        dec_value(p) >= 0,
    decreases p.len(),
{
    if p.len() > 0 {
        assert(all_digits(p.drop_last())) by {
            assert forall|i: int| 0 <= i < p.drop_last().len() implies is_digit(#[trigger] p.drop_last()[i]) by {
                assert(p.drop_last()[i] == p[i]);
            }
        }
        lemma_dec_value_nonneg(p.drop_last());
        assert(is_digit(p[p.len() - 1]));
    }
}

/// A longer run of digits is worth at least as much as its prefix.
pub proof fn lemma_dec_value_prefix(p: Seq<char>, i: int)
    requires
        all_digits(p),
        0 <= i <= p.len(),
    ensures
        dec_value(p.take(i)) <= dec_value(p),
    decreases p.len() - i,
{
    if i < p.len() {
        let q = p.take(i + 1);
        assert(all_digits(q)) by {
            assert forall|k: int| 0 <= k < q.len() implies is_digit(#[trigger] q[k]) by {
                assert(q[k] == p[k]);
            }
        }
        lemma_dec_value_prefix(p, i + 1);
        assert(q.drop_last() =~= p.take(i));
        lemma_dec_value_nonneg(p.take(i));
        assert(is_digit(q[i]));
        assert(dec_value(q) == dec_value(p.take(i)) * 10 + (q.last() as int - '0' as int));
    } else {
        assert(p.take(i) =~= p);
    }
}

/// The digits of `v[lo..hi]` as a number no larger than `max`, or `None`
/// when they are not all digits, there are none, or the value exceeds `max`.
pub fn digits_value_window(v: &Vec<char>, lo: usize, hi: usize, max: u64) -> (r: Option<u64>)
    requires
        lo <= hi <= v.len(),
    ensures
        ({
            let p = v@.subrange(lo as int, hi as int);
            match r {
                Some(n) => p.len() > 0 && all_digits(p) && dec_value(p) <= max && n == dec_value(p),
                None => p.len() == 0 || !all_digits(p) || dec_value(p) > max,
            }
        }),
{
    let ghost p = v@.subrange(lo as int, hi as int);
    if lo == hi {
        return None;
    }
    let mut value: u64 = 0;
    let mut i = lo;
    while i < hi
        invariant
            lo <= i <= hi <= v.len(),
            p == v@.subrange(lo as int, hi as int),
            all_digits(p.take(i - lo)),
            value == dec_value(p.take(i - lo)),
            value <= max,
        decreases hi - i,
    {
        let c = v[i];
        if !('0' <= c && c <= '9') {
            assert(p[i - lo] == c);
            return None;
        }
        let ghost q = p.take(i - lo + 1);
        assert(q.drop_last() =~= p.take(i - lo));
        assert(all_digits(q)) by {
            assert forall|k: int| 0 <= k < q.len() implies is_digit(#[trigger] q[k]) by {
                if k < i - lo {
                    assert(q[k] == p.take(i - lo)[k]);
                }
            }
        }
        let d = (c as u32 - '0' as u32) as u64;
        if d > max || value > (max - d) / 10 {
            proof {
                assert(dec_value(q) == value * 10 + d);
                if d <= max {
                    assert(value * 10 + d > max) by (nonlinear_arith)
                        requires
                            value > (max - d) / 10,
                            d <= max,
                    ;
                }
                if all_digits(p) {
                    lemma_dec_value_prefix(p, i - lo + 1);
                }
            }
            return None;
        }
        assert(value * 10 + d <= max) by (nonlinear_arith)
            requires
                value <= (max - d) / 10,
                d <= max,
        ;
        value = value * 10 + d;
        i += 1;
    }
    assert(p.take(hi - lo) =~= p);
    Some(value)
}

/// `v[lo..hi]` parsed as an unsigned integer no larger than `max`.
pub fn parse_unsigned_window(v: &Vec<char>, lo: usize, hi: usize, max: u64) -> (r: Option<u64>)
    requires
        lo <= hi <= v.len(),
    ensures
        match r {
            Some(n) => parse_unsigned(v@.subrange(lo as int, hi as int), max as int) == Some(n as int),
            None => parse_unsigned(v@.subrange(lo as int, hi as int), max as int) is None,
        },
{
    let ghost s = v@.subrange(lo as int, hi as int);
    if lo < hi && v[lo] == '+' {
        assert(s.drop_first() =~= v@.subrange(lo + 1, hi as int));
        digits_value_window(v, lo + 1, hi, max)
    } else {
        digits_value_window(v, lo, hi, max)
    }
}

/// `v[lo..hi]` parsed as an `i64`.
pub fn parse_i64_window(v: &Vec<char>, lo: usize, hi: usize) -> (r: Option<i64>)
    requires
        lo <= hi <= v.len(),
    ensures
        match r {
            Some(n) => parse_signed(v@.subrange(lo as int, hi as int), i64::MIN as int, i64::MAX as int) == Some(n as int),
            None => parse_signed(v@.subrange(lo as int, hi as int), i64::MIN as int, i64::MAX as int) is None,
        },
{
    let ghost s = v@.subrange(lo as int, hi as int);
    if lo < hi && v[lo] == '-' {
        assert(s.drop_first() =~= v@.subrange(lo + 1, hi as int));
        match digits_value_window(v, lo + 1, hi, 0x8000_0000_0000_0000u64) {
            Some(n) => {
                if n == 0x8000_0000_0000_0000u64 {
                    Some(i64::MIN)
                } else {
                    Some(-(n as i64))
                }
            },
            None => None,
        }
    } else {
        match parse_unsigned_window(v, lo, hi, i64::MAX as u64) {
            Some(n) => Some(n as i64),
            None => None,
        }
    }
}

} // verus!

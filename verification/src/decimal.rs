//! Fixed-precision decimal values, held as scaled integers (tenths), and the
//! rounding policy applied by the finalizer: round half away from zero.

use vstd::arithmetic::div_mod::{lemma_fundamental_div_mod, lemma_fundamental_div_mod_converse};
use vstd::prelude::*;

verus! {

/// The exact quotient `num / den`, rounded to the nearest integer; a value
/// exactly at the midpoint between two integers rounds away from zero.
pub open spec fn round_half_from_zero(num: int, den: int) -> int
    recommends
        den > 0,
{
    if num >= 0 {
        (2 * num + den) / (2 * den)
    } else {
        -((2 * (-num) + den) / (2 * den))
    }
}

/// For a nonnegative dividend, relates quotient-with-remainder rounding to
/// the closed form used by `round_half_from_zero`.
proof fn lemma_round_mag(mag: int, d: int, q: int, rem: int, rq: int)
    requires
        d > 0,
        mag >= 0,
        q == mag / d,
        rem == mag % d,
        rq == if 2 * rem >= d {
            q + 1
        } else {
            q
        },
    ensures
        rq == (2 * mag + d) / (2 * d),
        0 <= rq <= mag,
{
    lemma_fundamental_div_mod(mag, d);
    assert(mag == d * q + rem);
    assert(0 <= rem < d);
    assert(q >= 0) by (nonlinear_arith)
        requires
            mag >= 0,
            d > 0,
            mag == d * q + rem,
            rem < d,
    ;
    if 2 * rem >= d {
        assert(2 * mag + d == (q + 1) * (2 * d) + (2 * rem - d)) by (nonlinear_arith)
            requires
                mag == d * q + rem,
        ;
        assert(0 <= 2 * rem - d < 2 * d);
        lemma_fundamental_div_mod_converse(2 * mag + d, 2 * d, q + 1, 2 * rem - d);
        // rq == q + 1 <= mag: the remainder is at least one when d >= 2,
        // and the branch is never taken when d == 1.
        if d == 1 {
            assert(rem == 0);
            assert(false);
        }
        assert(q + 1 <= mag) by (nonlinear_arith)
            requires
                mag == d * q + rem,
                d >= 2,
                2 * rem >= d,
                q >= 0,
        ;
    } else {
        assert(2 * mag + d == q * (2 * d) + (2 * rem + d)) by (nonlinear_arith)
            requires
                mag == d * q + rem,
        ;
        assert(0 <= 2 * rem + d < 2 * d);
        lemma_fundamental_div_mod_converse(2 * mag + d, 2 * d, q, 2 * rem + d);
        assert(q <= mag) by (nonlinear_arith)
            requires
                mag == d * q + rem,
                d > 0,
                rem >= 0,
                q >= 0,
        ;
    }
}

/// Rounding never leaves an interval with integer endpoints: if
/// `lo*den <= num <= hi*den`, the rounded quotient stays within `[lo, hi]`.
/// This is why independently rounded per-key minimum, mean and maximum never
/// invert.
pub proof fn lemma_round_half_bounds(num: int, den: int, lo: int, hi: int)
    requires
        den > 0,
        lo * den <= num,
        num <= hi * den,
    ensures
        lo <= round_half_from_zero(num, den),
        round_half_from_zero(num, den) <= hi,
{
    let q = num / den;
    let rem = num % den;
    lemma_fundamental_div_mod(num, den);
    assert(num == den * q + rem);
    assert(0 <= rem < den);
    assert(lo <= q && q <= hi) by (nonlinear_arith)
        requires
            den > 0,
            lo * den <= num,
            num <= hi * den,
            num == den * q + rem,
            0 <= rem < den,
    ;
    if num >= 0 {
        let rq = if 2 * rem >= den {
            q + 1
        } else {
            q
        };
        lemma_round_mag(num, den, q, rem, rq);
        assert(round_half_from_zero(num, den) == rq);
        assert(lo <= rq);
        if rq == q + 1 {
            // A round up can only reach hi: rem > 0 rules out num == hi*den
            // being exceeded.
            assert(q + 1 <= hi) by (nonlinear_arith)
                requires
                    den > 0,
                    num <= hi * den,
                    num == den * q + rem,
                    2 * rem >= den,
                    0 <= rem < den,
                    q < hi || q == hi,
                    q <= hi,
            ;
        }
    } else {
        let mag = -num;
        let mq = mag / den;
        let mrem = mag % den;
        lemma_fundamental_div_mod(mag, den);
        assert(mag == den * mq + mrem);
        assert(0 <= mrem < den);
        let mrq = if 2 * mrem >= den {
            mq + 1
        } else {
            mq
        };
        lemma_round_mag(mag, den, mq, mrem, mrq);
        assert(round_half_from_zero(num, den) == -mrq);
        // -mrq >= lo  <==>  mrq <= -lo
        assert(-lo * den >= mag) by (nonlinear_arith)
            requires
                lo * den <= num,
                mag == -num,
        ;
        if 2 * mrem >= den {
            assert(mq + 1 <= -lo) by (nonlinear_arith)
                requires
                    den > 0,
                    mag <= (-lo) * den,
                    mag == den * mq + mrem,
                    2 * mrem >= den,
                    0 <= mrem < den,
            ;
        } else {
            assert(mq <= -lo) by (nonlinear_arith)
                requires
                    den > 0,
                    mag <= (-lo) * den,
                    mag == den * mq + mrem,
                    0 <= mrem < den,
            ;
        }
        // -mrq <= hi
        if hi >= 0 {
            assert(-mrq <= 0 <= hi);
        } else {
            assert(mag >= (-hi) * den) by (nonlinear_arith)
                requires
                    num <= hi * den,
                    mag == -num,
            ;
            assert(mq >= -hi) by (nonlinear_arith)
                requires
                    den > 0,
                    mag >= (-hi) * den,
                    mag == den * mq + mrem,
                    0 <= mrem < den,
            ;
            assert(-mrq <= hi);
        }
    }
}

/// An ASCII decimal digit.
pub open spec fn is_ascii_digit(b: u8) -> bool {
    0x30 <= b <= 0x39
}

pub open spec fn all_digits(s: Seq<u8>) -> bool {
    forall|i: int| 0 <= i < s.len() ==> is_ascii_digit(#[trigger] s[i])
}

/// Numeric value of a sequence of ASCII digits, most significant first.
pub open spec fn digits_value(s: Seq<u8>) -> int
    decreases s.len(),
{
    if s.len() == 0 {
        0
    } else {
        digits_value(s.drop_last()) * 10 + (s.last() - 0x30)
    }
}

proof fn lemma_digits_value_nonneg(s: Seq<u8>)
    requires
        all_digits(s),
    ensures
        digits_value(s) >= 0,
    decreases s.len(),
{
    if s.len() > 0 {
        assert(all_digits(s.drop_last()));
        lemma_digits_value_nonneg(s.drop_last());
    }
}

/// The value text grammar without the sign: digits, a point, and exactly one
/// fractional digit.
pub open spec fn is_unsigned_value_text(s: Seq<u8>) -> bool {
    &&& s.len() >= 3
    &&& all_digits(s.subrange(0, s.len() - 2))
    &&& s[s.len() - 2] == 0x2e
    &&& is_ascii_digit(s[s.len() - 1])
}

/// Value of an unsigned value text, in tenths.
pub open spec fn unsigned_value_tenths(s: Seq<u8>) -> int {
    digits_value(s.subrange(0, s.len() - 2)) * 10 + (s[s.len() - 1] - 0x30)
}

/// The full value text grammar: an optional leading minus sign, one or more
/// integer digits, a point, and exactly one fractional digit.
pub open spec fn is_value_text(s: Seq<u8>) -> bool {
    if s.len() > 0 && s[0] == 0x2d {
        is_unsigned_value_text(s.subrange(1, s.len() as int))
    } else {
        is_unsigned_value_text(s)
    }
}

/// Value of a value text, in tenths.
pub open spec fn value_tenths(s: Seq<u8>) -> int {
    if s.len() > 0 && s[0] == 0x2d {
        -unsigned_value_tenths(s.subrange(1, s.len() as int))
    } else {
        unsigned_value_tenths(s)
    }
}

/// The parsed value of a value text, in tenths: present exactly when the text
/// is well formed and the scaled value fits the machine representation.
pub open spec fn spec_parse_tenths(s: Seq<u8>) -> Option<int> {
    if is_value_text(s) && i64::MIN <= value_tenths(s) <= i64::MAX {
        Some(value_tenths(s))
    } else {
        None
    }
}

/// Parse a value text into tenths.  Returns `None` when the text does not
/// match the grammar or the scaled value does not fit an `i64`.
pub fn parse_tenths(s: &[u8]) -> (r: Option<i64>)
    ensures
        (match r {
            Some(v) => spec_parse_tenths(s@) == Some(v as int),
            None => spec_parse_tenths(s@) is None,
        }),
{
    let n: usize = s.len();
    let neg: bool = n > 0 && s[0] == 0x2d;
    let start: usize = if neg {
        1
    } else {
        0
    };
    let ghost body = if neg {
        s@.subrange(1, n as int)
    } else {
        s@
    };
    if n < start + 3 {
        return None;
    }
    assert(body.len() >= 3);
    assert(forall|k: int| 0 <= k < body.len() ==> body[k] == s@[k + start]);
    if s[n - 2] != 0x2e {
        assert(body[body.len() - 2] == s@[n - 2]);
        return None;
    }
    let frac: u8 = s[n - 1];
    if frac < 0x30 || frac > 0x39 {
        assert(body[body.len() - 1] == s@[n - 1]);
        return None;
    }
    let ghost digits = body.subrange(0, body.len() - 2);
    assert(forall|k: int| 0 <= k < digits.len() ==> digits[k] == s@[k + start]);
    let bound: u64 = (u64::MAX - 9) / 10;
    let mut mag: u64 = 0;
    let mut over: bool = false;
    let mut i: usize = start;
    while i < n - 2
        invariant
            start <= i <= n - 2,
            n == s@.len(),
            n >= start + 3,
            start == if neg {
                1int
            } else {
                0int
            },
            neg == (n > 0 && s@[0] == 0x2d),
            digits == (if neg {
                s@.subrange(1, n as int)
            } else {
                s@
            }).subrange(0, n - 2 - start),
            digits.len() == n - 2 - start,
            forall|k: int| 0 <= k < digits.len() ==> digits[k] == s@[k + start],
            bound == (u64::MAX - 9) / 10,
            all_digits(digits.subrange(0, i - start)),
            !over ==> mag == digits_value(digits.subrange(0, i - start)),
            over ==> digits_value(digits.subrange(0, i - start)) > bound,
        decreases n - 2 - i,
    {
        let b: u8 = s[i];
        if b < 0x30 || b > 0x39 {
            assert(digits[i - start] == s@[i as int]);
            assert(!all_digits(digits));
            proof {
                let bd = if neg {
                    s@.subrange(1, n as int)
                } else {
                    s@
                };
                assert(bd.subrange(0, bd.len() - 2) =~= digits);
                assert(!is_value_text(s@));
            }
            return None;
        }
        let ghost prefix = digits.subrange(0, i - start);
        let ghost prefix1 = digits.subrange(0, i + 1 - start);
        assert(prefix1.drop_last() =~= prefix);
        assert(prefix1.last() == s@[i as int]);
        proof {
            lemma_digits_value_nonneg(prefix);
        }
        if over || mag > bound {
            proof {
                // Once past the bound, appending a digit keeps the value past
                // the bound: the value only grows.
                assert(digits_value(prefix1) == digits_value(prefix) * 10 + (b - 0x30));
                assert(digits_value(prefix) * 10 >= digits_value(prefix)) by (nonlinear_arith)
                    requires
                        digits_value(prefix) >= 0,
                ;
            }
            over = true;
        } else {
            assert(mag <= bound);
            mag = mag * 10 + ((b - 0x30) as u64);
            assert(mag == digits_value(prefix1));
        }
        i = i + 1;
    }
    assert(digits.subrange(0, i - start) =~= digits);
    assert(all_digits(digits));
    // The grammar holds from here on.
    proof {
        assert(body.subrange(0, body.len() - 2) =~= digits);
        assert(body[body.len() - 2] == s@[n - 2]);
        assert(body[body.len() - 1] == s@[n - 1]);
        assert(is_unsigned_value_text(body));
        assert(is_value_text(s@));
        lemma_digits_value_nonneg(digits);
    }
    let ghost uv = unsigned_value_tenths(body);
    assert(uv == digits_value(digits) * 10 + (frac - 0x30));
    if over {
        // The integer digits alone exceed every representable magnitude.
        proof {
            assert(digits_value(digits) > bound);
            assert(digits_value(digits) * 10 >= (bound + 1) * 10) by (nonlinear_arith)
                requires
                    digits_value(digits) >= bound + 1,
            ;
            assert(uv > i64::MAX);
            if neg {
                assert(value_tenths(s@) == -uv);
                assert(value_tenths(s@) < i64::MIN);
            } else {
                assert(value_tenths(s@) == uv);
            }
        }
        return None;
    }
    assert(mag == digits_value(digits));
    let tenths: u128 = (mag as u128) * 10 + ((frac - 0x30) as u128);
    assert(tenths == uv);
    if neg {
        assert(value_tenths(s@) == -uv);
        if tenths <= (i64::MAX as u128) {
            Some(-(tenths as i64))
        } else if tenths == (i64::MAX as u128) + 1 {
            Some(i64::MIN)
        } else {
            None
        }
    } else {
        assert(value_tenths(s@) == uv);
        if tenths <= (i64::MAX as u128) {
            Some(tenths as i64)
        } else {
            None
        }
    }
}

/// Divide `num` by `den` exactly and round the quotient to the nearest
/// integer, with midpoints rounded away from zero.
pub fn round_half_div(num: i128, den: u64) -> (r: i128)
    requires
        den > 0,
    ensures
        r == round_half_from_zero(num as int, den as int),
{
    let neg: bool = num < 0;
    let mag: u128 = if num < 0 {
        ((-(num + 1)) as u128) + 1
    } else {
        num as u128
    };
    assert(mag == if num < 0 {
        -(num as int)
    } else {
        num as int
    });
    let d: u128 = den as u128;
    let q: u128 = mag / d;
    let rem: u128 = mag % d;
    let round_up: bool = 2 * rem >= d;
    let rq: u128 = if round_up {
        q + 1
    } else {
        q
    };
    proof {
        lemma_round_mag(mag as int, d as int, q as int, rem as int, rq as int);
    }
    if neg {
        if rq == 0 {
            0
        } else {
            -((rq - 1) as i128) - 1
        }
    } else {
        rq as i128
    }
}

} // verus!

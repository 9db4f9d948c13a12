use vstd::prelude::*;

use crate::parse::{FromStrBack, FromStrFront};

verus! {

/// An error for [`FromStrFront`] and [`FromStrBack`] on integers.
#[derive(Debug, PartialEq, Eq, Structural)]
pub enum ParseIntPartialError {
    /// The parsed integer representation would not fit into the type.
    Overflow,
    /// The parsed integer representation would fall below the type's
    /// minimum. Never occurs for unsigned types.
    Underflow,
    /// The input was empty, or had only a prefix or sign followed by invalid
    /// input.
    Insufficient,
}

/// The value of `c` as a digit in the given radix: decimal digits first,
/// then letters of either case, and `-1` where `c` is no digit of the radix.
pub open spec fn digit_val(c: char, radix: int) -> int {
    let v = if '0' as int <= c as int && c as int <= '9' as int {
        c as int - '0' as int
    } else if 'a' as int <= c as int && c as int <= 'z' as int {
        c as int - 'a' as int + 10
    } else if 'A' as int <= c as int && c as int <= 'Z' as int {
        c as int - 'A' as int + 10
    } else {
        -1
    };
    if 0 <= v && v < radix {
        v
    } else {
        -1
    }
}

/// How many chars at the front of `s` are digits of the radix.
pub open spec fn digits_len(s: Seq<char>, radix: int) -> nat
    decreases s.len(),
{
    if s.len() == 0 || digit_val(s[0], radix) < 0 {
        0
    } else {
        1 + digits_len(s.skip(1), radix)
    }
}

/// The value of the first `k` chars of `s` read as digits of the radix.
pub open spec fn num_val(s: Seq<char>, radix: int, k: int) -> int
    decreases k,
{
    if k <= 0 {
        0
    } else {
        num_val(s, radix, k - 1) * radix + digit_val(s[k - 1], radix)
    }
}

/// How many chars at the back of `s` are digits of the radix.
pub open spec fn trailing_digits_len(s: Seq<char>, radix: int) -> nat
    decreases s.len(),
{
    if s.len() == 0 || digit_val(s[s.len() - 1], radix) < 0 {
        0
    } else {
        1 + trailing_digits_len(s.drop_last(), radix)
    }
}

/// `b` to the power `e`.
pub open spec fn pow_int(b: int, e: int) -> int
    decreases e,
{
    if e <= 0 {
        1
    } else {
        b * pow_int(b, e - 1)
    }
}

/// The value of the last `k` chars of `s` read as digits of the radix.
pub open spec fn suffix_val(s: Seq<char>, radix: int, k: int) -> int
    decreases k,
{
    if k <= 0 {
        0
    } else {
        suffix_val(s, radix, k - 1) + digit_val(s[s.len() - k], radix) * pow_int(radix, k - 1)
    }
}

/// What parsing an integer from the front of `s` yields: the value of the
/// longest digit prefix after an optional sign, and how many chars the parse
/// consumed. `pos_lim` bounds positive values, `neg_lim` bounds the magnitude
/// of negative ones; a sign without digits, or no digits at all, is
/// insufficient input.
pub open spec fn parse_front_spec(
    s: Seq<char>,
    radix: int,
    signed: bool,
    pos_lim: int,
    neg_lim: int,
) -> Result<(int, int), ParseIntPartialError> {
    if s.len() > 0 && s[0] == '-' {
        if !signed {
            Err(ParseIntPartialError::Insufficient)
        } else {
            let d = digits_len(s.skip(1), radix) as int;
            if d == 0 {
                Err(ParseIntPartialError::Insufficient)
            } else if num_val(s.skip(1), radix, d) > neg_lim {
                Err(ParseIntPartialError::Underflow)
            } else {
                Ok((-num_val(s.skip(1), radix, d), d + 1))
            }
        }
    } else {
        let off: int = if s.len() > 0 && s[0] == '+' {
            1
        } else {
            0
        };
        let d = digits_len(s.skip(off), radix) as int;
        if d == 0 {
            Err(ParseIntPartialError::Insufficient)
        } else if num_val(s.skip(off), radix, d) > pos_lim {
            Err(ParseIntPartialError::Overflow)
        } else {
            Ok((num_val(s.skip(off), radix, d), d + off))
        }
    }
}

/// The state of the backwards accumulation after the last `k` digits: the
/// value gathered so far and the next power of the radix, which becomes
/// `None` once it no longer fits the type. The whole state becomes `None` at
/// the step where a needed power, a digit times it, or the gathered value no
/// longer fits its bound.
pub open spec fn back_scan(
    s: Seq<char>,
    radix: int,
    acc_lim: int,
    pos_lim: int,
    k: int,
) -> Option<(int, Option<int>)>
    decreases k,
{
    if k <= 0 {
        Some((0, Some(1)))
    } else {
        match back_scan(s, radix, acc_lim, pos_lim, k - 1) {
            None => None,
            Some((buf, fac)) => match fac {
                None => None,
                Some(f) => {
                    let m1 = f * digit_val(s[s.len() - k], radix);
                    if m1 > pos_lim {
                        None
                    } else if buf + m1 > acc_lim {
                        None
                    } else {
                        let nf = f * radix;
                        Some((buf + m1, if nf <= pos_lim { Some(nf) } else { None }))
                    }
                },
            },
        }
    }
}

/// What parsing an integer from the back of `s` yields: the value of the
/// longest digit suffix with an optional sign just before it, and how many
/// chars the parse consumed. A signed parse accumulates downwards, bounded by
/// the magnitude `neg_lim`, and rejects a positive result above `pos_lim`
/// only at the end.
pub open spec fn parse_back_spec(
    s: Seq<char>,
    radix: int,
    signed: bool,
    pos_lim: int,
    neg_lim: int,
) -> Result<(int, int), ParseIntPartialError> {
    let d = trailing_digits_len(s, radix) as int;
    let acc_lim = if signed {
        neg_lim
    } else {
        pos_lim
    };
    if d == 0 {
        Err(ParseIntPartialError::Insufficient)
    } else {
        match back_scan(s, radix, acc_lim, pos_lim, d) {
            None => Err(
                if signed {
                    ParseIntPartialError::Underflow
                } else {
                    ParseIntPartialError::Overflow
                },
            ),
            Some((v, _)) => {
                let has_minus = signed && d < s.len() && s[s.len() - d - 1] == '-';
                let has_plus = !has_minus && d < s.len() && s[s.len() - d - 1] == '+';
                let consumed = if has_minus || has_plus {
                    d + 1
                } else {
                    d
                };
                if has_minus {
                    Ok((-v, consumed))
                } else if signed && v > pos_lim {
                    Err(ParseIntPartialError::Overflow)
                } else {
                    Ok((v, consumed))
                }
            },
        }
    }
}

/// Once the backwards accumulation has failed, it stays failed.
proof fn lemma_back_scan_fail_stable(s: Seq<char>, radix: int, acc_lim: int, pos_lim: int, k: int, d: int)
    requires
        0 <= k <= d,
        back_scan(s, radix, acc_lim, pos_lim, k) is None,
    ensures
        back_scan(s, radix, acc_lim, pos_lim, d) is None,
    decreases d - k,
{
    if k < d {
        lemma_back_scan_fail_stable(s, radix, acc_lim, pos_lim, k + 1, d);
    }
}

/// The value of `c` as a digit in the given radix.
fn digit_of(c: char, radix: u32) -> (r: Option<u32>)
    requires
        2 <= radix <= 36,
    ensures
        match r {
            Some(v) => digit_val(c, radix as int) == v as int && v < radix,
            None => digit_val(c, radix as int) == -1,
        },
{
    let u = c as u32;
    let v: u32 = if u >= 48 && u <= 57 {
        u - 48
    } else if u >= 97 && u <= 122 {
        u - 97 + 10
    } else if u >= 65 && u <= 90 {
        u - 65 + 10
    } else {
        return None;
    };
    if v < radix {
        Some(v)
    } else {
        None
    }
}

/// Every char of the digit prefix is a digit.
proof fn lemma_digits_valid(s: Seq<char>, radix: int, j: int)
    requires
        0 <= j < digits_len(s, radix),
    ensures
        digit_val(s[j], radix) >= 0,
    decreases j,
{
    lemma_digits_len_le(s, radix);
    if j > 0 {
        lemma_digits_valid(s.skip(1), radix, j - 1);
        assert(s.skip(1)[j - 1] == s[j]);
    }
}

/// The digit prefix is no longer than the text.
proof fn lemma_digits_len_le(s: Seq<char>, radix: int)
    ensures
        digits_len(s, radix) <= s.len(),
    decreases s.len(),
{
    if s.len() > 0 && digit_val(s[0], radix) >= 0 {
        lemma_digits_len_le(s.skip(1), radix);
    }
}

/// The value of a valid digit prefix is nonnegative.
proof fn lemma_num_val_nonneg(s: Seq<char>, radix: int, k: int)
    requires
        radix >= 2,
        forall|j: int| 0 <= j < k ==> digit_val(s[j], radix) >= 0,
    ensures
        num_val(s, radix, k) >= 0,
    decreases k,
{
    if k > 0 {
        lemma_num_val_nonneg(s, radix, k - 1);
        assert(num_val(s, radix, k - 1) * radix >= 0) by (nonlinear_arith)
            requires
                num_val(s, radix, k - 1) >= 0,
                radix >= 2,
        ;
    }
}

/// Reading more valid digits never shrinks the value.
proof fn lemma_num_val_mono(s: Seq<char>, radix: int, k1: int, k2: int)
    requires
        radix >= 2,
        0 <= k1 <= k2,
        forall|j: int| 0 <= j < k2 ==> digit_val(s[j], radix) >= 0,
    ensures
        num_val(s, radix, k1) <= num_val(s, radix, k2),
    decreases k2 - k1,
{
    if k1 < k2 {
        lemma_num_val_mono(s, radix, k1, k2 - 1);
        lemma_num_val_nonneg(s, radix, k2 - 1);
        assert(num_val(s, radix, k2 - 1) * radix + digit_val(s[k2 - 1], radix) >= num_val(
            s,
            radix,
            k2 - 1,
        )) by (nonlinear_arith)
            requires
                num_val(s, radix, k2 - 1) >= 0,
                radix >= 2,
                digit_val(s[k2 - 1], radix) >= 0,
        ;
    }
}

/// Parses the magnitude of an integer from the front of `input`: an optional
/// sign, then the longest digit prefix, accumulated while it stays within
/// `pos_lim` (or `neg_lim` after a minus). Returns the magnitude, the sign,
/// and how many chars were consumed.
#[verifier::loop_isolation(false)]
pub fn parse_front_mag(
    input: &str,
    radix: u32,
    signed: bool,
    pos_lim: u128,
    neg_lim: u128,
) -> (r: Result<(u128, bool, usize), ParseIntPartialError>)
    requires
        2 <= radix <= 36,
    ensures
        ({
            let sr = parse_front_spec(input@, radix as int, signed, pos_lim as int, neg_lim as int);
            match (r, sr) {
                (Ok(p), Ok(q)) => (if p.1 {
                    -(p.0 as int)
                } else {
                    p.0 as int
                }) == q.0 && p.2 as int == q.1 && p.2 <= input@.len() && (p.1 ==> signed) && (
                if p.1 {
                    p.0 as int <= neg_lim as int
                } else {
                    p.0 as int <= pos_lim as int
                }),
                (Err(e), Err(f)) => e == f,
                _ => false,
            }
        }),
{
    let ghost sq = input@;
    let n = input.unicode_len();
    let mut off: usize = 0;
    let mut neg = false;
    if n > 0 {
        let c0 = input.get_char(0);
        if c0 == '-' {
            if !signed {
                return Err(ParseIntPartialError::Insufficient);
            }
            neg = true;
            off = 1;
        } else if c0 == '+' {
            off = 1;
        }
    }
    let lim: u128 = if neg {
        neg_lim
    } else {
        pos_lim
    };
    let ghost srest = sq.skip(off as int);
    let ghost d = digits_len(srest, radix as int) as int;
    proof {
        lemma_digits_len_le(srest, radix as int);
    }
    let mut k: usize = 0;
    let mut buf: u128 = 0;
    proof {
        assert(srest.skip(0) =~= srest);
    }
    loop
        invariant
            n == sq.len(),
            off <= 1,
            off + k <= n,
            srest == sq.skip(off as int),
            d == digits_len(srest, radix as int),
            d == k + digits_len(srest.skip(k as int), radix as int),
            buf as int == num_val(srest, radix as int, k as int),
            buf <= lim,
            forall|j: int| 0 <= j < k ==> digit_val(srest[j], radix as int) >= 0,
        decreases n - (off + k),
    {
        if off + k >= n {
            proof {
                assert(srest.skip(k as int) =~= Seq::<char>::empty());
            }
            break;
        }
        let c = input.get_char(off + k);
        proof {
            assert(c == srest.skip(k as int)[0]);
            assert(c == srest[k as int]);
            assert(srest.skip(k as int).skip(1) =~= srest.skip(k as int + 1));
        }
        match digit_of(c, radix) {
            None => {
                break;
            },
            Some(dv) => {
                proof {
                    lemma_digits_valid(srest, radix as int, k as int);
                }
                let step = match buf.checked_mul(radix as u128) {
                    Some(m1) => m1.checked_add(dv as u128),
                    None => None,
                };
                let mut fits = false;
                if let Some(m2) = step {
                    if m2 <= lim {
                        buf = m2;
                        k = k + 1;
                        fits = true;
                    }
                }
                if !fits {
                    proof {
                        assert(num_val(srest, radix as int, k as int + 1) > lim);
                        assert(k + 1 <= d);
                        assert forall|j: int| 0 <= j < d implies digit_val(
                            srest[j],
                            radix as int,
                        ) >= 0 by {
                            lemma_digits_valid(srest, radix as int, j);
                        }
                        lemma_num_val_mono(srest, radix as int, k as int + 1, d);
                    }
                    if neg {
                        return Err(ParseIntPartialError::Underflow);
                    }
                    return Err(ParseIntPartialError::Overflow);
                }
            },
        }
    }
    proof {
        assert(d == k);
    }
    if k == 0 {
        return Err(ParseIntPartialError::Insufficient);
    }
    Ok((buf, neg, off + k))
}

/// The digit suffix is no longer than the text.
proof fn lemma_trailing_le(s: Seq<char>, radix: int)
    ensures
        trailing_digits_len(s, radix) <= s.len(),
    decreases s.len(),
{
    if s.len() > 0 && digit_val(s[s.len() - 1], radix) >= 0 {
        lemma_trailing_le(s.drop_last(), radix);
    }
}

/// Parses the magnitude of an integer from the back of `input`: the longest
/// digit suffix, accumulated from its last digit with growing powers of the
/// radix, then an optional sign just before it. Returns the magnitude, the
/// sign, and how many chars were consumed.
#[verifier::loop_isolation(false)]
pub fn parse_back_mag(
    input: &str,
    radix: u32,
    signed: bool,
    pos_lim: u128,
    neg_lim: u128,
) -> (r: Result<(u128, bool, usize), ParseIntPartialError>)
    requires
        2 <= radix <= 36,
        pos_lim >= 1,
    ensures
        ({
            let sr = parse_back_spec(input@, radix as int, signed, pos_lim as int, neg_lim as int);
            match (r, sr) {
                (Ok(p), Ok(q)) => (if p.1 {
                    -(p.0 as int)
                } else {
                    p.0 as int
                }) == q.0 && p.2 as int == q.1 && p.2 <= input@.len() && (p.1 ==> signed) && (
                if p.1 {
                    p.0 as int <= neg_lim as int
                } else {
                    p.0 as int <= pos_lim as int
                }),
                (Err(e), Err(f)) => e == f,
                _ => false,
            }
        }),
{
    let ghost sq = input@;
    let ghost acc_lim_g: int = if signed {
        neg_lim as int
    } else {
        pos_lim as int
    };
    let ghost d = trailing_digits_len(sq, radix as int) as int;
    let n = input.unicode_len();
    let acc_lim: u128 = if signed {
        neg_lim
    } else {
        pos_lim
    };
    let mut k: usize = 0;
    let mut buf: u128 = 0;
    let mut fac: Option<u128> = Some(1u128);
    proof {
        lemma_trailing_le(sq, radix as int);
        assert(sq.take(n as int) =~= sq);
    }
    loop
        invariant
            n == sq.len(),
            0 <= k <= n,
            d == trailing_digits_len(sq, radix as int),
            d == k + trailing_digits_len(sq.take(n - k as int), radix as int),
            back_scan(sq, radix as int, acc_lim_g, pos_lim as int, k as int) matches Some(st)
                && st.0 == buf as int && (match fac {
                Some(f) => st.1 == Some(f as int),
                None => st.1 is None,
            }),
            buf <= acc_lim,
            fac matches Some(f) ==> f <= pos_lim,
        decreases n - k,
    {
        if k >= n {
            proof {
                assert(sq.take(0) =~= Seq::<char>::empty());
            }
            break;
        }
        let c = input.get_char(n - 1 - k);
        proof {
            assert(sq.take(n - k as int).drop_last() =~= sq.take(n - k as int - 1));
            assert(sq.take(n - k as int)[n - k as int - 1] == sq[n - 1 - k as int]);
        }
        match digit_of(c, radix) {
            None => {
                break;
            },
            Some(dv) => {
                proof {
                    assert(d >= k + 1);
                    assert(sq.len() - (k as int + 1) == n - 1 - k as int);
                }
                let mut fail = false;
                match fac {
                    None => {
                        fail = true;
                    },
                    Some(f) => {
                        match f.checked_mul(dv as u128) {
                            Some(m1) => {
                                if m1 > pos_lim {
                                    fail = true;
                                } else {
                                    match buf.checked_add(m1) {
                                        Some(m2) => {
                                            if m2 > acc_lim {
                                                fail = true;
                                            } else {
                                                buf = m2;
                                                fac = match f.checked_mul(radix as u128) {
                                                    Some(nf) => {
                                                        if nf <= pos_lim {
                                                            Some(nf)
                                                        } else {
                                                            None
                                                        }
                                                    },
                                                    None => None,
                                                };
                                            }
                                        },
                                        None => {
                                            fail = true;
                                        },
                                    }
                                }
                            },
                            None => {
                                fail = true;
                            },
                        }
                    },
                }
                if fail {
                    proof {
                        assert(back_scan(sq, radix as int, acc_lim_g, pos_lim as int, k as int + 1)
                            is None);
                        lemma_back_scan_fail_stable(
                            sq,
                            radix as int,
                            acc_lim_g,
                            pos_lim as int,
                            k as int + 1,
                            d,
                        );
                    }
                    if signed {
                        return Err(ParseIntPartialError::Underflow);
                    }
                    return Err(ParseIntPartialError::Overflow);
                }
                k = k + 1;
            },
        }
    }
    proof {
        assert(d == k);
    }
    if k == 0 {
        return Err(ParseIntPartialError::Insufficient);
    }
    let mut neg = false;
    let mut consumed = k;
    if k < n {
        let c = input.get_char(n - 1 - k);
        proof {
            assert(c == sq[sq.len() - d - 1]);
        }
        if signed && c == '-' {
            neg = true;
            consumed = k + 1;
        } else if c == '+' {
            consumed = k + 1;
        }
    }
    if !neg && signed {
        if buf > pos_lim {
            return Err(ParseIntPartialError::Overflow);
        }
    }
    Ok((buf, neg, consumed))
}

} // verus!


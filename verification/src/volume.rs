//! The volume value and the argument parser that produces it.

use vstd::prelude::*;
use vstd::string::StrSliceExecFns;

use crate::decimal::{
    all_digits, digit_value, digits_value, is_digit, lemma_dec_str_value,
    lemma_digits_value_bound, lemma_digits_value_concat, lemma_digits_value_nonneg,
    lemma_digits_value_zero, lemma_pow10_pos, lemma_pow10_small, pow10,
};
use crate::error::VolumeError;
use crate::number::{
    e10, exp_digits, exp_digits_len, exp_digits_start, exp_neg, exp_sign_len, frac_len, has_dot,
    has_exp, in_range, int_len, is_float, is_special, keep_count, le_hundred, lead_zeros,
    lemma_classify, lemma_digit_run_is, lemma_lead_zeros_bounds, lemma_lead_zeros_is,
    lemma_one_then_zeros, lemma_parts_all_digits, lemma_scaled_in_range, lemma_skip_zeros_value,
    lemma_special_not_float, lemma_zero_chars, mant_digits, mant_value, neg_sign, num_end,
    scaled_digits, scaled_value, sig_digits, sign_len, zero_chars,
};

verus! {

/// A validated output volume.
///
/// `scaled` is the denoted percentage times `10^7`, rounded toward zero,
/// so the full range `[0, 100]` maps to `[0, 10^9]`; `nonzero` says whether
/// the denoted percentage is mathematically greater than zero, which the
/// scaled value alone cannot (a positive value below the scale truncates
/// to zero scaled units).
#[derive(Clone, Copy, Debug, PartialEq, Eq, Structural)]
pub struct Volume {
    scaled: u64,
    nonzero: bool,
}

impl Volume {
    /// The scaled percentage this volume holds.
    pub closed spec fn scaled_spec(&self) -> int {
        self.scaled as int
    }

    /// Whether the denoted percentage is greater than zero.
    pub closed spec fn nonzero_spec(&self) -> bool {
        self.nonzero
    }

    /// The volume standing for an integer percentage `p`.
    pub closed spec fn from_percent(p: int) -> Volume {
        Volume { scaled: (p * 10000000) as u64, nonzero: p != 0 }
    }

    /// The volume a number of the grammar denotes.
    pub closed spec fn of_number(s: Seq<char>) -> Volume {
        Volume { scaled: scaled_value(s) as u64, nonzero: mant_value(s) != 0 }
    }

    /// Well-formedness: the scaled percentage lies in `[0, 10^9]`, and a
    /// positive scaled value marks the volume nonzero.
    pub open spec fn valid(&self) -> bool {
        0 <= self.scaled_spec() <= 1000000000 && (self.scaled_spec() > 0
            ==> self.nonzero_spec())
    }

    /// Whether this volume is complete silence.
    pub open spec fn is_zero_spec(&self) -> bool {
        !self.nonzero_spec()
    }

    /// The scaled percentage, as an executable value.
    pub fn scaled(&self) -> (u: u64)
        ensures
            u as int == self.scaled_spec(),
    {
        self.scaled
    }

    /// Whether this volume is complete silence, as an executable test.
    pub fn is_zero(&self) -> (z: bool)
        ensures
            z == self.is_zero_spec(),
    {
        !self.nonzero
    }

    /// `from_percent` holds exactly the percentage it was given.
    pub proof fn lemma_from_percent(p: int)
        requires
            0 <= p <= 100,
        ensures
            Volume::from_percent(p).scaled_spec() == p * 10000000,
            Volume::from_percent(p).valid(),
            Volume::from_percent(p).is_zero_spec() <==> p == 0,
    {
    }

    /// The volume of an in-range number is well formed, and is silence
    /// exactly when the mantissa is zero.
    pub proof fn lemma_of_number_valid(s: Seq<char>)
        requires
            in_range(s),
        ensures
            Volume::of_number(s).valid(),
            Volume::of_number(s).is_zero_spec() <==> mant_value(s) == 0,
    {
        lemma_scaled_in_range(s);
    }
}

/// The decimal string of any percentage in `[0, 100]` is a number of the
/// grammar, lies in range, and denotes exactly that percentage, so by the
/// contract of [`parse_volume`] it parses to `Volume::from_percent(p)`.
pub proof fn lemma_integer_percentages_parse(p: int)
    requires
        0 <= p <= 100,
    ensures
        is_float(crate::decimal::dec_str(p as nat)),
        in_range(crate::decimal::dec_str(p as nat)),
        Volume::of_number(crate::decimal::dec_str(p as nat)) == Volume::from_percent(p),
{
    let s = crate::decimal::dec_str(p as nat);
    lemma_dec_str_value(p as nat);
    lemma_pow10_small();
    assert(is_digit(s[0]));
    assert(s[0] != '-' && s[0] != '+');
    assert(sign_len(s) == 0);
    lemma_digit_run_is(s, 0, s.len() as int);
    assert(int_len(s) == s.len());
    assert(!has_dot(s));
    assert(num_end(s) == s.len());
    assert(!has_exp(s));
    assert(is_float(s));
    assert(mant_digits(s) =~= s);
    assert(exp_digits(s) =~= Seq::<char>::empty());
    assert(digits_value(Seq::<char>::empty()) == 0);
    assert(e10(s) == 0);
    assert(mant_value(s) == p);
    assert(p * pow10(0) <= 100) by (nonlinear_arith)
        requires
            pow10(0) == 1,
            p <= 100,
    ;
    assert(le_hundred(mant_value(s), e10(s)));
    assert(!neg_sign(s));
    assert(in_range(s));
    // The scaled value: the significant digits followed by seven zeros.
    if p == 0 {
        assert(digit_value(s[0]) == 0);
        lemma_lead_zeros_is(s, s.len() as int);
        assert(sig_digits(s) =~= Seq::<char>::empty());
        assert(keep_count(s) == 7);
        assert(scaled_digits(s) =~= zero_chars(7));
        lemma_zero_chars(7);
        assert(scaled_value(s) == 0);
    } else {
        assert(digit_value(s[0]) != 0);
        lemma_lead_zeros_is(s, 0);
        assert(sig_digits(s) =~= s);
        let n = s.len() as int;
        assert(keep_count(s) == n + 7);
        assert(scaled_digits(s) =~= s + zero_chars(7));
        lemma_zero_chars(7);
        lemma_digits_value_concat(s, zero_chars(7));
        assert(scaled_value(s) == p * pow10(7));
        assert(p * pow10(7) == p * 10000000);
    }
}

/// The maximal digit run from `from`: returns the position just past it.
fn digit_run_end(input: &str, from: usize, len: usize) -> (j: usize)
    requires
        len == input@.len(),
        from <= len,
    ensures
        from <= j <= len,
        crate::number::digit_run(input@, from as int) == j - from,
        forall|p: int| from <= p < j ==> is_digit(input@[p]),
        j < len ==> !is_digit(input@[j as int]),
{
    let ghost s = input@;
    let mut i: usize = from;
    loop
        invariant
            from <= i <= len,
            len == s.len(),
            s == input@,
            forall|p: int| from <= p < i ==> is_digit(s[p]),
        decreases len - i,
    {
        if i >= len {
            proof {
                lemma_digit_run_is(s, from as int, i as int);
            }
            return i;
        }
        let c = input.get_char(i);
        let cu = c as u32;
        if cu < 48 || cu > 57 {
            proof {
                lemma_digit_run_is(s, from as int, i as int);
            }
            return i;
        }
        i = i + 1;
    }
}

/// The value of the digit run `[from, to)`, capped at `10^20`.
fn digits_value_capped(input: &str, from: usize, to: usize) -> (v: u128)
    requires
        to == input@.len() || to < input@.len(),
        from <= to <= input@.len(),
        forall|p: int| from <= p < to ==> is_digit(input@[p]),
    ensures
        0 <= v <= 100000000000000000000u128,
        digits_value(input@.subrange(from as int, to as int)) <= 100000000000000000000
            ==> v == digits_value(input@.subrange(from as int, to as int)),
        digits_value(input@.subrange(from as int, to as int)) > 100000000000000000000 ==> v
            == 100000000000000000000u128,
{
    let ghost s = input@;
    let mut v: u128 = 0;
    let mut i: usize = from;
    while i < to
        invariant
            from <= i <= to <= s.len(),
            s == input@,
            forall|p: int| from <= p < to ==> is_digit(s[p]),
            0 <= v <= 100000000000000000000u128,
            digits_value(s.subrange(from as int, i as int)) <= 100000000000000000000 ==> v
                == digits_value(s.subrange(from as int, i as int)),
            digits_value(s.subrange(from as int, i as int)) > 100000000000000000000 ==> v
                == 100000000000000000000u128,
        decreases to - i,
    {
        let c = input.get_char(i);
        let cu = c as u32;
        let d: u128 = (cu - 48) as u128;
        let ghost prefix = s.subrange(from as int, i as int);
        let ghost extended = s.subrange(from as int, i + 1 as int);
        proof {
            assert(extended.drop_last() =~= prefix);
            assert(extended.last() == s[i as int]);
            assert(all_digits(prefix));
            lemma_digits_value_nonneg(prefix);
        }
        v = v * 10 + d;
        if v > 100000000000000000000u128 {
            v = 100000000000000000000u128;
        }
        i = i + 1;
    }
    proof {
        assert(s.subrange(from as int, to as int) == s.subrange(from as int, i as int));
    }
    v
}

/// Whether the unsigned remainder of the input is a special token.
fn special_token(input: &str, k: usize, len: usize) -> (b: bool)
    requires
        len == input@.len(),
        k as int == sign_len(input@),
    ensures
        b == is_special(input@),
{
    let ghost s = input@;
    let ghost t = s.skip(k as int);
    proof {
        assert(t.len() == len - k);
        assert(forall|p: int| 0 <= p < t.len() ==> t[p] == s[p + k]);
    }
    if len - k == 3 {
        let c0 = input.get_char(k);
        let c1 = input.get_char(k + 1);
        let c2 = input.get_char(k + 2);
        let inf = (c0 == 'i' || c0 == 'I') && (c1 == 'n' || c1 == 'N') && (c2 == 'f' || c2
            == 'F');
        let nan = (c0 == 'n' || c0 == 'N') && (c1 == 'a' || c1 == 'A') && (c2 == 'n' || c2
            == 'N');
        inf || nan
    } else if len - k == 8 {
        let c0 = input.get_char(k);
        let c1 = input.get_char(k + 1);
        let c2 = input.get_char(k + 2);
        let c3 = input.get_char(k + 3);
        let c4 = input.get_char(k + 4);
        let c5 = input.get_char(k + 5);
        let c6 = input.get_char(k + 6);
        let c7 = input.get_char(k + 7);
        (c0 == 'i' || c0 == 'I') && (c1 == 'n' || c1 == 'N') && (c2 == 'f' || c2 == 'F') && (c3
            == 'i' || c3 == 'I') && (c4 == 'n' || c4 == 'N') && (c5 == 'i' || c5 == 'I') && (c6
            == 't' || c6 == 'T') && (c7 == 'y' || c7 == 'Y')
    } else {
        false
    }
}

/// Scans the mantissa digits: the leading-zero count, whether any digit is
/// nonzero, whether the first significant digit is a one, and whether every
/// digit after it is zero.
fn mant_scan(md: &Vec<char>) -> (r: (usize, bool, bool, bool))
    requires
        all_digits(md@),
    ensures
        ({
            let (zc, seen, one, rz) = r;
            &&& 0 <= zc <= md@.len()
            &&& !seen ==> zc == md@.len() && (forall|p: int|
                0 <= p < md@.len() ==> digit_value(md@[p]) == 0)
            &&& seen ==> zc < md@.len() && digit_value(md@[zc as int]) != 0 && (forall|p: int|
                0 <= p < zc ==> digit_value(md@[p]) == 0) && (one <==> digit_value(
                md@[zc as int],
            ) == 1) && (rz ==> (forall|p: int|
                zc < p < md@.len() ==> digit_value(md@[p]) == 0)) && (!rz ==> (exists|p: int|
                zc < p < md@.len() && digit_value(md@[p]) != 0))
        }),
{
    let mlen = md.len();
    let mut zc: usize = 0;
    let mut seen = false;
    let mut first_is_one = false;
    let mut rest_zero = true;
    let ghost mut wit: int = 0;
    let mut idx: usize = 0;
    while idx < mlen
        invariant
            0 <= zc <= idx <= mlen,
            mlen == md@.len(),
            all_digits(md@),
            !seen ==> zc == idx && rest_zero && (forall|p: int|
                0 <= p < idx ==> digit_value(md@[p]) == 0),
            seen ==> zc < idx && digit_value(md@[zc as int]) != 0 && (forall|p: int|
                0 <= p < zc ==> digit_value(md@[p]) == 0) && (first_is_one <==> digit_value(
                md@[zc as int],
            ) == 1) && (rest_zero ==> (forall|p: int|
                zc < p < idx ==> digit_value(md@[p]) == 0)) && (!rest_zero ==> (zc < wit < idx
                && digit_value(md@[wit]) != 0)),
        decreases mlen - idx,
    {
        let c = md[idx];
        let cu = c as u32;
        proof {
            assert(c == md@[idx as int]);
            assert(is_digit(c));
        }
        let d = cu - 48;
        proof {
            assert(d as int == digit_value(md@[idx as int]));
        }
        if !seen {
            if d != 0 {
                seen = true;
                first_is_one = d == 1;
            } else {
                zc = zc + 1;
            }
        } else {
            if d != 0 {
                rest_zero = false;
                proof {
                    wit = idx as int;
                }
            }
        }
        idx = idx + 1;
    }
    proof {
        if seen && !rest_zero {
            assert(zc < wit < mlen && digit_value(md@[wit]) != 0);
        }
    }
    (zc, seen, first_is_one, rest_zero)
}

/// Fills the scaled digit slots: the first `keep` significant digits,
/// zeros past their end, read as one number.
fn scale_slots(md: &Vec<char>, zc: usize, n: usize, keep: usize, Ghost(s): Ghost<Seq<char>>) -> (acc:
    u64)
    requires
        md@ == mant_digits(s),
        all_digits(md@),
        zc < md@.len(),
        n == md@.len() - zc,
        scaled_digits(s).len() == keep,
        1 <= keep <= 10,
        all_digits(scaled_digits(s)),
        forall|p: int|
            0 <= p < keep ==> scaled_digits(s)[p] == (if p < n {
                md@[p + zc]
            } else {
                '0'
            }),
    ensures
        acc == digits_value(scaled_digits(s)),
{
    let ghost sd = scaled_digits(s);
    let mlen = md.len();
    let mut acc: u64 = 0;
    let mut t: usize = 0;
    while t < keep
        invariant
            0 <= t <= keep <= 10,
            mlen == md@.len(),
            all_digits(md@),
            zc < mlen,
            n == mlen - zc,
            sd == scaled_digits(s),
            md@ == mant_digits(s),
            sd.len() == keep,
            all_digits(sd),
            forall|p: int|
                0 <= p < keep ==> sd[p] == (if p < n {
                    md@[p + zc]
                } else {
                    '0'
                }),
            acc == digits_value(sd.take(t as int)),
            0 <= acc,
        decreases keep - t,
    {
        proof {
            lemma_digits_value_bound(sd.take(t as int));
            assert(sd.take(t as int).len() == t <= 9);
            assert(all_digits(sd.take(t as int)));
            crate::decimal::lemma_pow10_mono(t as nat, 9);
            lemma_pow10_small();
            assert(acc < pow10(9));
        }
        let c: char = if t < n {
            md[zc + t]
        } else {
            '0'
        };
        let cu = c as u32;
        proof {
            assert(c == sd[t as int]);
            assert(is_digit(c));
        }
        let d: u64 = (cu - 48) as u64;
        proof {
            assert(d == digit_value(c));
            assert(sd.take(t + 1 as int).drop_last() =~= sd.take(t as int));
            assert(sd.take(t + 1 as int).last() == sd[t as int]);
        }
        acc = acc * 10 + d;
        t = t + 1;
    }
    proof {
        assert(sd.take(keep as int) =~= sd);
    }
    acc
}

/// Classifies a syntactically valid number and builds its volume: exact
/// range check, then the scaled value.
#[verifier::rlimit(100)]
#[verifier::spinoff_prover]
fn evaluate_number(
    input: &str,
    md: Vec<char>,
    neg: bool,
    has_d: bool,
    fs: usize,
    f_end: usize,
    has_e: bool,
    q: usize,
    e_end: usize,
    esneg: bool,
    len: usize,
) -> (r: Result<Volume, VolumeError>)
    requires
        len == input@.len(),
        is_float(input@),
        md@ == mant_digits(input@),
        all_digits(md@),
        neg == neg_sign(input@),
        has_d == has_dot(input@),
        has_d ==> fs <= f_end <= len && frac_len(input@) == f_end - fs,
        !has_d ==> frac_len(input@) == 0,
        has_e == has_exp(input@),
        has_e ==> q <= e_end <= len && exp_digits(input@) == input@.subrange(
            q as int,
            e_end as int,
        ) && esneg == exp_neg(input@) && (forall|p: int| q <= p < e_end ==> is_digit(input@[p])),
        !has_e ==> exp_digits(input@) == Seq::<char>::empty(),
        !has_e ==> !exp_neg(input@),
    ensures
        r is Ok <==> in_range(input@),
        r matches Ok(v) ==> v == Volume::of_number(input@),
        !in_range(input@) ==> r == Err::<Volume, VolumeError>(
            VolumeError::InvalidInput("Volume must be 0-100"),
        ),
{
    let ghost s = input@;
    // Leading zeros, the first significant digit, and whether anything
    // follows it.
    let mlen = md.len();
    let (zc, seen, first_is_one, rest_zero) = mant_scan(&md);
    if !seen {
        // Every digit is zero: the value is exactly zero, in range.
        proof {
            lemma_digits_value_zero(md@);
            assert(mant_value(s) == 0);
            assert(le_hundred(0, e10(s))) by {
                if e10(s) >= 0 {
                    assert(0 * pow10(e10(s) as nat) == 0) by (nonlinear_arith);
                } else {
                    lemma_pow10_pos((-e10(s)) as nat);
                    assert(100 * pow10((-e10(s)) as nat) >= 0) by (nonlinear_arith)
                        requires
                            pow10((-e10(s)) as nat) >= 1,
                    ;
                }
            }
            assert(in_range(s));
            lemma_scaled_in_range(s);
            assert(scaled_value(s) == 0);
        }
        return Ok(Volume { scaled: 0, nonzero: false });
    }
    proof {
        lemma_digits_value_zero(md@);
        assert(mant_value(s) != 0);
    }
    if neg {
        // A nonzero negative value: below the accepted range.
        assert(!in_range(s));
        return Err(VolumeError::InvalidInput("Volume must be 0-100"));
    }
    // The exponent value, capped far beyond any possible digit count.
    let cap: u128 = 100000000000000000000u128;
    let evc: u128 = if has_e {
        proof {
            assert(exp_digits(s) =~= s.subrange(q as int, e_end as int));
        }
        digits_value_capped(input, q, e_end)
    } else {
        proof {
            assert(exp_digits(s) =~= Seq::<char>::empty());
            assert(digits_value(exp_digits(s)) == 0);
        }
        0
    };
    let ghost evt = digits_value(exp_digits(s));
    proof {
        lemma_digits_value_nonneg(exp_digits(s));
    }
    let fc: usize = if has_d {
        f_end - fs
    } else {
        0
    };
    let e10c: i128 = (if esneg {
        -(evc as i128)
    } else {
        evc as i128
    }) - (fc as i128);
    let n: usize = mlen - zc;
    let ghost et = e10(s);
    let ghost sig = sig_digits(s);
    proof {
        lemma_lead_zeros_is(md@, zc as int);
        assert(sig =~= md@.skip(zc as int));
        assert(sig.len() == n);
        assert(forall|p: int| 0 <= p < sig.len() ==> sig[p] == md@[p + zc]);
        assert(all_digits(sig));
        assert(digit_value(sig[0]) != 0);
        lemma_skip_zeros_value(md@, zc as int);
        assert(digits_value(sig) == mant_value(s));
        lemma_classify(sig, et);
        lemma_pow10_small();
        assert(n >= 1);
        assert(n as i128 <= 0xffffffffffffffffi128);
        assert(fc as i128 <= 0xffffffffffffffffi128);
    }
    let ee: i128 = (n as i128) + e10c;
    proof {
        // The capped exponent classifies exactly as the true one: either it
        // is exact, or both lie far outside the undecided band.
        if evt <= cap {
            assert(evc == evt);
            assert(ee == n + et);
        } else {
            assert(evc == cap);
            if esneg {
                assert(et <= -(cap as int) - fc);
                assert(ee <= 0xffffffffffffffffi128 - 100000000000000000000i128);
                assert(ee <= -8);
                assert(n + et <= -8);
            } else {
                assert(et >= cap as int - fc);
                assert(ee >= 4);
                assert(n + et >= 4);
            }
        }
        assert(ee >= 4 <==> n + et >= 4);
        assert(ee == 3 <==> n + et == 3);
        assert(ee <= 2 <==> n + et <= 2);
        assert(ee + 7 <= 0 <==> n + et + 7 <= 0);
    }
    if ee >= 4 {
        // Too many digit positions: the value exceeds one hundred.
        proof {
            assert(n + et >= 4);
            assert(!le_hundred(digits_value(sig), et));
            assert(!in_range(s));
        }
        return Err(VolumeError::InvalidInput("Volume must be 0-100"));
    }
    proof {
        assert(n + et <= 3);
        assert(n + et == 3 ==> ee == 3);
        assert(ee <= 2 ==> n + et <= 2);
    }
    if ee == 3 && !(first_is_one && rest_zero) {
        // One hundred-something that is not exactly one hundred.
        proof {
            assert(n + et == 3);
            lemma_one_then_zeros(sig);
            if !first_is_one {
                assert(digit_value(sig[0]) != 1);
            } else {
                let w = choose|p: int| zc < p < mlen && digit_value(md@[p]) != 0;
                assert(zc < w < mlen && digit_value(md@[w]) != 0);
                assert(sig[w - zc] == md@[w]);
                assert(1 <= w - zc < sig.len() && digit_value(sig[w - zc]) != 0);
            }
            assert(!(digit_value(sig[0]) == 1 && forall|p: int|
                1 <= p < sig.len() ==> digit_value(sig[p]) == 0));
            assert(digits_value(sig) != pow10((sig.len() - 1) as nat));
            assert(!le_hundred(digits_value(sig), et));
            assert(!in_range(s));
        }
        return Err(VolumeError::InvalidInput("Volume must be 0-100"));
    }
    // In range.  Fill the scaled digit slots.
    proof {
        if ee == 3 {
            assert(digit_value(sig[0]) == 1 && forall|p: int|
                1 <= p < sig.len() ==> digit_value(sig[p]) == 0) by {
                assert(forall|p: int| 1 <= p < sig.len() ==> digit_value(sig[p]) == digit_value(
                    md@[p + zc],
                ));
            }
            lemma_one_then_zeros(sig);
            assert(le_hundred(digits_value(sig), et));
        } else {
            assert(ee <= 2);
            assert(n + et <= 2);
            assert(le_hundred(digits_value(sig), et));
        }
        assert(in_range(s));
        lemma_scaled_in_range(s);
    }
    let keep128: i128 = ee + 7;
    if keep128 <= 0 {
        proof {
            assert(keep_count(s) == n + et + 7);
            assert(keep_count(s) <= 0);
            assert(scaled_digits(s) =~= Seq::<char>::empty());
            assert(scaled_value(s) == 0);
        }
        return Ok(Volume { scaled: 0, nonzero: true });
    }
    proof {
        assert(evt <= cap) by {
            if evt > cap {
                if esneg {
                    assert(ee < 0);
                } else {
                    assert(ee >= 4);
                }
            }
        }
        assert(keep_count(s) == keep128);
    }
    let keep: usize = keep128 as usize;
    let ghost sd = scaled_digits(s);
    proof {
        assert(1 <= keep <= 10);
        assert(keep_count(s) == keep);
        if keep <= sig.len() {
            assert(sd == sig.take(keep as int));
            assert(forall|p: int| 0 <= p < keep ==> sd[p] == sig[p]);
        } else {
            assert(sd == sig + zero_chars((keep - sig.len()) as nat));
            lemma_zero_chars((keep - sig.len()) as nat);
            assert(forall|p: int| 0 <= p < keep ==> sd[p] == (if p < sig.len() {
                sig[p]
            } else {
                '0'
            }));
        }
        assert(sd.len() == keep);
        assert(all_digits(sd));
        assert(forall|p: int| 0 <= p < keep ==> sd[p] == (if p < n {
            md@[p + zc]
        } else {
            '0'
        }));
    }
    let acc = scale_slots(&md, zc, n, keep, Ghost(s));
    proof {
        assert(acc == scaled_value(s));
        assert(0 <= scaled_value(s) <= 1000000000);
    }
    Ok(Volume { scaled: acc, nonzero: true })
}

/// Parses a volume percentage from string input: a number of the grammar
/// whose exact value lies in `[0, 100]` is accepted and scaled; anything
/// else is an `InvalidInput` error whose message says which check failed.
#[verifier::rlimit(100)]
pub fn parse_volume(input: &str) -> (r: Result<Volume, VolumeError>)
    ensures
        r is Ok <==> is_float(input@) && in_range(input@),
        r matches Ok(v) ==> v == Volume::of_number(input@),
        !is_float(input@) && !is_special(input@) ==> r == Err::<Volume, VolumeError>(
            VolumeError::InvalidInput("Invalid number"),
        ),
        is_special(input@) ==> r == Err::<Volume, VolumeError>(
            VolumeError::InvalidInput("Volume must be 0-100"),
        ),
        is_float(input@) && !in_range(input@) ==> r == Err::<Volume, VolumeError>(
            VolumeError::InvalidInput("Volume must be 0-100"),
        ),
{
    let ghost s = input@;
    let len = input.unicode_len();
    let mut k: usize = 0;
    let mut neg = false;
    if len > 0 {
        let c0 = input.get_char(0);
        if c0 == '-' {
            neg = true;
            k = 1;
        } else if c0 == '+' {
            k = 1;
        }
    }
    proof {
        assert(k as int == sign_len(s));
        assert(neg == neg_sign(s));
    }
    if special_token(input, k, len) {
        proof {
            lemma_special_not_float(s);
        }
        return Err(VolumeError::InvalidInput("Volume must be 0-100"));
    }
    // Syntax: integer digits, optional dot and fraction digits.
    let a_end = digit_run_end(input, k, len);
    proof {
        assert(int_len(s) == a_end - k);
    }
    let mut has_d = false;
    let mut fs: usize = a_end;
    let mut f_end: usize = a_end;
    if a_end < len {
        let c = input.get_char(a_end);
        if c == '.' {
            has_d = true;
            fs = a_end + 1;
            f_end = digit_run_end(input, fs, len);
        }
    }
    proof {
        assert(has_dot(s) == has_d);
        if has_d {
            assert(frac_len(s) == f_end - fs);
        } else {
            assert(frac_len(s) == 0);
        }
    }
    if a_end - k == 0 && f_end - fs == 0 {
        // No digit at all: not a number.
        assert(!is_float(s));
        return Err(VolumeError::InvalidInput("Invalid number"));
    }
    // Syntax: the optional exponent part must close the string.
    let ne: usize = if has_d {
        f_end
    } else {
        a_end
    };
    proof {
        assert(num_end(s) == ne);
    }
    let mut has_e = false;
    let mut esneg = false;
    let mut q: usize = ne;
    let mut e_end: usize = ne;
    if ne < len {
        let c = input.get_char(ne);
        if !(c == 'e' || c == 'E') {
            assert(!has_exp(s));
            assert(!is_float(s));
            return Err(VolumeError::InvalidInput("Invalid number"));
        }
        has_e = true;
        q = ne + 1;
        if q < len {
            let c1 = input.get_char(q);
            if c1 == '-' {
                esneg = true;
                q = q + 1;
            } else if c1 == '+' {
                q = q + 1;
            }
        }
        proof {
            assert(has_exp(s));
            assert(exp_sign_len(s) == q - (ne + 1));
            assert(exp_digits_start(s) == q);
            assert(esneg == exp_neg(s));
        }
        e_end = digit_run_end(input, q, len);
        proof {
            assert(exp_digits_len(s) == e_end - q);
        }
        if e_end == q || e_end < len {
            assert(!is_float(s));
            return Err(VolumeError::InvalidInput("Invalid number"));
        }
    } else {
        proof {
            assert(!has_exp(s));
        }
    }
    proof {
        assert(is_float(s));
        lemma_parts_all_digits(s);
    }
    // The mantissa digits, integer part then fraction part.
    let mut md: Vec<char> = Vec::new();
    let mut j: usize = k;
    while j < a_end
        invariant
            k <= j <= a_end <= len,
            len == s.len(),
            s == input@,
            md@ =~= s.subrange(k as int, j as int),
        decreases a_end - j,
    {
        let c = input.get_char(j);
        md.push(c);
        proof {
            assert(s.subrange(k as int, j + 1 as int) =~= s.subrange(k as int, j as int)
                + seq![s[j as int]]);
        }
        j = j + 1;
    }
    if has_d {
        let mut j2: usize = fs;
        while j2 < f_end
            invariant
                fs <= j2 <= f_end <= len,
                len == s.len(),
                s == input@,
                md@ =~= s.subrange(k as int, a_end as int) + s.subrange(fs as int, j2 as int),
            decreases f_end - j2,
        {
            let c = input.get_char(j2);
            md.push(c);
            proof {
                assert(s.subrange(fs as int, j2 + 1 as int) =~= s.subrange(fs as int, j2 as int)
                    + seq![s[j2 as int]]);
            }
            j2 = j2 + 1;
        }
    }
    proof {
        assert(md@ =~= mant_digits(s));
        assert(all_digits(md@));
    }
    proof {
        if has_e {
            assert(exp_digits(s) =~= s.subrange(q as int, e_end as int));
        } else {
            assert(exp_digits(s) =~= Seq::<char>::empty());
            assert(!exp_neg(s));
        }
    }
    evaluate_number(input, md, neg, has_d, fs, f_end, has_e, q, e_end, esneg, len)
}

} // verus!

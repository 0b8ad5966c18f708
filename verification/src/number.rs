//! The real-number grammar of the volume argument, and the exact value it
//! denotes.
//!
//! A number is an optional sign, digits with an optional dot and fraction
//! digits (at least one digit in all), and an optional exponent part; the
//! special tokens `inf`, `infinity` and `nan`, in any case, also parse but
//! never lie in range.  The denoted percentage is the exact rational
//! `mantissa * 10^(exponent - fraction_len)`, and all range logic is exact
//! integer logic over the digit strings.

use vstd::prelude::*;

use crate::decimal::{
    all_digits, digit_value, digits_value, is_digit, lemma_digits_value_bound,
    lemma_digits_value_concat, lemma_digits_value_nonneg, lemma_digits_value_single,
    lemma_digits_value_zero, lemma_pow10_adds, lemma_pow10_mono, lemma_pow10_pos,
    lemma_pow10_small, pow10,
};

verus! {

/// Length of the optional leading sign.
pub open spec fn sign_len(s: Seq<char>) -> int {
    if s.len() > 0 && (s[0] == '-' || s[0] == '+') {
        1
    } else {
        0
    }
}

/// Whether the number is negative.
pub open spec fn neg_sign(s: Seq<char>) -> bool {
    s.len() > 0 && s[0] == '-'
}

/// Length of the maximal digit run starting at `from`.
pub open spec fn digit_run(s: Seq<char>, from: int) -> int
    decreases s.len() - from when from <= s.len()
{
    if from < s.len() && is_digit(s[from]) {
        1 + digit_run(s, from + 1)
    } else {
        0
    }
}

/// The digit run is exactly the distance to the first non-digit.
pub proof fn lemma_digit_run_is(s: Seq<char>, from: int, j: int)
    requires
        0 <= from <= j <= s.len(),
        forall|p: int| from <= p < j ==> is_digit(s[p]),
        j == s.len() || !is_digit(s[j]),
    ensures
        digit_run(s, from) == j - from,
    decreases j - from,
{
    if from < j {
        lemma_digit_run_is(s, from + 1, j);
    }
}

pub open spec fn int_len(s: Seq<char>) -> int {
    digit_run(s, sign_len(s))
}

pub open spec fn has_dot(s: Seq<char>) -> bool {
    let p = sign_len(s) + int_len(s);
    p < s.len() && s[p] == '.'
}

pub open spec fn frac_len(s: Seq<char>) -> int {
    if has_dot(s) {
        digit_run(s, sign_len(s) + int_len(s) + 1)
    } else {
        0
    }
}

/// Position just after the mantissa (sign, digits, dot, digits).
pub open spec fn num_end(s: Seq<char>) -> int {
    sign_len(s) + int_len(s) + if has_dot(s) {
        1 + frac_len(s)
    } else {
        0
    }
}

pub open spec fn has_exp(s: Seq<char>) -> bool {
    let p = num_end(s);
    p < s.len() && (s[p] == 'e' || s[p] == 'E')
}

pub open spec fn exp_neg(s: Seq<char>) -> bool {
    has_exp(s) && num_end(s) + 1 < s.len() && s[num_end(s) + 1] == '-'
}

pub open spec fn exp_sign_len(s: Seq<char>) -> int {
    let p = num_end(s) + 1;
    if p < s.len() && (s[p] == '-' || s[p] == '+') {
        1
    } else {
        0
    }
}

pub open spec fn exp_digits_start(s: Seq<char>) -> int {
    num_end(s) + 1 + exp_sign_len(s)
}

pub open spec fn exp_digits_len(s: Seq<char>) -> int {
    digit_run(s, exp_digits_start(s))
}

/// Whether `s` is a number of the accepted grammar.
pub open spec fn is_float(s: Seq<char>) -> bool {
    &&& int_len(s) + frac_len(s) >= 1
    &&& if has_exp(s) {
        exp_digits_len(s) >= 1 && exp_digits_start(s) + exp_digits_len(s) == s.len()
    } else {
        num_end(s) == s.len()
    }
}

/// The mantissa digits: integer-part digits then fraction digits.
pub open spec fn mant_digits(s: Seq<char>) -> Seq<char> {
    s.subrange(sign_len(s), sign_len(s) + int_len(s)) + if has_dot(s) {
        s.subrange(sign_len(s) + int_len(s) + 1, sign_len(s) + int_len(s) + 1 + frac_len(s))
    } else {
        Seq::<char>::empty()
    }
}

pub open spec fn exp_digits(s: Seq<char>) -> Seq<char> {
    if has_exp(s) {
        s.subrange(exp_digits_start(s), exp_digits_start(s) + exp_digits_len(s))
    } else {
        Seq::<char>::empty()
    }
}

/// The signed exponent value.
pub open spec fn exp_value(s: Seq<char>) -> int {
    if exp_neg(s) {
        -digits_value(exp_digits(s))
    } else {
        digits_value(exp_digits(s))
    }
}

/// The mantissa as an integer.
pub open spec fn mant_value(s: Seq<char>) -> int {
    digits_value(mant_digits(s))
}

/// The denoted percentage is `mant_value * 10^e10` (negated under the sign).
pub open spec fn e10(s: Seq<char>) -> int {
    exp_value(s) - frac_len(s)
}

/// Whether a magnitude `m * 10^e` is at most one hundred.
pub open spec fn le_hundred(m: int, e: int) -> bool {
    if e >= 0 {
        m * pow10(e as nat) <= 100
    } else {
        m <= 100 * pow10((-e) as nat)
    }
}

/// Whether the denoted percentage lies in `[0, 100]`.
pub open spec fn in_range(s: Seq<char>) -> bool {
    !(neg_sign(s) && mant_value(s) != 0) && le_hundred(mant_value(s), e10(s))
}

/// Count of leading zero digits.
pub open spec fn lead_zeros(d: Seq<char>) -> int
    decreases d.len(),
{
    if d.len() > 0 && digit_value(d[0]) == 0 {
        1 + lead_zeros(d.skip(1))
    } else {
        0
    }
}

/// The leading-zero count is exactly the position of the first non-zero.
pub proof fn lemma_lead_zeros_is(d: Seq<char>, z: int)
    requires
        0 <= z <= d.len(),
        forall|p: int| 0 <= p < z ==> digit_value(d[p]) == 0,
        z == d.len() || digit_value(d[z]) != 0,
    ensures
        lead_zeros(d) == z,
    decreases z,
{
    if z > 0 {
        assert(digit_value(d[0]) == 0);
        assert(forall|p: int| 0 <= p < z - 1 ==> digit_value(d.skip(1)[p]) == 0);
        assert(z - 1 == d.skip(1).len() || digit_value(d.skip(1)[z - 1]) != 0);
        lemma_lead_zeros_is(d.skip(1), z - 1);
    } else {
        if d.len() > 0 {
            assert(digit_value(d[0]) != 0);
        }
    }
}

/// The significant digits: the mantissa without its leading zeros.
pub open spec fn sig_digits(s: Seq<char>) -> Seq<char> {
    mant_digits(s).skip(lead_zeros(mant_digits(s)))
}

/// Dropping leading zero digits keeps the value.
pub proof fn lemma_skip_zeros_value(d: Seq<char>, z: int)
    requires
        all_digits(d),
        0 <= z <= d.len(),
        forall|p: int| 0 <= p < z ==> digit_value(d[p]) == 0,
    ensures
        digits_value(d.skip(z)) == digits_value(d),
{
    let a = d.take(z);
    let b = d.skip(z);
    assert(d =~= a + b);
    assert(all_digits(a));
    lemma_digits_value_concat(a, b);
    lemma_digits_value_zero(a);
    assert(forall|p: int| 0 <= p < a.len() ==> digit_value(a[p]) == 0);
    assert(digits_value(a) == 0);
}

/// How many digit slots of the scaled value (percent times `10^7`) the
/// number fills: its significant digits shifted by the exponent.
pub open spec fn keep_count(s: Seq<char>) -> int {
    sig_digits(s).len() + e10(s) + 7
}

pub open spec fn zero_chars(k: nat) -> Seq<char> {
    Seq::new(k, |i: int| '0')
}

/// The digit string of the scaled value `floor(percent * 10^7)`: the first
/// `keep_count` significant digits, padded with zeros past their end.
pub open spec fn scaled_digits(s: Seq<char>) -> Seq<char> {
    let d = sig_digits(s);
    let k = keep_count(s);
    if k <= 0 {
        Seq::<char>::empty()
    } else if k <= d.len() {
        d.take(k)
    } else {
        d + zero_chars((k - d.len()) as nat)
    }
}

/// The scaled value itself.
pub open spec fn scaled_value(s: Seq<char>) -> int {
    digits_value(scaled_digits(s))
}

/// A digit run is made of digits.
pub proof fn lemma_digit_run_digits(s: Seq<char>, from: int)
    requires
        0 <= from <= s.len(),
    ensures
        forall|p: int| from <= p < from + digit_run(s, from) ==> is_digit(s[p]),
        digit_run(s, from) >= 0,
        from + digit_run(s, from) <= s.len(),
    decreases s.len() - from,
{
    if from < s.len() && is_digit(s[from]) {
        lemma_digit_run_digits(s, from + 1);
    }
}

/// Basic facts of the leading-zero count.
pub proof fn lemma_lead_zeros_bounds(d: Seq<char>)
    ensures
        0 <= lead_zeros(d) <= d.len(),
        forall|p: int| 0 <= p < lead_zeros(d) ==> digit_value(d[p]) == 0,
        lead_zeros(d) < d.len() ==> digit_value(d[lead_zeros(d)]) != 0,
    decreases d.len(),
{
    if d.len() > 0 && digit_value(d[0]) == 0 {
        lemma_lead_zeros_bounds(d.skip(1));
        let lz1 = lead_zeros(d.skip(1));
        assert(lead_zeros(d) == 1 + lz1);
        assert forall|p: int| 1 <= p < 1 + lz1 implies digit_value(d[p]) == 0 by {
            assert(d.skip(1)[p - 1] == d[p]);
        }
        if 1 + lz1 < d.len() {
            assert(d.skip(1)[lz1] == d[1 + lz1]);
        }
    }
}

/// A run of zero characters is a digit string denoting zero.
pub proof fn lemma_zero_chars(k: nat)
    ensures
        all_digits(zero_chars(k)),
        digits_value(zero_chars(k)) == 0,
{
    assert(forall|i: int| 0 <= i < zero_chars(k).len() ==> zero_chars(k)[i] == '0');
    assert(is_digit('0'));
    assert(digit_value('0') == 0);
    lemma_digits_value_zero(zero_chars(k));
}

/// The mantissa and exponent digit strings are made of digits.
pub proof fn lemma_parts_all_digits(s: Seq<char>)
    ensures
        all_digits(mant_digits(s)),
        all_digits(exp_digits(s)),
{
    let k = sign_len(s);
    lemma_digit_run_digits(s, k);
    let a = int_len(s);
    let ipart = s.subrange(k, k + a);
    assert(all_digits(ipart)) by {
        assert(forall|p: int| 0 <= p < a ==> ipart[p] == s[p + k]);
    }
    if has_dot(s) {
        lemma_digit_run_digits(s, k + a + 1);
        let b = frac_len(s);
        let fpart = s.subrange(k + a + 1, k + a + 1 + b);
        assert(all_digits(fpart)) by {
            assert(forall|p: int| 0 <= p < b ==> fpart[p] == s[p + k + a + 1]);
        }
        assert(all_digits(mant_digits(s))) by {
            assert(forall|p: int| 0 <= p < mant_digits(s).len() ==> mant_digits(s)[p] == (if p
                < a {
                ipart[p]
            } else {
                fpart[p - a]
            }));
        }
    } else {
        assert(mant_digits(s) =~= ipart);
    }
    if has_exp(s) {
        assert(num_end(s) < s.len());
        assert(exp_digits_start(s) <= s.len());
        lemma_digit_run_digits(s, exp_digits_start(s));
        let q = exp_digits_start(s);
        let c = exp_digits_len(s);
        assert(all_digits(exp_digits(s))) by {
            assert(forall|p: int| 0 <= p < c ==> exp_digits(s)[p] == s[p + q]);
        }
    } else {
        assert(exp_digits(s) =~= Seq::<char>::empty());
    }
}

/// In range, the scaled value fits its ten digit slots: it is at most
/// `10^9`, and it is positive only when the mantissa is.
pub proof fn lemma_scaled_in_range(s: Seq<char>)
    requires
        in_range(s),
    ensures
        0 <= scaled_value(s) <= 1000000000,
        scaled_value(s) > 0 ==> mant_value(s) != 0,
{
    lemma_pow10_small();
    lemma_parts_all_digits(s);
    let m = mant_digits(s);
    let z = lead_zeros(m);
    lemma_lead_zeros_bounds(m);
    let sig = sig_digits(s);
    assert(all_digits(sig)) by {
        assert(forall|p: int| 0 <= p < sig.len() ==> sig[p] == m[p + z]);
    }
    lemma_skip_zeros_value(m, z);
    assert(digits_value(sig) == mant_value(s));
    let k = keep_count(s);
    let sd = scaled_digits(s);
    assert(all_digits(sd)) by {
        lemma_zero_chars((if k > sig.len() { (k - sig.len()) as nat } else { 0 }) as nat);
        if k > 0 && k > sig.len() {
            assert(forall|p: int| 0 <= p < sd.len() ==> #[trigger] sd[p] == (if p < sig.len() {
                sig[p]
            } else {
                zero_chars((k - sig.len()) as nat)[p - sig.len()]
            }));
        }
    }
    lemma_digits_value_nonneg(sd);
    if mant_value(s) == 0 {
        // No significant digits: every slot is zero.
        if z < m.len() {
            lemma_digits_value_zero(m);
        }
        assert(z == m.len());
        assert(sig.len() == 0);
        if k > 0 {
            assert(sd =~= zero_chars(k as nat));
            lemma_zero_chars(k as nat);
        }
        assert(digits_value(sd) == 0);
    } else {
        assert(sig.len() >= 1 && digit_value(sig[0]) != 0) by {
            if z == m.len() {
                lemma_digits_value_zero(m);
            }
            assert(sig[0] == m[z]);
        }
        let n = sig.len() as int;
        let e = e10(s);
        lemma_classify(sig, e);
        assert(le_hundred(mant_value(s), e));
        assert(n + e <= 3);
        assert(k == n + e + 7);
        if k <= 0 {
            assert(digits_value(sd) == 0);
        } else if n + e <= 2 {
            // At most nine slots filled: the value stays below 10^9.
            assert(sd.len() == k <= 9);
            lemma_digits_value_bound(sd);
            lemma_pow10_mono(sd.len() as nat, 9);
        } else {
            // Exactly one hundred: a one followed by zeros fills ten slots.
            assert(n + e == 3 && k == 10);
            lemma_one_then_zeros(sig);
            assert(digit_value(sig[0]) == 1 && forall|p: int|
                1 <= p < sig.len() ==> digit_value(sig[p]) == 0);
            if k <= sig.len() {
                let t = sig.take(k);
                assert(sd == t);
                assert(all_digits(t));
                assert(t.len() == 10);
                assert(digit_value(t[0]) == 1 && forall|p: int|
                    1 <= p < t.len() ==> digit_value(t[p]) == 0);
                lemma_one_then_zeros(t);
                lemma_sig_bounds(t);
                assert(digits_value(t) == pow10(9));
            } else {
                lemma_digits_value_concat(sig, zero_chars((k - sig.len()) as nat));
                lemma_zero_chars((k - sig.len()) as nat);
                lemma_pow10_adds((n - 1) as nat, (k - n) as nat);
                assert(digits_value(sig) == pow10((n - 1) as nat));
                assert(digits_value(sd) == pow10((n - 1) as nat) * pow10((k - n) as nat));
                assert((n - 1) + (k - n) == 9);
            }
        }
    }
    if scaled_value(s) > 0 {
        assert(mant_value(s) != 0);
    }
}

/// Case-insensitive special tokens.
pub open spec fn is_inf_seq(t: Seq<char>) -> bool {
    t.len() == 3 && (t[0] == 'i' || t[0] == 'I') && (t[1] == 'n' || t[1] == 'N') && (t[2] == 'f'
        || t[2] == 'F')
}

pub open spec fn is_infinity_seq(t: Seq<char>) -> bool {
    t.len() == 8 && (t[0] == 'i' || t[0] == 'I') && (t[1] == 'n' || t[1] == 'N') && (t[2] == 'f'
        || t[2] == 'F') && (t[3] == 'i' || t[3] == 'I') && (t[4] == 'n' || t[4] == 'N') && (t[5]
        == 'i' || t[5] == 'I') && (t[6] == 't' || t[6] == 'T') && (t[7] == 'y' || t[7] == 'Y')
}

pub open spec fn is_nan_seq(t: Seq<char>) -> bool {
    t.len() == 3 && (t[0] == 'n' || t[0] == 'N') && (t[1] == 'a' || t[1] == 'A') && (t[2] == 'n'
        || t[2] == 'N')
}

/// Whether `s` is a special token (optionally signed): an infinity or a
/// not-a-number, which the range check always rejects.
pub open spec fn is_special(s: Seq<char>) -> bool {
    let t = s.skip(sign_len(s));
    is_inf_seq(t) || is_infinity_seq(t) || is_nan_seq(t)
}

/// A special token is not a number of the grammar.
pub proof fn lemma_special_not_float(s: Seq<char>)
    requires
        is_special(s),
    ensures
        !is_float(s),
{
    let k = sign_len(s);
    let t = s.skip(k);
    assert(!is_digit(t[0]) && t[0] != '.');
    assert(s[k] == t[0]);
    assert(int_len(s) == 0);
    assert(!has_dot(s));
    assert(frac_len(s) == 0);
}

/// The first significant digit puts the value between two powers of ten.
pub proof fn lemma_sig_bounds(sig: Seq<char>)
    requires
        all_digits(sig),
        sig.len() >= 1,
        digit_value(sig[0]) != 0,
    ensures
        pow10((sig.len() - 1) as nat) <= digits_value(sig) < pow10(sig.len()),
{
    lemma_digits_value_bound(sig);
    let a = sig.take(1);
    let b = sig.skip(1);
    assert(sig =~= a + b);
    assert(all_digits(a) && all_digits(b));
    lemma_digits_value_concat(a, b);
    lemma_digits_value_nonneg(b);
    lemma_digits_value_single(a);
    assert(digits_value(a) == digit_value(sig[0]));
    assert(digits_value(a) >= 1);
    assert(b.len() == sig.len() - 1);
    assert(digits_value(a) * pow10(b.len()) >= pow10(b.len())) by (nonlinear_arith)
        requires
            digits_value(a) >= 1,
            pow10(b.len()) >= 0,
    ;
}

/// A significant-digit string denotes exactly `10^(len-1)` when it is a one
/// followed by zeros.
pub proof fn lemma_one_then_zeros(sig: Seq<char>)
    requires
        all_digits(sig),
        sig.len() >= 1,
        digit_value(sig[0]) != 0,
    ensures
        digits_value(sig) == pow10((sig.len() - 1) as nat) <==> (digit_value(sig[0]) == 1
            && forall|p: int| 1 <= p < sig.len() ==> digit_value(sig[p]) == 0),
{
    let a = sig.take(1);
    let b = sig.skip(1);
    assert(sig =~= a + b);
    assert(all_digits(a) && all_digits(b));
    lemma_digits_value_concat(a, b);
    lemma_digits_value_bound(b);
    lemma_digits_value_nonneg(b);
    lemma_digits_value_zero(b);
    lemma_digits_value_single(a);
    assert(digits_value(a) == digit_value(sig[0]));
    let d0 = digit_value(sig[0]);
    let p = pow10(b.len());
    assert(digits_value(sig) == d0 * p + digits_value(b));
    assert(forall|q: int| 0 <= q < b.len() ==> b[q] == sig[q + 1]);
    if d0 == 1 && digits_value(b) == 0 {
        assert(digits_value(sig) == p) by (nonlinear_arith)
            requires
                digits_value(sig) == d0 * p + digits_value(b),
                d0 == 1,
                digits_value(b) == 0,
        ;
    }
    if digits_value(sig) == p {
        assert(d0 == 1 && digits_value(b) == 0) by (nonlinear_arith)
            requires
                digits_value(sig) == d0 * p + digits_value(b),
                digits_value(sig) == p,
                1 <= d0 <= 9,
                0 <= digits_value(b) < p,
        ;
    }
}

/// The exact range classification by digit count: with `n` significant
/// digits and exponent `e`, the value is below one hundred when `n + e`
/// is at most two, above it when `n + e` is at least four, and at `n + e`
/// equal to three exactly one hundred is still in range: a one followed by
/// zeros.
pub proof fn lemma_classify(sig: Seq<char>, e: int)
    requires
        all_digits(sig),
        sig.len() >= 1,
        digit_value(sig[0]) != 0,
    ensures
        sig.len() + e <= 2 ==> le_hundred(digits_value(sig), e),
        sig.len() + e >= 4 ==> !le_hundred(digits_value(sig), e),
        sig.len() + e == 3 ==> (le_hundred(digits_value(sig), e) <==> digits_value(sig) == pow10(
            (sig.len() - 1) as nat,
        )),
{
    let n = sig.len() as int;
    let m = digits_value(sig);
    lemma_sig_bounds(sig);
    lemma_pow10_small();
    if e >= 0 {
        lemma_pow10_adds(n as nat, e as nat);
        lemma_pow10_adds((n - 1) as nat, e as nat);
        lemma_pow10_pos(e as nat);
        assert(m * pow10(e as nat) < pow10(n as nat) * pow10(e as nat)) by (nonlinear_arith)
            requires
                m < pow10(n as nat),
                pow10(e as nat) >= 1,
        ;
        assert(m * pow10(e as nat) >= pow10((n - 1) as nat) * pow10(e as nat))
            by (nonlinear_arith)
            requires
                m >= pow10((n - 1) as nat),
                pow10(e as nat) >= 1,
        ;
        if n + e <= 2 {
            lemma_pow10_mono((n + e) as nat, 2);
            assert(pow10(2) == 100);
        }
        if n + e >= 4 {
            lemma_pow10_mono(3, (n + e - 1) as nat);
            assert(pow10(3) == 1000);
        }
        if n + e == 3 {
            assert(pow10((n + e - 1) as nat) == 100);
            if m == pow10((n - 1) as nat) {
                assert(m * pow10(e as nat) == pow10((n - 1) as nat) * pow10(e as nat));
            }
            if m > pow10((n - 1) as nat) {
                assert(m * pow10(e as nat) >= (pow10((n - 1) as nat) + 1) * pow10(e as nat))
                    by (nonlinear_arith)
                    requires
                        m >= pow10((n - 1) as nat) + 1,
                        pow10(e as nat) >= 1,
                ;
                assert((pow10((n - 1) as nat) + 1) * pow10(e as nat) == pow10((n - 1) as nat)
                    * pow10(e as nat) + pow10(e as nat)) by (nonlinear_arith);
            }
        }
    } else {
        let f = (-e) as nat;
        lemma_pow10_pos(f);
        if n + e <= 2 {
            // m < 10^n <= 10^(f+2) = 100 * 10^f
            lemma_pow10_mono(n as nat, f + 2);
            lemma_pow10_adds(2, f);
            assert(pow10(2) == 100);
        }
        if n + e >= 4 {
            // m >= 10^(n-1) >= 10^(f+3) = 1000 * 10^f > 100 * 10^f
            lemma_pow10_mono(f + 3, (n - 1) as nat);
            lemma_pow10_adds(3, f);
            assert(pow10(3) == 1000);
            assert(1000 * pow10(f) > 100 * pow10(f)) by (nonlinear_arith)
                requires
                    pow10(f) >= 1,
            ;
        }
        if n + e == 3 {
            // 100 * 10^f == 10^(n-1)
            lemma_pow10_adds(2, f);
            assert(pow10(2) == 100);
            assert((n - 1) as nat == 2 + f);
        }
    }
}

} // verus!

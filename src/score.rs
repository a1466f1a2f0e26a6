//! Scores and thresholds are IEEE-754 binary64 values held as their bit
//! patterns. The model reads a pattern as a sign, an 11-bit exponent field and
//! a 52-bit fraction field, and measures magnitudes in units of 2^-1074, the
//! smallest positive subnormal, so that every finite magnitude is an integer.
use vstd::prelude::*;
use vstd::arithmetic::power2::{pow2, lemma_pow2_adds, lemma_pow2_pos, lemma_pow2_strictly_increases, lemma_pow2_unfold};

verus! {

/// Bit pattern of the `f64` value 1.0.
pub const ONE_BITS: u64 = 0x3ff0_0000_0000_0000;

/// Bit pattern of `f64::EPSILON`, 2^-52: the tolerance under which two scores
/// count as tied.
pub const EPSILON_BITS: u64 = 0x3cb0_0000_0000_0000;

/// 2^52: one unit of the exponent field.
pub const FRACTION_SPAN: u64 = 0x10_0000_0000_0000;

/// 2^63: the sign bit.
pub const SIGN_BIT: u64 = 0x8000_0000_0000_0000;

/// Bit pattern of positive infinity; larger magnitudes are NaN.
pub const INFINITY_BITS: u64 = 0x7ff0_0000_0000_0000;

pub open spec fn sign_set(b: u64) -> bool {
    b >= SIGN_BIT
}

pub open spec fn exponent_field(b: u64) -> nat {
    ((b % SIGN_BIT) / FRACTION_SPAN) as nat
}

pub open spec fn fraction_field(b: u64) -> nat {
    (b % FRACTION_SPAN) as nat
}

pub open spec fn significand(b: u64) -> nat {
    if exponent_field(b) == 0 {
        fraction_field(b)
    } else {
        (fraction_field(b) + FRACTION_SPAN) as nat
    }
}

pub open spec fn binary_scale(b: u64) -> nat {
    if exponent_field(b) == 0 {
        0
    } else {
        (exponent_field(b) - 1) as nat
    }
}

/// Absolute value of the number that `b` encodes, in units of 2^-1074.
/// Infinity reads as a magnitude above every finite one.
pub open spec fn magnitude(b: u64) -> nat {
    significand(b) * pow2(binary_scale(b))
}

pub open spec fn is_nan(b: u64) -> bool {
    b % SIGN_BIT > INFINITY_BITS
}

/// A similarity score: a number in [0, 1] (positive zero up to one).
pub open spec fn is_score(b: u64) -> bool {
    b <= ONE_BITS
}

/// `score >= threshold` as `f64` comparison decides it: false for a NaN
/// threshold, true for any negative one or a negative zero.
pub open spec fn meets_threshold(score: u64, threshold: u64) -> bool {
    !is_nan(threshold) && (sign_set(threshold) || magnitude(score) >= magnitude(threshold))
}

/// Two non-negative numbers differ by less than 2^-52.
pub open spec fn within_epsilon(a: u64, b: u64) -> bool {
    let d = magnitude(a) - magnitude(b);
    -pow2(1022) < d < pow2(1022)
}

proof fn lemma_fields(b: u64)
    requires
        b < SIGN_BIT,
    ensures
        b == exponent_field(b) * FRACTION_SPAN + fraction_field(b),
        fraction_field(b) < FRACTION_SPAN,
        exponent_field(b) < 2048,
        significand(b) < 2 * FRACTION_SPAN,
        exponent_field(b) > 0 ==> significand(b) >= FRACTION_SPAN,
{
}

proof fn lemma_span_is_pow2()
    ensures
        pow2(52) == FRACTION_SPAN,
        pow2(53) == 2 * FRACTION_SPAN,
{
    vstd::arithmetic::power2::lemma2_to64();
    vstd::arithmetic::power2::lemma2_to64_rest();
}

/// On non-negative patterns the order of the bits is the order of the values.
pub proof fn lemma_magnitude_strictly_increasing(a: u64, b: u64)
    requires
        a < b < SIGN_BIT,
    ensures
        magnitude(a) < magnitude(b),
{
    lemma_fields(a);
    lemma_fields(b);
    let sa = binary_scale(a);
    let sb = binary_scale(b);
    let pa = pow2(sa);
    let pb = pow2(sb);
    lemma_pow2_pos(sa);
    lemma_pow2_pos(sb);
    let ma = significand(a);
    let mb = significand(b);
    if exponent_field(a) == exponent_field(b) {
        assert(ma < mb);
        assert(ma * pa < mb * pa) by (nonlinear_arith)
            requires ma < mb, pa > 0;
    } else {
        assert(exponent_field(a) < exponent_field(b)) by (nonlinear_arith)
            requires
                a == exponent_field(a) * FRACTION_SPAN + fraction_field(a),
                b == exponent_field(b) * FRACTION_SPAN + fraction_field(b),
                fraction_field(a) < FRACTION_SPAN,
                fraction_field(b) < FRACTION_SPAN,
                a < b,
                exponent_field(a) != exponent_field(b);
        let f = FRACTION_SPAN as int;
        if exponent_field(a) == 0 {
            vstd::arithmetic::power2::lemma2_to64();
            assert(pa == 1);
            assert(ma < f);
            assert(ma * pa < f) by (nonlinear_arith)
                requires ma < f, pa == 1;
            assert(f * 1 <= mb * pb) by (nonlinear_arith)
                requires mb >= f, pb >= 1;
        } else {
            lemma_pow2_unfold(sa + 1);
            assert(pow2((sa + 1) as nat) == 2 * pa);
            if sa + 1 < sb {
                lemma_pow2_strictly_increases((sa + 1) as nat, sb);
            }
            assert(2 * pa <= pb);
            assert(ma * pa < 2 * f * pa) by (nonlinear_arith)
                requires ma < 2 * f, pa > 0;
            assert(f * (2 * pa) <= mb * pb) by (nonlinear_arith)
                requires mb >= f, pb >= 2 * pa, 2 * pa > 0;
        }
    }
}

pub proof fn lemma_magnitude_monotone(a: u64, b: u64)
    requires
        a <= b < SIGN_BIT,
    ensures
        magnitude(a) <= magnitude(b),
{
    if a < b {
        lemma_magnitude_strictly_increasing(a, b);
    }
}

/// Decides `score >= threshold` as `f64` comparison does.
pub fn score_meets_threshold(score: u64, threshold: u64) -> (r: bool)
    requires
        is_score(score),
    ensures
        r == meets_threshold(score, threshold),
{
    let magnitude_bits = threshold % SIGN_BIT;
    if magnitude_bits > INFINITY_BITS {
        false
    } else if threshold >= SIGN_BIT {
        true
    } else {
        proof {
            if score < threshold {
                lemma_magnitude_strictly_increasing(score, threshold);
            } else {
                lemma_magnitude_monotone(threshold, score);
            }
        }
        score >= threshold
    }
}

proof fn lemma_magnitude_bounds(b: u64)
    requires
        b < SIGN_BIT,
    ensures
        magnitude(b) < pow2(binary_scale(b) + 53),
        exponent_field(b) > 0 ==> magnitude(b) >= pow2(binary_scale(b) + 52),
        pow2(binary_scale(b)) > 0,
{
    lemma_fields(b);
    lemma_span_is_pow2();
    let p = binary_scale(b);
    let q = pow2(p);
    let m = significand(b);
    lemma_pow2_pos(p);
    lemma_pow2_adds(p, 53);
    lemma_pow2_adds(p, 52);
    assert(m * q < pow2(53) * q) by (nonlinear_arith)
        requires m < pow2(53), q > 0;
    if exponent_field(b) > 0 {
        assert(m * q >= pow2(52) * q) by (nonlinear_arith)
            requires m >= pow2(52), q > 0;
    }
}

/// Two to the power `k`, for `k` below 64.
fn pow2_u64(k: u64) -> (r: u64)
    requires
        k < 64,
    ensures
        r == pow2(k as nat),
{
    let mut r: u64 = 1;
    let mut i: u64 = 0;
    proof {
        vstd::arithmetic::power2::lemma2_to64();
    }
    while i < k
        invariant
            i <= k < 64,
            r == pow2(i as nat),
        decreases k - i,
    {
        proof {
            lemma_pow2_unfold((i + 1) as nat);
            lemma_pow2_strictly_increases((i + 1) as nat, 64);
            vstd::arithmetic::power2::lemma2_to64_rest();
        }
        r = r * 2;
        i = i + 1;
    }
    r
}

/// Decides whether the score `other` lies within `f64::EPSILON` of the score
/// `top`, which is at least as large.
pub fn scores_tied(top: u64, other: u64) -> (r: bool)
    requires
        other <= top,
        is_score(top),
    ensures
        r == within_epsilon(top, other),
{
    proof {
        lemma_magnitude_monotone(other, top);
        lemma_magnitude_bounds(top);
        lemma_magnitude_bounds(other);
        lemma_fields(top);
        lemma_fields(other);
    }
    let et = top / FRACTION_SPAN;
    let ex = other / FRACTION_SPAN;
    let mt = if et == 0 { top % FRACTION_SPAN } else { top % FRACTION_SPAN + FRACTION_SPAN };
    let mx = if ex == 0 { other % FRACTION_SPAN } else { other % FRACTION_SPAN + FRACTION_SPAN };
    let ghost pt = binary_scale(top);
    let ghost px = binary_scale(other);
    assert(et == exponent_field(top) && ex == exponent_field(other));
    assert(mt == significand(top) && mx == significand(other));
    if et <= 970 {
        proof {
            if pt + 53 < 1022 {
                lemma_pow2_strictly_increases(pt + 53, 1022);
            }
            assert(within_epsilon(top, other));
        }
        true
    } else if et == 971 {
        // top lies in [2^-52, 2^-51): compare the other score with top - 2^-52.
        let c = mt - FRACTION_SPAN;
        let r = 970 - (if ex == 0 { 0 } else { ex - 1 });
        proof {
            lemma_span_is_pow2();
            let d = (970 - px) as nat;
            lemma_pow2_adds(px, d);
            lemma_pow2_adds(52, 970);
            lemma_pow2_pos(d);
            let q = pow2(px);
            let w = pow2(d);
            assert(px + d == 970);
            assert(pt == 970);
            assert(pow2(970) == q * w);
            assert(magnitude(top) == mt * (w * q)) by (nonlinear_arith)
                requires magnitude(top) == mt * pow2(970), pow2(970) == q * w;
            assert(pow2(1022) == FRACTION_SPAN * (w * q)) by (nonlinear_arith)
                requires pow2(1022) == pow2(52) * pow2(970), pow2(970) == q * w, pow2(52) == FRACTION_SPAN;
            assert(within_epsilon(top, other) <==> c * w < mx) by (nonlinear_arith)
                requires
                    magnitude(top) == mt * (w * q),
                    magnitude(other) == mx * q,
                    pow2(1022) == FRACTION_SPAN * (w * q),
                    c == mt - FRACTION_SPAN,
                    q > 0,
                    w > 0,
                    magnitude(other) <= magnitude(top),
                    within_epsilon(top, other) <==> magnitude(top) - magnitude(other) < pow2(1022);
            assert(r == d);
            assert(c == 0 ==> c * w == 0) by (nonlinear_arith);
            if r >= 53 {
                if r > 53 {
                    lemma_pow2_strictly_increases(53, r as nat);
                }
                assert(c > 0 ==> c * w >= w) by (nonlinear_arith)
                    requires w > 0;
            }
        }
        if c == 0 {
            assert(within_epsilon(top, other) == (mx > 0));
            mx > 0
        } else if r >= 53 {
            assert(!within_epsilon(top, other));
            false
        } else {
            let w = pow2_u64(r);
            proof {
                lemma_pow2_strictly_increases(r as nat, 53);
                assert(c * w < FRACTION_SPAN * pow2(53)) by (nonlinear_arith)
                    requires c < FRACTION_SPAN, w < pow2(53);
            }
            assert(within_epsilon(top, other) == (c * w < mx));
            (c as u128) * (w as u128) < mx as u128
        }
    } else if ex + 1 < et {
        proof {
            if px + 53 < pt + 51 {
                lemma_pow2_strictly_increases(px + 53, pt + 51);
            }
            lemma_pow2_unfold(pt + 52);
            if 1022 < pt + 51 {
                lemma_pow2_strictly_increases(1022, pt + 51);
            }
            assert(!within_epsilon(top, other));
        }
        false
    } else {
        // Both exponents are normal and differ by at most one.
        let s = et - ex;
        let n = if s == 0 { mt - mx } else { 2 * mt - mx };
        proof {
            lemma_pow2_adds(px, s as nat);
            vstd::arithmetic::power2::lemma2_to64();
            let q = pow2(px);
            assert(magnitude(top) == mt * pow2(s as nat) * q) by (nonlinear_arith)
                requires
                    magnitude(top) == mt * pow2(pt),
                    pow2(pt) == q * pow2(s as nat);
            assert(n * q == magnitude(top) - magnitude(other)) by (nonlinear_arith)
                requires
                    magnitude(top) == mt * pow2(s as nat) * q,
                    magnitude(other) == mx * q,
                    s == 0 ==> pow2(s as nat) == 1,
                    s == 1 ==> pow2(s as nat) == 2,
                    s <= 1,
                    n == (if s == 0 { mt - mx } else { 2 * mt - mx }),
                    q > 0;
        }
        if ex >= 1023 {
            proof {
                if px > 1022 {
                    lemma_pow2_strictly_increases(1022, px);
                }
                let q = pow2(px);
                assert(n >= 1 ==> n * q >= q) by (nonlinear_arith)
                    requires q > 0;
                assert(n == 0 ==> n * q == 0);
            }
            assert(within_epsilon(top, other) == (n == 0));
            n == 0
        } else {
            let k = 1023 - ex;
            let w = pow2_u64(k);
            proof {
                lemma_pow2_adds(px, k as nat);
                assert(n * pow2(px) < pow2(1022) <==> n < w) by (nonlinear_arith)
                    requires pow2(1022) == pow2(px) * w, pow2(px) > 0;
            }
            assert(within_epsilon(top, other) == (n < w));
            n < w
        }
    }
}

pub proof fn lemma_within_epsilon_self(a: u64)
    ensures
        within_epsilon(a, a),
{
    lemma_pow2_pos(1022);
}

/// The number that a non-NaN pattern encodes, in units of 2^-1074.
pub open spec fn signed_value(b: u64) -> int {
    if sign_set(b) {
        -magnitude(b)
    } else {
        magnitude(b) as int
    }
}

} // verus!

//! Multiplication, division and rounding to an integer on bit patterns.
//!
//! Each operation takes finite numbers of a format and returns the exact
//! result rounded to the nearest number of the format, ties to even, as
//! IEEE 754 asks. A result whose rounded magnitude is too large for a
//! finite number is reported as `None`.

use vstd::arithmetic::div_mod::*;
use vstd::arithmetic::power2::*;
use vstd::prelude::*;

use crate::format::Format;
use crate::nearest::{
    distance, grid_exp, lemma_nearest_even_multiple, lemma_nearest_even_range,
    lemma_nearest_even_scale, lemma_pow2_mul_mono, lemma_representable_rounds_to_itself,
    lemma_round_shifted, lemma_round_to_grid_exact, lemma_round_to_grid_is_nearest,
    lemma_round_to_grid_range, lemma_round_to_grid_scale, lemma_round_to_grid_shifted,
    lemma_round_to_grid_zero, nearest_even, representable, round_shifted, round_to_grid,
};

verus! {

/// The product of `a` and `b` rounded to the format, where it is a finite
/// number: both factors are finite, and the rounded product is not too
/// large.
pub open spec fn product(fmt: Format, a: u64, b: u64) -> Option<u64> {
    if !fmt.is_finite(a) || !fmt.is_finite(b) {
        None
    } else {
        fmt.pack(
            fmt.is_negative(a) != fmt.is_negative(b),
            round_to_grid(fmt.prec(), fmt.magnitude(a) * fmt.magnitude(b), fmt.unit()),
        )
    }
}

/// `a` divided by `b` and rounded to the format, where that is a finite
/// number: `a` is finite, and `b` is an infinity, which gives zero, or is
/// finite and not zero, and the rounded quotient is not too large.
pub open spec fn quotient(fmt: Format, a: u64, b: u64) -> Option<u64> {
    let negative = fmt.is_negative(a) != fmt.is_negative(b);
    if !fmt.is_finite(a) {
        None
    } else if !fmt.is_finite(b) {
        if fmt.abs(b) == fmt.infinity() {
            Some(fmt.with_magnitude(negative, 0))
        } else {
            None
        }
    } else if fmt.magnitude(b) == 0 {
        None
    } else {
        fmt.pack(
            negative,
            round_to_grid(fmt.prec(), fmt.magnitude(a) * fmt.unit(), fmt.magnitude(b)),
        )
    }
}

/// The integer nearest to `a`, ties to even, as a number of the format
/// with the sign of `a`. What is no finite number is left as it is.
pub open spec fn integral(fmt: Format, a: u64) -> u64 {
    if !fmt.is_finite(a) {
        a
    } else {
        fmt.with_magnitude(
            fmt.is_negative(a),
            nearest_even(fmt.magnitude(a), fmt.unit()) * fmt.unit(),
        )
    }
}

/// `1 << k` is `2^k`.
proof fn lemma_one_shl(k: u32)
    requires
        k < 128,
    ensures
        (1u128 << k) == pow2(k as nat),
    decreases k,
{
    if k == 0 {
        assert(1u128 << 0u32 == 1u128) by (bit_vector);
        lemma2_to64();
    } else {
        let j = (k - 1) as u32;
        lemma_one_shl(j);
        assert((1u128 << k) == 2 * (1u128 << j)) by (bit_vector)
            requires
                0 < k < 128,
                j == k - 1,
        ;
        lemma_pow2_unfold(k as nat);
    }
}

/// `2^k` as a machine integer.
fn pow2_u128(k: u32) -> (r: u128)
    requires
        k < 128,
    ensures
        r == pow2(k as nat),
{
    proof {
        lemma_one_shl(k);
    }
    1u128 << k
}

/// A number below half of an even divisor rounds to zero.
proof fn lemma_round_shifted_small(q: nat, sticky: bool, k: nat)
    requires
        k > 0,
        q < pow2((k - 1) as nat),
    ensures
        round_shifted(q, sticky, pow2(k)) == 0,
{
    lemma_pow2_unfold(k);
    lemma_small_mod(q, pow2(k));
    lemma_basic_div(q as int, pow2(k) as int);
}

/// Doubles `x` until its top bit is the leading bit of a significand.
fn shift_to_top(fmt: Format, x: u64) -> (r: (u64, u32))
    requires
        0 < x < 2 * fmt.hidden(),
    ensures
        r.0 == x * pow2(r.1 as nat),
        fmt.hidden() <= r.0 < 2 * fmt.hidden(),
        r.1 < fmt.prec(),
{
    let h = fmt.hidden_bit();
    let mut sig = x;
    let mut z: u32 = 0;
    proof {
        lemma2_to64();
        fmt.lemma_constants();
        assert(x * 1 == x) by (nonlinear_arith);
    }
    while sig < h
        invariant
            h == fmt.hidden(),
            x > 0,
            sig == x * pow2(z as nat),
            0 < sig < 2 * h,
            z < fmt.prec(),
        decreases 2 * h - sig,
    {
        proof {
            fmt.lemma_constants();
            let w = pow2(z as nat);
            lemma_pow2_unfold((z + 1) as nat);
            assert(x * (2 * w) == 2 * (x * w)) by (nonlinear_arith);
            if z + 1 >= fmt.prec() {
                lemma_pow2_mul_mono(1, fmt.prec(), (z + 1) as nat);
                let w2 = pow2((z + 1) as nat);
                assert(x * w2 >= w2) by (nonlinear_arith)
                    requires
                        x >= 1,
                        w2 >= 0,
                ;
            }
        }
        sig = sig * 2;
        z = z + 1;
    }
    (sig, z)
}

/// The significand of a finite number that is not zero, with its top bit
/// set, and the two exponents that make up for it:
/// `magnitude * 2^r.1 == r.0 * 2^r.2`.
fn normalize(fmt: Format, a: u64) -> (r: (u64, u32, u32))
    requires
        0 < a < fmt.infinity(),
    ensures
        fmt.hidden() <= r.0 < 2 * fmt.hidden(),
        r.1 < fmt.prec(),
        r.2 < fmt.top_exp(),
        fmt.abs_magnitude(a as nat) * pow2(r.1 as nat) == r.0 * pow2(r.2 as nat),
{
    let h = fmt.hidden_bit();
    let e = a / h;
    let f = a % h;
    proof {
        lemma2_to64();
        fmt.lemma_constants();
        lemma_fundamental_div_mod(a as int, h as int);
        assert(e <= fmt.top_exp()) by (nonlinear_arith)
            requires
                a == h * e + f,
                0 <= f,
                a < (fmt.top_exp() + 1) * h,
                h > 0,
        ;
    }
    if e == 0 {
        let (sig, z) = shift_to_top(fmt, f);
        proof {
            assert(sig * 1 == sig) by (nonlinear_arith);
        }
        (sig, z, 0)
    } else {
        proof {
            let m = fmt.abs_magnitude(a as nat);
            assert(m * 1 == m) by (nonlinear_arith);
        }
        (h + f, 0, (e - 1) as u32)
    }
}

/// Rounds `(n0 / d0) * 2^up / 2^down` to the format, given the whole part
/// `q` of `n0 / d0`, the count `len` of its bits, and whether `n0 / d0`
/// exceeds `q`.
fn round_pack(
    fmt: Format,
    negative: bool,
    q: u128,
    sticky: bool,
    len: u32,
    up: u32,
    down: u32,
    Ghost(n0): Ghost<nat>,
    Ghost(d0): Ghost<nat>,
) -> (out: Option<u64>)
    requires
        d0 > 0,
        d0 * q <= n0 < d0 * (q + 1),
        sticky == (n0 != d0 * q),
        fmt.prec() < len <= 120,
        pow2((len - 1) as nat) <= q < pow2(len as nat),
        up <= 0x10000,
        down <= 0x10000,
    ensures
        out == fmt.pack(
            negative,
            round_to_grid(fmt.prec(), n0 * pow2(up as nat), d0 * pow2(down as nat)),
        ),
        out matches Some(r) ==> fmt.is_finite(r),
{
    let p = fmt.precision();
    let h = fmt.hidden_bit();
    let t: u32 = if len + up >= down + p {
        len + up - down - p
    } else {
        0
    };
    let k: u32 = t + down - up;
    let ghost n = n0 * pow2(up as nat);
    let ghost d = d0 * pow2(down as nat);
    proof {
        fmt.lemma_constants();
        lemma_pow2_pos(down as nat);
        assert(d > 0) by (nonlinear_arith)
            requires
                d == d0 * pow2(down as nat),
                d0 > 0,
                pow2(down as nat) > 0,
        ;
        lemma_round_to_grid_shifted(
            p as nat,
            n0,
            d0,
            q as nat,
            len as nat,
            up as nat,
            down as nat,
        );
        lemma_round_to_grid_range(p as nat, n, d);
    }
    let ghost m_spec = round_shifted(q as nat, sticky, pow2(k as nat));
    assert(m_spec <= 2 * h);
    assert(t > 0 ==> m_spec >= h);
    let m: u64 = if k > len {
        proof {
            lemma_pow2_mul_mono(1, len as nat, (k - 1) as nat);
            lemma_round_shifted_small(q as nat, sticky, k as nat);
        }
        0
    } else {
        let g = pow2_u128(k);
        proof {
            lemma_pow2_pos(k as nat);
            lemma_pow2_unfold(k as nat);
        }
        let m0 = q / g;
        let r = q % g;
        let half = g / 2;
        if r > half || (r == half && (sticky || m0 % 2 == 1)) {
            (m0 + 1) as u64
        } else {
            m0 as u64
        }
    };
    assert(m == m_spec);
    proof {
        fmt.lemma_finite_below_limit(m as nat, t as nat);
        fmt.lemma_encode(m as nat, t as nat);
        assert((t as nat) * (h as nat) <= 0x30000 * h) by (nonlinear_arith)
            requires
                t <= 0x30000,
        ;
    }
    let abs: u128 = (t as u128) * (h as u128) + (m as u128);
    if abs >= fmt.infinity_bits() as u128 {
        None
    } else if negative {
        Some(fmt.sign_bit() + abs as u64)
    } else {
        Some(abs as u64)
    }
}

/// The product of two naturals from a range lies between the squares of
/// its ends.
proof fn lemma_mul_range(a: nat, b: nat, lo: nat, hi: nat)
    by (nonlinear_arith)
    requires
        lo <= a < hi,
        lo <= b < hi,
    ensures
        lo * lo <= a * b < hi * hi,
{
}

/// The number zero with the given sign.
fn signed_zero(fmt: Format, negative: bool) -> (z: u64)
    ensures
        fmt.pack(negative, 0) == Some(z),
        z == fmt.with_magnitude(negative, 0),
        fmt.is_finite(z),
{
    proof {
        lemma2_to64();
        fmt.lemma_constants();
        fmt.lemma_encode(0, 0);
        fmt.lemma_finite_below_limit(0, 0);
        assert(0 * pow2(0) == 0) by (nonlinear_arith);
        assert(0 * fmt.hidden() == 0) by (nonlinear_arith);
    }
    if negative {
        fmt.sign_bit()
    } else {
        0
    }
}

/// Multiplies two numbers.
///
/// The result is the exact product rounded to the nearest number of the
/// format, ties to even, with the sign that the signs of the factors give.
/// It is `None` where the product is no finite number: a factor is not
/// finite, or the rounded product is too large.
pub fn multiply(fmt: Format, a: u64, b: u64) -> (out: Option<u64>)
    ensures
        out == product(fmt, a, b),
        out matches Some(r) ==> fmt.is_finite(r),
{
    if !fmt.finite(a) || !fmt.finite(b) {
        return None;
    }
    let negative = fmt.sign_of(a) != fmt.sign_of(b);
    let x = fmt.abs_of(a);
    let y = fmt.abs_of(b);
    let ghost ma = fmt.magnitude(a);
    let ghost mb = fmt.magnitude(b);
    let ghost unit = fmt.unit();
    proof {
        fmt.lemma_constants();
        lemma_pow2_pos(fmt.unit_shift());
    }
    if x == 0 || y == 0 {
        proof {
            assert(ma * mb == 0) by (nonlinear_arith)
                requires
                    ma == 0 || mb == 0,
            ;
            lemma_round_to_grid_zero(fmt.prec(), unit);
        }
        return Some(signed_zero(fmt, negative));
    }
    let p = fmt.precision();
    let h = fmt.hidden_bit();
    let bias = fmt.unit_exponent();
    let (sa, za, ta) = normalize(fmt, x);
    let (sb, zb, tb) = normalize(fmt, y);
    proof {
        lemma_mul_range(sa as nat, sb as nat, h as nat, (2 * h) as nat);
        lemma_mul_range(h as nat, h as nat, 0, 0x10_0000_0000_0001);
        assert((2 * h) * (2 * h) == 4 * (h * h)) by (nonlinear_arith);
    }
    let q: u128 = (sa as u128) * (sb as u128);
    let hh: u128 = (h as u128) * (h as u128);
    let len: u32 = if q >= 2 * hh {
        2 * p
    } else {
        2 * p - 1
    };
    let up = ta + tb;
    let down = za + zb + bias;
    proof {
        let pza = pow2(za as nat);
        let pzb = pow2(zb as nat);
        let pta = pow2(ta as nat);
        let ptb = pow2(tb as nat);
        let c = pow2((za + zb) as nat);
        lemma_pow2_adds(za as nat, zb as nat);
        lemma_pow2_adds(ta as nat, tb as nat);
        lemma_pow2_adds((za + zb) as nat, bias as nat);
        lemma_pow2_pos((za + zb) as nat);
        // The count of bits of the product.
        lemma_pow2_adds((p - 1) as nat, (p - 1) as nat);
        lemma_pow2_unfold((2 * p - 1) as nat);
        lemma_pow2_unfold((2 * p) as nat);
        assert(pow2((2 * p - 2) as nat) == h * h);
        // Both sides of the rounding, brought to a common factor.
        let xa = sa * pta;
        let xb = sb * ptb;
        assert((sa * sb) * (pta * ptb) == xa * xb) by (nonlinear_arith)
            requires
                xa == sa * pta,
                xb == sb * ptb,
        ;
        assert(xa * xb == (ma * mb) * (pza * pzb)) by (nonlinear_arith)
            requires
                xa == ma * pza,
                xb == mb * pzb,
        ;
        assert(1 * (c * unit) == unit * c) by (nonlinear_arith);
        lemma_round_to_grid_scale(fmt.prec(), ma * mb, unit, c);
        assert(1 * q == q) by (nonlinear_arith);
    }
    round_pack(fmt, negative, q, false, len, up, down, Ghost(q as nat), Ghost(1))
}

/// Divides a number by a number.
///
/// The result is the exact quotient rounded to the nearest number of the
/// format, ties to even, with the sign that the signs of the operands give;
/// a finite number divided by an infinity is zero. It is `None` where the
/// quotient is no finite number: the dividend is not finite, the divisor is
/// zero or a NaN, or the rounded quotient is too large.
pub fn divide(fmt: Format, a: u64, b: u64) -> (out: Option<u64>)
    ensures
        out == quotient(fmt, a, b),
        out matches Some(r) ==> fmt.is_finite(r),
{
    let negative = fmt.sign_of(a) != fmt.sign_of(b);
    if !fmt.finite(a) {
        return None;
    }
    if !fmt.finite(b) {
        if fmt.abs_of(b) == fmt.infinity_bits() {
            return Some(signed_zero(fmt, negative));
        }
        return None;
    }
    let x = fmt.abs_of(a);
    let y = fmt.abs_of(b);
    let ghost ma = fmt.magnitude(a);
    let ghost mb = fmt.magnitude(b);
    let ghost unit = fmt.unit();
    let p = fmt.precision();
    let h = fmt.hidden_bit();
    let bias = fmt.unit_exponent();
    proof {
        fmt.lemma_constants();
        lemma_pow2_pos(fmt.unit_shift());
    }
    if y == 0 {
        return None;
    }
    let (sb, zb, tb) = normalize(fmt, y);
    proof {
        let pzb = pow2(zb as nat);
        let ptb = pow2(tb as nat);
        lemma_pow2_pos(tb as nat);
        assert(mb > 0) by (nonlinear_arith)
            requires
                mb * pzb == sb * ptb,
                sb > 0,
                ptb > 0,
        ;
    }
    if x == 0 {
        proof {
            assert(ma * unit == 0) by (nonlinear_arith)
                requires
                    ma == 0,
            ;
            lemma_round_to_grid_zero(fmt.prec(), mb);
        }
        return Some(signed_zero(fmt, negative));
    }
    let (sa, za, ta) = normalize(fmt, x);
    proof {
        lemma_mul_range(sa as nat, h as nat, h as nat, (2 * h) as nat);
        lemma_mul_range(h as nat, h as nat, 0, 0x10_0000_0000_0001);
        assert(sa * (4 * h) == 4 * (sa * h)) by (nonlinear_arith);
        assert((2 * h) * (2 * h) == 4 * (h * h)) by (nonlinear_arith);
        assert(sa * h < 2 * (h * h)) by (nonlinear_arith)
            requires
                sa < 2 * h,
                h > 0,
        ;
    }
    let num: u128 = (sa as u128) * (4 * (h as u128));
    let q: u128 = num / (sb as u128);
    let rem: u128 = num % (sb as u128);
    let sticky = rem != 0;
    proof {
        lemma_fundamental_div_mod(num as int, sb as int);
        lemma_mod_bound(num as int, sb as int);
        assert(2 * h <= q < 8 * h) by (nonlinear_arith)
            requires
                num == sb * q + rem,
                0 <= rem < sb,
                h <= sb < 2 * h,
                4 * (h * h) <= num < 8 * (h * h),
                h > 0,
        ;
        assert(sb * (q + 1) == sb * q + sb) by (nonlinear_arith);
    }
    let len: u32 = if q >= 4 * (h as u128) {
        p + 2
    } else {
        p + 1
    };
    let up = ta + zb + bias;
    let down = tb + za + p + 1;
    proof {
        let pza = pow2(za as nat);
        let pzb = pow2(zb as nat);
        let pta = pow2(ta as nat);
        let ptb = pow2(tb as nat);
        let pp1 = pow2((p + 1) as nat);
        let c0 = pow2((za + zb) as nat);
        let c = pow2((za + zb + p + 1) as nat);
        lemma_pow2_unfold((p + 1) as nat);
        lemma_pow2_unfold((p + 2) as nat);
        assert(pp1 == 4 * h);
        lemma_pow2_adds(za as nat, zb as nat);
        lemma_pow2_adds((za + zb) as nat, (p + 1) as nat);
        lemma_pow2_pos((za + zb + p + 1) as nat);
        // 2^up
        lemma_pow2_adds(ta as nat, zb as nat);
        lemma_pow2_adds((ta + zb) as nat, bias as nat);
        // 2^down
        lemma_pow2_adds(tb as nat, za as nat);
        lemma_pow2_adds((tb + za) as nat, (p + 1) as nat);
        let xa = sa * pta;
        let xb = sb * ptb;
        assert(num * ((pta * pzb) * unit) == (xa * unit) * (pzb * pp1)) by (nonlinear_arith)
            requires
                num == sa * pp1,
                xa == sa * pta,
        ;
        assert((xa * unit) * (pzb * pp1) == (ma * unit) * ((pza * pzb) * pp1)) by (nonlinear_arith)
            requires
                xa == ma * pza,
        ;
        assert(sb * ((ptb * pza) * pp1) == xb * (pza * pp1)) by (nonlinear_arith)
            requires
                xb == sb * ptb,
        ;
        assert(xb * (pza * pp1) == mb * ((pza * pzb) * pp1)) by (nonlinear_arith)
            requires
                xb == mb * pzb,
        ;
        lemma_round_to_grid_scale(fmt.prec(), ma * unit, mb, c);
    }
    round_pack(fmt, negative, q, sticky, len, up, down, Ghost(num as nat), Ghost(sb as nat))
}

/// Rounds a number to the nearest integer, ties to even.
///
/// The result has the sign of `a`, also where it is zero. An infinity or a
/// NaN is returned as it is.
pub fn round_integral(fmt: Format, a: u64) -> (out: u64)
    ensures
        out == integral(fmt, a),
        fmt.is_finite(out) == fmt.is_finite(a),
{
    if !fmt.finite(a) {
        return a;
    }
    let negative = fmt.sign_of(a);
    let x = fmt.abs_of(a);
    let p = fmt.precision();
    let h = fmt.hidden_bit();
    let bias = fmt.unit_exponent();
    let ghost unit = fmt.unit();
    let ghost mag = fmt.magnitude(a);
    let e = x / h;
    let f = x % h;
    proof {
        fmt.lemma_constants();
        lemma_pow2_pos(fmt.unit_shift());
        lemma_fundamental_div_mod(x as int, h as int);
        assert(e <= fmt.top_exp()) by (nonlinear_arith)
            requires
                x == h * e + f,
                0 <= f,
                x < (fmt.top_exp() + 1) * h,
                h > 0,
        ;
    }
    let s: u64 = if e == 0 {
        f
    } else {
        h + f
    };
    let t: u32 = if e == 0 {
        0
    } else {
        (e - 1) as u32
    };
    proof {
        lemma2_to64();
        assert(s * 1 == s) by (nonlinear_arith);
        assert(mag == s * pow2(t as nat));
    }
    if t >= bias {
        proof {
            // Already an integer: the magnitude is a multiple of the unit.
            let rest = pow2((t - bias) as nat);
            lemma_pow2_adds((t - bias) as nat, bias as nat);
            assert(mag == (s * rest) * unit) by (nonlinear_arith)
                requires
                    mag == s * (rest * unit),
            ;
            lemma_nearest_even_multiple((s * rest) as nat, unit);
            fmt.lemma_with_own_magnitude(a);
        }
        return a;
    }
    let k: u32 = bias - t;
    let ghost g_spec = pow2(k as nat);
    proof {
        // The nearest integer is decided on the significand alone.
        let w = pow2(t as nat);
        lemma_pow2_pos(t as nat);
        lemma_pow2_pos(k as nat);
        lemma_pow2_adds(k as nat, t as nat);
        lemma_pow2_unfold(k as nat);
        lemma_nearest_even_scale(s as nat, g_spec, w);
        assert(1 * g_spec == g_spec) by (nonlinear_arith);
        assert(1 * s == s && 1 * (s + 1) == s + 1) by (nonlinear_arith);
        lemma_round_shifted(s as nat, 1, s as nat, g_spec);
        assert(nearest_even(mag, unit) == round_shifted(s as nat, false, g_spec));
    }
    let kk: u64 = if k > p {
        proof {
            lemma_pow2_mul_mono(1, p as nat, (k - 1) as nat);
            lemma_round_shifted_small(s as nat, false, k as nat);
        }
        0
    } else {
        let g = pow2_u128(k);
        let m0 = (s as u128) / g;
        let r = (s as u128) % g;
        let half = g / 2;
        proof {
            lemma_div_is_ordered_by_denominator(s as int, 2, g as int);
        }
        if r > half || (r == half && m0 % 2 == 1) {
            (m0 + 1) as u64
        } else {
            m0 as u64
        }
    };
    assert(kk == nearest_even(mag, unit));
    assert(kk <= h);
    if kk == 0 {
        proof {
            assert(0 * unit == 0) by (nonlinear_arith);
        }
        return signed_zero(fmt, negative);
    }
    let (sig, z) = shift_to_top(fmt, kk);
    let t2: u32 = bias - z;
    proof {
        let pz = pow2(z as nat);
        let w2 = pow2(t2 as nat);
        lemma_pow2_adds(z as nat, t2 as nat);
        assert(kk * unit == sig * w2) by (nonlinear_arith)
            requires
                sig == kk * pz,
                unit == pz * w2,
        ;
        fmt.lemma_encode(sig as nat, t2 as nat);
        assert(t2 * h + sig < fmt.infinity()) by (nonlinear_arith)
            requires
                fmt.infinity() == (fmt.top_exp() + 1) * h,
                t2 + 1 < fmt.top_exp(),
                sig < 2 * h,
        ;
        assert(t2 * h >= 0) by (nonlinear_arith)
            requires
                t2 >= 0,
                h >= 0,
        ;
    }
    let abs: u64 = (t2 as u64) * h + sig;
    if negative {
        fmt.sign_bit() + abs
    } else {
        abs
    }
}

/// A ratio rounded to the format and packed is a finite number with the
/// given sign whose magnitude is the rounded ratio; there is none exactly
/// if the rounded ratio reaches the limit of the format.
pub proof fn lemma_pack_rounded(fmt: Format, negative: bool, n: nat, d: nat)
    requires
        d > 0,
    ensures
        match fmt.pack(negative, round_to_grid(fmt.prec(), n, d)) {
            Some(x) => {
                &&& fmt.is_finite(x)
                &&& fmt.is_negative(x) == negative
                &&& fmt.magnitude(x) == round_to_grid(fmt.prec(), n, d)
            },
            None => round_to_grid(fmt.prec(), n, d) >= fmt.limit(),
        },
{
    let p = fmt.prec();
    let t = grid_exp(p, n, d);
    lemma_pow2_pos(t);
    let m = nearest_even(n, (d * pow2(t)) as nat);
    fmt.lemma_constants();
    lemma_round_to_grid_range(p, n, d);
    if m * pow2(t) < fmt.limit() {
        fmt.lemma_with_magnitude(negative, m, t);
    }
}

/// The product of two finite numbers, where there is one, is the finite
/// number whose sign is negative exactly if one factor is, and whose
/// magnitude is the exact product of the magnitudes, counted in units of
/// one, rounded to the precision of the format.
pub proof fn lemma_product_decoded(fmt: Format, a: u64, b: u64)
    requires
        fmt.is_finite(a),
        fmt.is_finite(b),
    ensures
        product(fmt, a, b) matches Some(x) ==> {
            &&& fmt.is_finite(x)
            &&& fmt.is_negative(x) == (fmt.is_negative(a) != fmt.is_negative(b))
            &&& fmt.magnitude(x) == round_to_grid(
                fmt.prec(),
                fmt.magnitude(a) * fmt.magnitude(b),
                fmt.unit(),
            )
        },
{
    lemma_pow2_pos(fmt.unit_shift());
    lemma_pack_rounded(
        fmt,
        fmt.is_negative(a) != fmt.is_negative(b),
        fmt.magnitude(a) * fmt.magnitude(b),
        fmt.unit(),
    );
}

/// The quotient of two finite numbers, where there is one, is the finite
/// number whose sign is negative exactly if one operand is, and whose
/// magnitude is the exact ratio of the magnitudes, counted in units of one,
/// rounded to the precision of the format.
pub proof fn lemma_quotient_decoded(fmt: Format, a: u64, b: u64)
    requires
        fmt.is_finite(a),
        fmt.is_finite(b),
    ensures
        quotient(fmt, a, b) matches Some(x) ==> {
            &&& fmt.magnitude(b) > 0
            &&& fmt.is_finite(x)
            &&& fmt.is_negative(x) == (fmt.is_negative(a) != fmt.is_negative(b))
            &&& fmt.magnitude(x) == round_to_grid(
                fmt.prec(),
                fmt.magnitude(a) * fmt.unit(),
                fmt.magnitude(b),
            )
        },
{
    if fmt.magnitude(b) > 0 {
        lemma_pack_rounded(
            fmt,
            fmt.is_negative(a) != fmt.is_negative(b),
            fmt.magnitude(a) * fmt.unit(),
            fmt.magnitude(b),
        );
    }
}

/// Multiplying or dividing a finite number by one gives the number itself.
pub proof fn lemma_one_is_neutral(fmt: Format, v: u64)
    requires
        fmt.is_finite(v),
    ensures
        product(fmt, v, fmt.one()) == Some(v),
        quotient(fmt, v, fmt.one()) == Some(v),
{
    let p = fmt.prec();
    let unit = fmt.unit();
    let mag = fmt.magnitude(v);
    fmt.lemma_constants();
    fmt.lemma_one();
    lemma_pow2_pos(fmt.unit_shift());
    let st = fmt.lemma_decompose(fmt.abs(v));
    lemma_round_to_grid_exact(p, st.0, st.1);
    lemma_round_to_grid_scale(p, mag, 1, unit);
    assert(1 * unit == unit) by (nonlinear_arith);
    fmt.lemma_with_own_magnitude(v);
}

/// A finite number without a fractional part is its own nearest integer.
pub proof fn lemma_integral_of_integer(fmt: Format, v: u64)
    requires
        fmt.is_integral(v),
    ensures
        integral(fmt, v) == v,
{
    let unit = fmt.unit();
    let mag = fmt.magnitude(v);
    lemma_pow2_pos(fmt.unit_shift());
    lemma_fundamental_div_mod(mag as int, unit as int);
    let j = mag / unit;
    assert(mag == j * unit) by (nonlinear_arith)
        requires
            mag == unit * j + 0,
    ;
    lemma_nearest_even_multiple(j, unit);
    fmt.lemma_with_own_magnitude(v);
}

/// Correct rounding of the product: no finite number of the format is
/// nearer to the exact product of two finite numbers than their rounded
/// product.
pub proof fn lemma_product_is_nearest(fmt: Format, a: u64, b: u64, y: u64)
    requires
        fmt.is_finite(a),
        fmt.is_finite(b),
        fmt.is_finite(y),
    ensures
        product(fmt, a, b) matches Some(x) ==> distance(
            fmt.magnitude(x),
            fmt.magnitude(a) * fmt.magnitude(b),
            fmt.unit(),
        ) <= distance(fmt.magnitude(y), fmt.magnitude(a) * fmt.magnitude(b), fmt.unit()),
{
    lemma_pow2_pos(fmt.unit_shift());
    lemma_product_decoded(fmt, a, b);
    fmt.lemma_magnitude_representable(y);
    lemma_round_to_grid_is_nearest(
        fmt.prec(),
        fmt.magnitude(a) * fmt.magnitude(b),
        fmt.unit(),
        fmt.magnitude(y),
    );
}

/// Correct rounding of the quotient: no finite number of the format is
/// nearer to the exact quotient of two finite numbers than their rounded
/// quotient.
pub proof fn lemma_quotient_is_nearest(fmt: Format, a: u64, b: u64, y: u64)
    requires
        fmt.is_finite(a),
        fmt.is_finite(b),
        fmt.is_finite(y),
    ensures
        quotient(fmt, a, b) matches Some(x) ==> distance(
            fmt.magnitude(x),
            fmt.magnitude(a) * fmt.unit(),
            fmt.magnitude(b),
        ) <= distance(fmt.magnitude(y), fmt.magnitude(a) * fmt.unit(), fmt.magnitude(b)),
{
    if fmt.magnitude(b) > 0 {
        lemma_quotient_decoded(fmt, a, b);
        fmt.lemma_magnitude_representable(y);
        lemma_round_to_grid_is_nearest(
            fmt.prec(),
            fmt.magnitude(a) * fmt.unit(),
            fmt.magnitude(b),
            fmt.magnitude(y),
        );
    }
}

/// The nearest integer to a finite number is a finite number of the format
/// with the same sign, and its magnitude is the nearest whole count of
/// units.
pub proof fn lemma_integral_decoded(fmt: Format, a: u64)
    requires
        fmt.is_finite(a),
    ensures
        fmt.is_finite(integral(fmt, a)),
        fmt.is_negative(integral(fmt, a)) == fmt.is_negative(a),
        fmt.magnitude(integral(fmt, a)) == nearest_even(fmt.magnitude(a), fmt.unit()) * fmt.unit(),
        fmt.is_integral(integral(fmt, a)),
{
    let p = fmt.prec();
    let h = fmt.hidden();
    let unit = fmt.unit();
    let mag = fmt.magnitude(a);
    let k = nearest_even(mag, unit);
    let x = k * unit;
    fmt.lemma_constants();
    lemma_pow2_pos(fmt.unit_shift());
    let st = fmt.lemma_decompose(fmt.abs(a));
    let w = pow2(st.1);
    lemma_pow2_pos(st.1);
    // The integer is at most the magnitude rounded up to the next power
    // of two, so it fits the format.
    if st.1 >= fmt.unit_shift() {
        let rest = pow2((st.1 - fmt.unit_shift()) as nat);
        lemma_pow2_adds((st.1 - fmt.unit_shift()) as nat, fmt.unit_shift());
        assert(mag == (st.0 * rest) * unit) by (nonlinear_arith)
            requires
                mag == st.0 * (rest * unit),
        ;
        lemma_nearest_even_multiple(st.0 * rest, unit);
        fmt.lemma_magnitude_representable(a);
        fmt.lemma_with_own_magnitude(a);
    } else {
        lemma_pow2_mul_mono(1, st.1 + 1, fmt.unit_shift());
        lemma_pow2_unfold(st.1 + 1);
        assert(mag < unit * h) by (nonlinear_arith)
            requires
                mag == st.0 * w,
                st.0 < 2 * h,
                2 * w <= unit,
                w > 0,
        ;
        assert(unit * 0 == 0) by (nonlinear_arith);
        lemma_nearest_even_range(mag, unit, 0, h);
        lemma_fundamental_div_mod_converse(x as int, unit as int, k as int, 0);
        let top = pow2(p);
        assert(x < top * unit) by (nonlinear_arith)
            requires
                x == k * unit,
                k < top,
                unit > 0,
        ;
        assert(representable(p, x));
        lemma_pow2_strictly_increases(fmt.unit_shift(), fmt.top_exp());
        let lim = pow2(fmt.top_exp());
        assert(x < h * lim) by (nonlinear_arith)
            requires
                x == k * unit,
                k <= h,
                unit < lim,
                h > 0,
        ;
    }
    lemma_representable_rounds_to_itself(p, x);
    lemma_pack_rounded(fmt, fmt.is_negative(a), x, 1);
    lemma_fundamental_div_mod_converse(x as int, unit as int, k as int, 0);
}

/// A product or a quotient, where there is one, is a finite number.
pub proof fn lemma_results_are_finite(fmt: Format, a: u64, b: u64)
    ensures
        product(fmt, a, b) matches Some(x) ==> fmt.is_finite(x),
        quotient(fmt, a, b) matches Some(x) ==> fmt.is_finite(x),
{
    if fmt.is_finite(a) && fmt.is_finite(b) {
        lemma_product_decoded(fmt, a, b);
        lemma_quotient_decoded(fmt, a, b);
    } else if fmt.is_finite(a) {
        lemma2_to64();
        fmt.lemma_constants();
        assert(0 * pow2(0) == 0) by (nonlinear_arith);
        assert(0 * fmt.hidden() == 0) by (nonlinear_arith);
        fmt.lemma_finite_below_limit(0, 0);
        fmt.lemma_with_magnitude(fmt.is_negative(a) != fmt.is_negative(b), 0, 0);
    }
}

} // verus!

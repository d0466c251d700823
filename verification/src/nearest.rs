//! Rounding a ratio of two naturals: to the nearest integer, and to the
//! nearest number that has a bounded count of significant bits.
//!
//! A ratio `n / d` stands for the exact rational number; nothing here
//! truncates it before it is rounded. Ties go to the even neighbour.

use vstd::arithmetic::div_mod::*;
use vstd::arithmetic::power2::*;
use vstd::prelude::*;

verus! {

/// The integer nearest to `n / d`; of two equally near, the even one.
pub open spec fn nearest_even(n: nat, d: nat) -> nat
    recommends
        d > 0,
{
    let f = n / d;
    let r = n % d;
    if 2 * r < d || (2 * r == d && f % 2 == 0) {
        f
    } else {
        (f + 1) as nat
    }
}

/// The exponent of the grid of numbers with at most `p` significant bits
/// around `n / d`: the least `t` with `n / d < 2^(p + t)`.
///
/// Numbers from `2^(p + t - 1)` up to `2^(p + t)` that have at most `p`
/// significant bits are the multiples of `2^t`.
pub open spec fn grid_exp(p: nat, n: nat, d: nat) -> nat
    recommends
        d > 0,
    decreases n,
{
    if n == 0 || d == 0 || n < d * pow2(p) {
        0
    } else {
        (1 + grid_exp(p, n / 2, d)) as nat
    }
}

/// `n / d` rounded to the nearest natural with at most `p` significant
/// bits, ties to the one whose last significant bit is zero.
pub open spec fn round_to_grid(p: nat, n: nat, d: nat) -> nat
    recommends
        d > 0,
{
    let t = grid_exp(p, n, d);
    (nearest_even(n, (d * pow2(t)) as nat) * pow2(t)) as nat
}

/// What is left of `q + e`, where `0 <= e < 1` and `sticky` says whether
/// `e` is positive, after division by the even number `g` and rounding to
/// the nearest integer, ties to even.
pub open spec fn round_shifted(q: nat, sticky: bool, g: nat) -> nat
    recommends
        g > 0,
        g % 2 == 0,
{
    let m = q / g;
    let r = q % g;
    let half = g / 2;
    if r > half || (r == half && (sticky || m % 2 == 1)) {
        (m + 1) as nat
    } else {
        m
    }
}

/// Multiplying by a power of two is monotonic in the exponent.
pub proof fn lemma_pow2_mul_mono(d: nat, a: nat, b: nat)
    requires
        a <= b,
    ensures
        d * pow2(a) <= d * pow2(b),
{
    if a < b {
        lemma_pow2_strictly_increases(a, b);
    }
    let x = pow2(a);
    let y = pow2(b);
    assert(d * x <= d * y) by (nonlinear_arith)
        requires
            x <= y,
    ;
}

/// `grid_exp` is the least exponent whose grid reaches above `n / d`.
pub proof fn lemma_grid_exp_bounds(p: nat, n: nat, d: nat)
    requires
        d > 0,
    ensures
        n < d * pow2(p + grid_exp(p, n, d)),
        grid_exp(p, n, d) > 0 ==> d * pow2((p + grid_exp(p, n, d) - 1) as nat) <= n,
    decreases n,
{
    lemma_pow2_pos(p);
    let base = pow2(p);
    assert(0 < d * base) by (nonlinear_arith)
        requires
            d > 0,
            base > 0,
    ;
    if n == 0 || n < d * pow2(p) {
    } else {
        let t1 = grid_exp(p, n / 2, d);
        lemma_grid_exp_bounds(p, n / 2, d);
        assert(grid_exp(p, n, d) == 1 + t1);
        let hi = pow2(p + t1);
        lemma_pow2_unfold(p + t1 + 1);
        assert(pow2(p + t1 + 1) == 2 * hi);
        assert(d * (2 * hi) == 2 * (d * hi)) by (nonlinear_arith);
        if t1 > 0 {
            let lo = pow2((p + t1 - 1) as nat);
            lemma_pow2_unfold(p + t1);
            assert(hi == 2 * lo);
            assert(d * (2 * lo) == 2 * (d * lo)) by (nonlinear_arith);
        }
    }
}

/// The bounds of `lemma_grid_exp_bounds` hold of one exponent only.
pub proof fn lemma_grid_exp_unique(p: nat, n: nat, d: nat, t: nat)
    requires
        d > 0,
        n < d * pow2(p + t),
        t > 0 ==> d * pow2((p + t - 1) as nat) <= n,
    ensures
        grid_exp(p, n, d) == t,
{
    let g = grid_exp(p, n, d);
    lemma_grid_exp_bounds(p, n, d);
    if g < t {
        lemma_pow2_mul_mono(d, p + g, (p + t - 1) as nat);
    } else if g > t {
        lemma_pow2_mul_mono(d, p + t, (p + g - 1) as nat);
    }
}

/// A common factor of numerator and denominator does not change the
/// nearest integer.
pub proof fn lemma_nearest_even_scale(n: nat, d: nat, c: nat)
    requires
        d > 0,
        c > 0,
    ensures
        nearest_even(n * c, d * c) == nearest_even(n, d),
{
    lemma_div_multiples_vanish_quotient(c as int, n as int, d as int);
    lemma_truncate_middle(n as int, c as int, d as int);
    assert(n * c == c * n) by (nonlinear_arith);
    assert(d * c == c * d) by (nonlinear_arith);
    let r = n % d;
    assert((n * c) % (d * c) == c * r);
    assert((n * c) / (d * c) == n / d);
    assert((2 * (c * r) < c * d) == (2 * r < d)) by (nonlinear_arith)
        requires
            c > 0,
    ;
    assert((2 * (c * r) == c * d) == (2 * r == d)) by (nonlinear_arith)
        requires
            c > 0,
    ;
}

/// Rounding after a division by an even number can be decided on the whole
/// part `q` of the dividend and on whether anything lies above it.
pub proof fn lemma_round_shifted(n0: nat, d0: nat, q: nat, g: nat)
    requires
        d0 > 0,
        g > 0,
        g % 2 == 0,
        d0 * q <= n0 < d0 * (q + 1),
    ensures
        nearest_even(n0, d0 * g) == round_shifted(q, n0 != d0 * q, g),
{
    let m = q / g;
    let r = q % g;
    let half = g / 2;
    let rho = n0 - d0 * q;
    lemma_fundamental_div_mod(q as int, g as int);
    lemma_mod_bound(q as int, g as int);
    let big = d0 * g;
    let rem = d0 * r + rho;
    assert(rho < d0) by (nonlinear_arith)
        requires
            n0 < d0 * (q + 1),
            rho == n0 - d0 * q,
    ;
    assert(n0 == m * big + rem) by (nonlinear_arith)
        requires
            n0 == d0 * q + rho,
            q == g * m + r,
            big == d0 * g,
            rem == d0 * r + rho,
    ;
    assert(0 <= rem < big) by (nonlinear_arith)
        requires
            0 <= r < g,
            0 <= rho < d0,
            big == d0 * g,
            rem == d0 * r + rho,
    ;
    lemma_fundamental_div_mod_converse(n0 as int, big as int, m as int, rem);
    assert(big == 2 * (d0 * half)) by (nonlinear_arith)
        requires
            g == 2 * half,
            big == d0 * g,
    ;
    if r > half {
        assert(d0 * r >= d0 * half + d0) by (nonlinear_arith)
            requires
                r >= half + 1,
                d0 > 0,
        ;
    } else if r < half {
        assert(d0 * r + d0 <= d0 * half) by (nonlinear_arith)
            requires
                r + 1 <= half,
                d0 > 0,
        ;
    }
}

/// A common factor of numerator and denominator does not change the grid.
pub proof fn lemma_grid_exp_scale(p: nat, n: nat, d: nat, c: nat)
    requires
        d > 0,
        c > 0,
    ensures
        grid_exp(p, n * c, d * c) == grid_exp(p, n, d),
{
    let t = grid_exp(p, n, d);
    lemma_grid_exp_bounds(p, n, d);
    let hi = pow2(p + t);
    assert(n * c < (d * c) * hi) by (nonlinear_arith)
        requires
            n < d * hi,
            c > 0,
    ;
    if t > 0 {
        let lo = pow2((p + t - 1) as nat);
        assert((d * c) * lo <= n * c) by (nonlinear_arith)
            requires
                d * lo <= n,
                c > 0,
        ;
    }
    assert(d * c > 0) by (nonlinear_arith)
        requires
            d > 0,
            c > 0,
    ;
    lemma_grid_exp_unique(p, n * c, d * c, t);
}

/// A common factor of numerator and denominator does not change the
/// rounded number.
pub proof fn lemma_round_to_grid_scale(p: nat, n: nat, d: nat, c: nat)
    requires
        d > 0,
        c > 0,
    ensures
        round_to_grid(p, n * c, d * c) == round_to_grid(p, n, d),
{
    let t = grid_exp(p, n, d);
    lemma_grid_exp_scale(p, n, d, c);
    lemma_pow2_pos(t);
    let w = pow2(t);
    assert((d * c) * w == (d * w) * c) by (nonlinear_arith);
    assert(d * w > 0) by (nonlinear_arith)
        requires
            d > 0,
            w > 0,
    ;
    lemma_nearest_even_scale(n, d * w, c);
}

/// A number that has at most `p` significant bits rounds to itself.
pub proof fn lemma_round_to_grid_exact(p: nat, s: nat, t: nat)
    requires
        p > 0,
        s < pow2(p),
        t > 0 ==> pow2((p - 1) as nat) <= s,
    ensures
        round_to_grid(p, s * pow2(t), 1) == s * pow2(t),
{
    let w = pow2(t);
    lemma_pow2_pos(t);
    lemma_pow2_adds(p, t);
    let top = pow2(p);
    assert(s * w < top * w) by (nonlinear_arith)
        requires
            s < top,
            w > 0,
    ;
    if t > 0 {
        lemma_pow2_adds((p - 1) as nat, t);
        let low = pow2((p - 1) as nat);
        assert(low * w <= s * w) by (nonlinear_arith)
            requires
                low <= s,
                w > 0,
        ;
        assert(p - 1 + t == p + t - 1);
    }
    lemma_grid_exp_unique(p, s * w, 1, t);
    lemma_fundamental_div_mod_converse((s * w) as int, w as int, s as int, 0);
}

/// The nearest integer is not below the whole part of the ratio and at most
/// one above it.
pub proof fn lemma_nearest_even_range(n: nat, d: nat, lo: nat, hi: nat)
    requires
        d > 0,
        d * lo <= n < d * hi,
    ensures
        lo <= nearest_even(n, d) <= hi,
{
    let f = n / d;
    lemma_fundamental_div_mod(n as int, d as int);
    lemma_mod_bound(n as int, d as int);
    let r = n % d;
    assert(lo <= f) by (nonlinear_arith)
        requires
            d * lo <= n,
            n == d * f + r,
            r < d,
            d > 0,
    ;
    assert(f < hi) by (nonlinear_arith)
        requires
            n < d * hi,
            n == d * f + r,
            0 <= r,
            d > 0,
    ;
}

/// The rounded number has at most `p` significant bits: it is a multiple
/// `m` of `2^t` with `m <= 2^p`, and above the lowest grid `m` has its top
/// bit set.
pub proof fn lemma_round_to_grid_range(p: nat, n: nat, d: nat)
    requires
        p > 0,
        d > 0,
    ensures
        nearest_even(n, d * pow2(grid_exp(p, n, d))) <= pow2(p),
        grid_exp(p, n, d) > 0 ==> pow2((p - 1) as nat) <= nearest_even(
            n,
            d * pow2(grid_exp(p, n, d)),
        ),
{
    let t = grid_exp(p, n, d);
    lemma_grid_exp_bounds(p, n, d);
    lemma_pow2_pos(t);
    let w = pow2(t);
    let big = d * w;
    assert(big > 0) by (nonlinear_arith)
        requires
            big == d * w,
            d > 0,
            w > 0,
    ;
    lemma_pow2_adds(p, t);
    let top = pow2(p);
    assert(d * (top * w) == big * top) by (nonlinear_arith)
        requires
            big == d * w,
    ;
    assert(p + t == t + p);
    if t > 0 {
        lemma_pow2_adds((p - 1) as nat, t);
        let low = pow2((p - 1) as nat);
        assert(p - 1 + t == p + t - 1);
        assert(d * (low * w) == big * low) by (nonlinear_arith)
            requires
                big == d * w,
        ;
        lemma_nearest_even_range(n, big, low, top);
    } else {
        assert(big * 0 == 0) by (nonlinear_arith);
        lemma_nearest_even_range(n, big, 0, top);
    }
}

/// Rounding `(n0 / d0) * 2^up / 2^down` to `p` significant bits, where the
/// whole part `q` of `n0 / d0` has `len > p` bits: the grid follows from
/// `len` and the two exponents, and the rounded number from `q` and from
/// whether `n0 / d0` exceeds `q`.
pub proof fn lemma_round_to_grid_shifted(
    p: nat,
    n0: nat,
    d0: nat,
    q: nat,
    len: nat,
    up: nat,
    down: nat,
)
    requires
        d0 > 0,
        d0 * q <= n0 < d0 * (q + 1),
        len > p,
        pow2((len - 1) as nat) <= q < pow2(len),
    ensures
        ({
            let t = if len + up >= down + p {
                (len + up - down - p) as nat
            } else {
                0
            };
            let k = (t + down - up) as nat;
            &&& t + down - up >= 1
            &&& grid_exp(p, n0 * pow2(up), d0 * pow2(down)) == t
            &&& nearest_even(n0 * pow2(up), d0 * pow2(down) * pow2(t)) == round_shifted(
                q,
                n0 != d0 * q,
                pow2(k),
            )
            &&& round_to_grid(p, n0 * pow2(up), d0 * pow2(down)) == round_shifted(
                q,
                n0 != d0 * q,
                pow2(k),
            ) * pow2(t)
        }),
{
    let t = if len + up >= down + p {
        (len + up - down - p) as nat
    } else {
        0
    };
    let k = (t + down - up) as nat;
    let u = pow2(up);
    let dn = pow2(down);
    let n = n0 * u;
    let d = d0 * dn;
    lemma_pow2_pos(up);
    lemma_pow2_pos(down);
    assert(d > 0) by (nonlinear_arith)
        requires
            d == d0 * dn,
            d0 > 0,
            dn > 0,
    ;
    // The grid.
    let full = pow2(len);
    lemma_pow2_adds(len, up);
    assert(n0 < d0 * full) by (nonlinear_arith)
        requires
            n0 < d0 * (q + 1),
            q + 1 <= full,
    ;
    assert(n < d0 * (full * u)) by (nonlinear_arith)
        requires
            n == n0 * u,
            n0 < d0 * full,
            u > 0,
    ;
    lemma_pow2_mul_mono(d0, len + up, down + (p + t));
    lemma_pow2_adds(down, p + t);
    let hi = pow2(p + t);
    assert(d0 * (dn * hi) == d * hi) by (nonlinear_arith)
        requires
            d == d0 * dn,
    ;
    assert(n < d * pow2(p + t));
    if t > 0 {
        let lo = pow2((p + t - 1) as nat);
        let half_full = pow2((len - 1) as nat);
        lemma_pow2_adds(down, (p + t - 1) as nat);
        lemma_pow2_adds((len - 1) as nat, up);
        assert(down + (p + t - 1) == (len - 1) + up);
        assert(d * lo == d0 * (half_full * u)) by (nonlinear_arith)
            requires
                d == d0 * dn,
                dn * lo == half_full * u,
        ;
        assert(d0 * (half_full * u) <= n) by (nonlinear_arith)
            requires
                n == n0 * u,
                d0 * q <= n0,
                half_full <= q,
                u > 0,
        ;
    }
    lemma_grid_exp_unique(p, n, d, t);
    // The nearest multiple.
    let w = pow2(t);
    let g = pow2(k);
    lemma_pow2_adds(down, t);
    lemma_pow2_adds(up, k);
    assert(down + t == up + k);
    assert(d * w == (d0 * g) * u) by (nonlinear_arith)
        requires
            d == d0 * dn,
            dn * w == u * g,
    ;
    lemma_pow2_pos(k);
    assert(d0 * g > 0) by (nonlinear_arith)
        requires
            d0 > 0,
            g > 0,
    ;
    lemma_nearest_even_scale(n0, d0 * g, u);
    lemma_pow2_unfold(k);
    lemma_round_shifted(n0, d0, q, g);
}

/// A whole multiple of the denominator rounds to its factor.
pub proof fn lemma_nearest_even_multiple(j: nat, d: nat)
    requires
        d > 0,
    ensures
        nearest_even(j * d, d) == j,
{
    lemma_fundamental_div_mod_converse((j * d) as int, d as int, j as int, 0);
}

/// Zero rounds to zero.
pub proof fn lemma_round_to_grid_zero(p: nat, d: nat)
    requires
        d > 0,
    ensures
        round_to_grid(p, 0, d) == 0,
{
    lemma2_to64();
    assert(d * 1 == d) by (nonlinear_arith);
    assert(0 * d == 0) by (nonlinear_arith);
    lemma_nearest_even_multiple(0, d);
    assert(grid_exp(p, 0, d) == 0);
    let m = nearest_even(0, d * pow2(0));
    assert(m * pow2(0) == 0) by (nonlinear_arith)
        requires
            m == 0,
    ;
}

/// How far the natural `x` is from `n / d`, counted in parts of `d`.
pub open spec fn distance(x: nat, n: nat, d: nat) -> nat {
    if x * d >= n {
        (x * d - n) as nat
    } else {
        (n - x * d) as nat
    }
}

/// Whether `x` has at most `p` significant bits: it is a multiple of a
/// power of two and less than `2^p` times that power.
pub open spec fn representable(p: nat, x: nat) -> bool {
    exists|t: nat| x % pow2(t) == 0 && x < pow2(p) * #[trigger] pow2(t)
}

/// No integer is nearer to `n / d` than `nearest_even(n, d)`.
pub proof fn lemma_nearest_even_is_nearest(n: nat, d: nat, k: nat)
    requires
        d > 0,
    ensures
        distance(nearest_even(n, d), n, d) <= distance(k, n, d),
{
    let f = n / d;
    let r = n % d;
    lemma_fundamental_div_mod(n as int, d as int);
    lemma_mod_bound(n as int, d as int);
    let m = nearest_even(n, d);
    assert(m * d == f * d + (m - f) * d) by (nonlinear_arith);
    assert(f * d == d * f) by (nonlinear_arith);
    if k <= f {
        assert(k * d <= f * d) by (nonlinear_arith)
            requires
                k <= f,
                d > 0,
        ;
    } else {
        assert(k * d >= f * d + d) by (nonlinear_arith)
            requires
                k >= f + 1,
                d > 0,
        ;
    }
    if m == f {
        assert((m - f) * d == 0) by (nonlinear_arith)
            requires
                m == f,
        ;
    } else {
        assert((m - f) * d == d) by (nonlinear_arith)
            requires
                m == f + 1,
        ;
    }
}

/// Where another integer is as near to `n / d` as `nearest_even(n, d)`,
/// the latter is even.
pub proof fn lemma_nearest_even_tie(n: nat, d: nat, k: nat)
    requires
        d > 0,
        k != nearest_even(n, d),
        distance(k, n, d) == distance(nearest_even(n, d), n, d),
    ensures
        nearest_even(n, d) % 2 == 0,
{
    let f = n / d;
    let r = n % d;
    lemma_fundamental_div_mod(n as int, d as int);
    lemma_mod_bound(n as int, d as int);
    let m = nearest_even(n, d);
    assert(m * d == f * d + (m - f) * d) by (nonlinear_arith);
    assert(f * d == d * f) by (nonlinear_arith);
    if m == f {
        assert((m - f) * d == 0) by (nonlinear_arith)
            requires
                m == f,
        ;
    } else {
        assert((m - f) * d == d) by (nonlinear_arith)
            requires
                m == f + 1,
        ;
    }
    if k <= f {
        assert(k * d <= f * d) by (nonlinear_arith)
            requires
                k <= f,
                d > 0,
        ;
        if k < f {
            assert(k * d + d <= f * d) by (nonlinear_arith)
                requires
                    k + 1 <= f,
                    d > 0,
            ;
        }
    } else {
        assert(k * d >= f * d + d) by (nonlinear_arith)
            requires
                k >= f + 1,
                d > 0,
        ;
        if k > f + 1 {
            assert(k * d >= f * d + 2 * d) by (nonlinear_arith)
                requires
                    k >= f + 2,
                    d > 0,
            ;
        }
    }
}

/// A number with at most `p` significant bits that lies in the binade of
/// the grid `2^t`, or below it where `t` is zero, is a multiple of `2^t`.
proof fn lemma_representable_on_grid(p: nat, x: nat, t: nat) -> (k: nat)
    requires
        representable(p, x),
        t > 0 ==> pow2((p + t - 1) as nat) <= x,
    ensures
        x == k * pow2(t),
{
    if t == 0 {
        lemma2_to64();
        assert(x * 1 == x) by (nonlinear_arith);
        x
    } else {
        let u = choose|u: nat| x % pow2(u) == 0 && x < pow2(p) * #[trigger] pow2(u);
        lemma_pow2_adds(p, u);
        if u < t {
            lemma_pow2_mul_mono(1, p + u, (p + t - 1) as nat);
            assert(false);
        }
        let wu = pow2(u);
        let wt = pow2(t);
        let rest = pow2((u - t) as nat);
        lemma_pow2_pos(u);
        lemma_pow2_adds((u - t) as nat, t);
        lemma_fundamental_div_mod(x as int, wu as int);
        let j = x / wu;
        assert(x == (j * rest) * wt) by (nonlinear_arith)
            requires
                x == wu * j + 0,
                wu == rest * wt,
        ;
        j * rest
    }
}

/// Correct rounding: no number with at most `p` significant bits is nearer
/// to `n / d` than `round_to_grid(p, n, d)`.
pub proof fn lemma_round_to_grid_is_nearest(p: nat, n: nat, d: nat, x: nat)
    requires
        p > 0,
        d > 0,
        representable(p, x),
    ensures
        distance(round_to_grid(p, n, d), n, d) <= distance(x, n, d),
{
    let t = grid_exp(p, n, d);
    let w = pow2(t);
    let big = d * w;
    let m = nearest_even(n, big);
    let r = round_to_grid(p, n, d);
    lemma_pow2_pos(t);
    lemma_grid_exp_bounds(p, n, d);
    assert(big > 0) by (nonlinear_arith)
        requires
            big == d * w,
            d > 0,
            w > 0,
    ;
    assert(r * d == m * big) by (nonlinear_arith)
        requires
            r == m * w,
            big == d * w,
    ;
    let top = pow2(p);
    lemma_pow2_adds(p, t);
    assert(d * (top * w) == top * big) by (nonlinear_arith)
        requires
            big == d * w,
    ;
    if x >= pow2(p + t) {
        lemma_nearest_even_is_nearest(n, big, top);
        assert(x * d >= d * (top * w)) by (nonlinear_arith)
            requires
                x >= top * w,
                d > 0,
        ;
    } else if t > 0 && x < pow2((p + t - 1) as nat) {
        let low = pow2((p - 1) as nat);
        lemma_pow2_adds((p - 1) as nat, t);
        assert(p - 1 + t == p + t - 1);
        assert(d * (low * w) == low * big) by (nonlinear_arith)
            requires
                big == d * w,
        ;
        lemma_nearest_even_is_nearest(n, big, low);
        assert(x * d <= d * (low * w)) by (nonlinear_arith)
            requires
                x <= low * w,
                d > 0,
        ;
    } else {
        let k = lemma_representable_on_grid(p, x, t);
        lemma_nearest_even_is_nearest(n, big, k);
        assert(x * d == k * big) by (nonlinear_arith)
            requires
                x == k * w,
                big == d * w,
        ;
    }
}

/// Ties to even: where another number with at most `p` significant bits
/// is as near to `n / d` as `round_to_grid(p, n, d)`, the latter is an even
/// multiple of its grid.
pub proof fn lemma_round_to_grid_tie(p: nat, n: nat, d: nat, x: nat)
    requires
        p > 1,
        d > 0,
        representable(p, x),
        x != round_to_grid(p, n, d),
        distance(x, n, d) == distance(round_to_grid(p, n, d), n, d),
    ensures
        nearest_even(n, d * pow2(grid_exp(p, n, d))) % 2 == 0,
{
    let t = grid_exp(p, n, d);
    let w = pow2(t);
    let big = d * w;
    let m = nearest_even(n, big);
    let r = round_to_grid(p, n, d);
    lemma_pow2_pos(t);
    lemma_grid_exp_bounds(p, n, d);
    assert(big > 0) by (nonlinear_arith)
        requires
            big == d * w,
            d > 0,
            w > 0,
    ;
    assert(r * d == m * big) by (nonlinear_arith)
        requires
            r == m * w,
            big == d * w,
    ;
    let top = pow2(p);
    lemma_pow2_adds(p, t);
    lemma_pow2_unfold(p);
    assert(d * (top * w) == top * big) by (nonlinear_arith)
        requires
            big == d * w,
    ;
    if x >= pow2(p + t) {
        lemma_nearest_even_is_nearest(n, big, top);
        assert(x * d >= d * (top * w)) by (nonlinear_arith)
            requires
                x >= top * w,
                d > 0,
        ;
        if m != top {
            lemma_nearest_even_tie(n, big, top);
        }
    } else if t > 0 && x < pow2((p + t - 1) as nat) {
        let low = pow2((p - 1) as nat);
        lemma_pow2_adds((p - 1) as nat, t);
        lemma_pow2_unfold((p - 1) as nat);
        assert(p - 1 + t == p + t - 1);
        assert(d * (low * w) == low * big) by (nonlinear_arith)
            requires
                big == d * w,
        ;
        lemma_nearest_even_is_nearest(n, big, low);
        assert(x * d <= d * (low * w)) by (nonlinear_arith)
            requires
                x <= low * w,
                d > 0,
        ;
        if m != low {
            lemma_nearest_even_tie(n, big, low);
        }
    } else {
        let k = lemma_representable_on_grid(p, x, t);
        assert(x * d == k * big) by (nonlinear_arith)
            requires
                x == k * w,
                big == d * w,
        ;
        if k == m {
            assert(x == r);
        }
        lemma_nearest_even_tie(n, big, k);
    }
}

/// A number with at most `p` significant bits rounds to itself.
pub proof fn lemma_representable_rounds_to_itself(p: nat, x: nat)
    requires
        representable(p, x),
    ensures
        round_to_grid(p, x, 1) == x,
{
    let t = grid_exp(p, x, 1);
    lemma_grid_exp_bounds(p, x, 1);
    lemma_pow2_pos(t);
    let k = lemma_representable_on_grid(p, x, t);
    lemma_nearest_even_multiple(k, pow2(t));
}

} // verus!

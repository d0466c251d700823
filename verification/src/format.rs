//! The two binary interchange formats and what their bit patterns mean.
//!
//! A number of a format is held in a `u64` by its bit pattern: a sign bit
//! above an exponent field above a fraction field. The magnitude of a
//! finite number is counted in units of the least positive number of the
//! format, so it is a natural, and the finite numbers are exactly those
//! naturals below [`Format::limit`] that have at most [`Format::prec`]
//! significant bits.

use vstd::arithmetic::div_mod::*;
use vstd::arithmetic::power2::*;
use vstd::prelude::*;

use crate::nearest::{grid_exp, lemma_grid_exp_unique, lemma_pow2_mul_mono, representable};

verus! {

/// A binary floating-point format of IEEE 754.
#[derive(Clone, Copy, Debug, PartialEq, Eq, Structural)]
pub enum Format {
    /// 32 bits: 24 significant bits, 8 bits of exponent.
    Binary32,
    /// 64 bits: 53 significant bits, 11 bits of exponent.
    Binary64,
}

impl Format {
    /// The count of significant bits, the leading one included.
    pub open spec fn prec(self) -> nat {
        match self {
            Format::Binary32 => 24,
            Format::Binary64 => 53,
        }
    }

    /// The weight of the lowest bit of the exponent field, `2^(prec - 1)`.
    /// A normal number has a significand from `hidden` up to `2 * hidden`.
    pub open spec fn hidden(self) -> nat {
        match self {
            Format::Binary32 => 0x80_0000,
            Format::Binary64 => 0x10_0000_0000_0000,
        }
    }

    /// The weight of the sign bit.
    pub open spec fn sign_mask(self) -> nat {
        match self {
            Format::Binary32 => 0x8000_0000,
            Format::Binary64 => 0x8000_0000_0000_0000,
        }
    }

    /// The bit pattern of positive infinity. Patterns above it, the sign
    /// bit left aside, are no numbers.
    pub open spec fn infinity(self) -> nat {
        match self {
            Format::Binary32 => 0x7f80_0000,
            Format::Binary64 => 0x7ff0_0000_0000_0000,
        }
    }

    /// The greatest value of the exponent field of a finite number.
    pub open spec fn top_exp(self) -> nat {
        match self {
            Format::Binary32 => 254,
            Format::Binary64 => 2046,
        }
    }

    /// The number one is `2^unit_shift` units of the least positive number.
    pub open spec fn unit_shift(self) -> nat {
        match self {
            Format::Binary32 => 149,
            Format::Binary64 => 1074,
        }
    }

    /// The magnitude of the number one.
    pub open spec fn unit(self) -> nat {
        pow2(self.unit_shift())
    }

    /// The least magnitude that is too large for a finite number.
    pub open spec fn limit(self) -> nat {
        self.hidden() * pow2(self.top_exp())
    }

    /// The bit pattern of the number one.
    pub open spec fn one(self) -> u64 {
        match self {
            Format::Binary32 => 0x3f80_0000,
            Format::Binary64 => 0x3ff0_0000_0000_0000,
        }
    }

    /// The bit pattern of the number ten.
    pub open spec fn ten(self) -> u64 {
        match self {
            Format::Binary32 => 0x4120_0000,
            Format::Binary64 => 0x4024_0000_0000_0000,
        }
    }

    /// Whether the sign bit of `bits` is set.
    pub open spec fn is_negative(self, bits: u64) -> bool {
        bits >= self.sign_mask()
    }

    /// `bits` without its sign bit.
    pub open spec fn abs(self, bits: u64) -> nat {
        if bits >= self.sign_mask() {
            (bits - self.sign_mask()) as nat
        } else {
            bits as nat
        }
    }

    /// Whether `bits` is a finite number: neither an infinity nor a NaN,
    /// nor a pattern wider than the format.
    pub open spec fn is_finite(self, bits: u64) -> bool {
        self.abs(bits) < self.infinity()
    }

    /// The magnitude of the finite number with the sign-free pattern `a`,
    /// in units of the least positive number of the format.
    pub open spec fn abs_magnitude(self, a: nat) -> nat {
        let e = a / self.hidden();
        let f = a % self.hidden();
        if e == 0 {
            f
        } else {
            (self.hidden() + f) * pow2((e - 1) as nat)
        }
    }

    /// The magnitude of the finite number `bits`, in units of the least
    /// positive number of the format.
    pub open spec fn magnitude(self, bits: u64) -> nat {
        self.abs_magnitude(self.abs(bits))
    }

    /// Whether `bits` is a finite number without a fractional part.
    pub open spec fn is_integral(self, bits: u64) -> bool {
        self.is_finite(bits) && self.magnitude(bits) % self.unit() == 0
    }

    /// The sign-free pattern of the number with magnitude `r`, where `r`
    /// has at most `prec` significant bits.
    pub open spec fn encode(self, r: nat) -> nat {
        let t = grid_exp(self.prec(), r, 1);
        t * self.hidden() + r / pow2(t)
    }

    /// The pattern of the number with the given sign and magnitude.
    pub open spec fn with_magnitude(self, negative: bool, r: nat) -> u64 {
        if negative {
            (self.sign_mask() + self.encode(r)) as u64
        } else {
            self.encode(r) as u64
        }
    }

    /// The pattern of the number with the given sign and magnitude, if the
    /// magnitude is that of a finite number.
    pub open spec fn pack(self, negative: bool, r: nat) -> Option<u64> {
        if r < self.limit() {
            Some(self.with_magnitude(negative, r))
        } else {
            None
        }
    }

    /// The count of significant bits.
    pub fn precision(self) -> (p: u32)
        ensures
            p == self.prec(),
    {
        match self {
            Format::Binary32 => 24,
            Format::Binary64 => 53,
        }
    }

    /// The weight of the lowest bit of the exponent field.
    pub fn hidden_bit(self) -> (h: u64)
        ensures
            h == self.hidden(),
    {
        match self {
            Format::Binary32 => 0x80_0000,
            Format::Binary64 => 0x10_0000_0000_0000,
        }
    }

    /// The weight of the sign bit.
    pub fn sign_bit(self) -> (s: u64)
        ensures
            s == self.sign_mask(),
    {
        match self {
            Format::Binary32 => 0x8000_0000,
            Format::Binary64 => 0x8000_0000_0000_0000,
        }
    }

    /// The bit pattern of positive infinity.
    pub fn infinity_bits(self) -> (b: u64)
        ensures
            b == self.infinity(),
    {
        match self {
            Format::Binary32 => 0x7f80_0000,
            Format::Binary64 => 0x7ff0_0000_0000_0000,
        }
    }

    /// The binary logarithm of the magnitude of the number one.
    pub fn unit_exponent(self) -> (b: u32)
        ensures
            b == self.unit_shift(),
    {
        match self {
            Format::Binary32 => 149,
            Format::Binary64 => 1074,
        }
    }

    /// The bit pattern of the number one.
    pub fn one_bits(self) -> (b: u64)
        ensures
            b == self.one(),
    {
        match self {
            Format::Binary32 => 0x3f80_0000,
            Format::Binary64 => 0x3ff0_0000_0000_0000,
        }
    }

    /// The bit pattern of the number ten.
    pub fn ten_bits(self) -> (b: u64)
        ensures
            b == self.ten(),
    {
        match self {
            Format::Binary32 => 0x4120_0000,
            Format::Binary64 => 0x4024_0000_0000_0000,
        }
    }

    /// Whether the sign bit of `bits` is set.
    pub fn sign_of(self, bits: u64) -> (negative: bool)
        ensures
            negative == self.is_negative(bits),
    {
        bits >= self.sign_bit()
    }

    /// `bits` without its sign bit.
    pub fn abs_of(self, bits: u64) -> (a: u64)
        ensures
            a == self.abs(bits),
    {
        if bits >= self.sign_bit() {
            bits - self.sign_bit()
        } else {
            bits
        }
    }

    /// Whether `bits` is a finite number.
    pub fn finite(self, bits: u64) -> (b: bool)
        ensures
            b == self.is_finite(bits),
    {
        self.abs_of(bits) < self.infinity_bits()
    }

    /// How the constants of a format hang together.
    pub proof fn lemma_constants(self)
        ensures
            self.hidden() == pow2((self.prec() - 1) as nat),
            2 * self.hidden() == pow2(self.prec()),
            self.infinity() == (self.top_exp() + 1) * self.hidden(),
            self.infinity() < self.sign_mask(),
            self.prec() <= self.unit_shift(),
            self.unit_shift() + 1 < self.top_exp(),
    {
        lemma2_to64();
        lemma2_to64_rest();
    }

    /// The pattern `t * hidden + s` stands for the magnitude `s * 2^t`,
    /// where `s` is a significand: at most `2 * hidden`, and at least
    /// `hidden` unless `t` is zero.
    pub proof fn lemma_abs_magnitude(self, s: nat, t: nat)
        requires
            s <= 2 * self.hidden(),
            t > 0 ==> s >= self.hidden(),
        ensures
            self.abs_magnitude(t * self.hidden() + s) == s * pow2(t),
    {
        let h = self.hidden();
        let a = t * h + s;
        lemma2_to64();
        if s < h {
            assert(t == 0);
            assert(0 * h == 0) by (nonlinear_arith);
            lemma_fundamental_div_mod_converse(a as int, h as int, 0, s as int);
            assert(s * 1 == s) by (nonlinear_arith);
        } else if s < 2 * h {
            assert(a == (t + 1) * h + (s - h)) by (nonlinear_arith)
                requires
                    a == t * h + s,
            ;
            lemma_fundamental_div_mod_converse(a as int, h as int, (t + 1) as int, s - h);
        } else {
            assert(a == (t + 2) * h + 0) by (nonlinear_arith)
                requires
                    a == t * h + s,
                    s == 2 * h,
            ;
            lemma_fundamental_div_mod_converse(a as int, h as int, (t + 2) as int, 0);
            lemma_pow2_unfold(t + 1);
            let w = pow2(t);
            assert(h * (2 * w) == (2 * h) * w) by (nonlinear_arith);
        }
    }

    /// The pattern of the magnitude `s * 2^t` is `t * hidden + s`, where
    /// `s` is a significand as in `lemma_abs_magnitude`.
    pub proof fn lemma_encode(self, s: nat, t: nat)
        requires
            s <= 2 * self.hidden(),
            t > 0 ==> s >= self.hidden(),
        ensures
            self.encode(s * pow2(t)) == t * self.hidden() + s,
    {
        let h = self.hidden();
        let p = self.prec();
        let w = pow2(t);
        let r = s * w;
        self.lemma_constants();
        lemma_pow2_pos(t);
        if s < 2 * h {
            lemma_pow2_adds(p, t);
            let top = pow2(p);
            assert(s * w < top * w) by (nonlinear_arith)
                requires
                    s < top,
                    w > 0,
            ;
            if t > 0 {
                lemma_pow2_adds((p - 1) as nat, t);
                assert(h * w <= s * w) by (nonlinear_arith)
                    requires
                        h <= s,
                        w > 0,
                ;
                assert(p - 1 + t == p + t - 1);
            }
            lemma_grid_exp_unique(p, r, 1, t);
            lemma_fundamental_div_mod_converse(r as int, w as int, s as int, 0);
        } else {
            lemma_pow2_adds(p, t);
            lemma_pow2_unfold(p + t + 1);
            lemma_pow2_pos(p + t);
            assert(r == pow2(p + t));
            assert(pow2(p + (t + 1)) == 2 * pow2(p + t));
            assert(p + (t + 1) - 1 == p + t);
            lemma_grid_exp_unique(p, r, 1, t + 1);
            lemma_pow2_unfold(t + 1);
            let w2 = pow2(t + 1);
            lemma_pow2_pos(t + 1);
            assert(r == h * w2 + 0) by (nonlinear_arith)
                requires
                    r == s * w,
                    s == 2 * h,
                    w2 == 2 * w,
            ;
            lemma_fundamental_div_mod_converse(r as int, w2 as int, h as int, 0);
            assert((t + 1) * h + h == t * h + s) by (nonlinear_arith)
                requires
                    s == 2 * h,
            ;
        }
    }

    /// A pattern built from a significand lies below that of infinity
    /// exactly if its magnitude lies below the limit.
    pub proof fn lemma_finite_below_limit(self, s: nat, t: nat)
        requires
            s <= 2 * self.hidden(),
            t > 0 ==> s >= self.hidden(),
        ensures
            t * self.hidden() + s < self.infinity() <==> s * pow2(t) < self.limit(),
    {
        let h = self.hidden();
        let top = self.top_exp();
        let w = pow2(t);
        let a = t * h + s;
        self.lemma_constants();
        lemma_pow2_pos(t);
        lemma_pow2_pos(top);
        let lim = pow2(top);
        if s < h {
            assert(0 * h == 0) by (nonlinear_arith);
            assert(s * 1 == s) by (nonlinear_arith);
            lemma2_to64();
            assert(h * lim >= h) by (nonlinear_arith)
                requires
                    lim >= 1,
            ;
        } else if s < 2 * h {
            // The exponent field holds t + 1.
            if t + 1 <= top {
                assert(a < (top + 1) * h) by (nonlinear_arith)
                    requires
                        a == t * h + s,
                        s < 2 * h,
                        t + 1 <= top,
                ;
                lemma_pow2_unfold(t + 1);
                lemma_pow2_mul_mono(h, t + 1, top);
                let w2 = pow2(t + 1);
                assert(s * w < h * w2) by (nonlinear_arith)
                    requires
                        s < 2 * h,
                        w2 == 2 * w,
                        w > 0,
                ;
            } else {
                assert(a >= (top + 1) * h) by (nonlinear_arith)
                    requires
                        a == t * h + s,
                        s >= h,
                        t >= top,
                ;
                lemma_pow2_mul_mono(h, top, t);
                assert(s * w >= h * w) by (nonlinear_arith)
                    requires
                        s >= h,
                        w > 0,
                ;
            }
        } else {
            // The magnitude is hidden * 2^(t + 1); the field holds t + 2.
            lemma_pow2_unfold(t + 1);
            let w2 = pow2(t + 1);
            assert(s * w == h * w2) by (nonlinear_arith)
                requires
                    s == 2 * h,
                    w2 == 2 * w,
            ;
            if t + 2 <= top {
                assert(a < (top + 1) * h) by (nonlinear_arith)
                    requires
                        a == t * h + s,
                        s == 2 * h,
                        t + 2 <= top,
                        h > 0,
                ;
                lemma_pow2_strictly_increases(t + 1, top);
                assert(h * w2 < h * lim) by (nonlinear_arith)
                    requires
                        w2 < lim,
                        h > 0,
                ;
            } else {
                assert(a >= (top + 1) * h) by (nonlinear_arith)
                    requires
                        a == t * h + s,
                        s == 2 * h,
                        t + 1 >= top,
                ;
                lemma_pow2_mul_mono(h, top, t + 1);
            }
        }
    }

    /// The significand and the exponent of a finite pattern.
    pub proof fn lemma_decompose(self, a: nat) -> (st: (nat, nat))
        requires
            a < self.infinity(),
        ensures
            a == st.1 * self.hidden() + st.0,
            st.0 < 2 * self.hidden(),
            st.1 > 0 ==> st.0 >= self.hidden(),
            st.1 < self.top_exp(),
            self.abs_magnitude(a) == st.0 * pow2(st.1),
            (a == 0) == (st.0 == 0),
    {
        let h = self.hidden();
        let e = a / h;
        let f = a % h;
        self.lemma_constants();
        lemma_fundamental_div_mod(a as int, h as int);
        lemma_mod_bound(a as int, h as int);
        assert(e <= self.top_exp()) by (nonlinear_arith)
            requires
                a == h * e + f,
                0 <= f,
                a < (self.top_exp() + 1) * h,
                h > 0,
        ;
        let st: (nat, nat) = if e == 0 {
            (f, 0)
        } else {
            (h + f, (e - 1) as nat)
        };
        assert(a == st.1 * h + st.0) by (nonlinear_arith)
            requires
                a == h * e + f,
                st == (if e == 0 {
                    (f, 0nat)
                } else {
                    (h + f, (e - 1) as nat)
                }),
        ;
        self.lemma_abs_magnitude(st.0, st.1);
        st
    }

    /// A finite number is the number with its own sign and magnitude.
    pub proof fn lemma_with_own_magnitude(self, bits: u64)
        requires
            self.is_finite(bits),
        ensures
            self.magnitude(bits) < self.limit(),
            self.with_magnitude(self.is_negative(bits), self.magnitude(bits)) == bits,
    {
        let a = self.abs(bits);
        let st = self.lemma_decompose(a);
        self.lemma_encode(st.0, st.1);
        self.lemma_finite_below_limit(st.0, st.1);
        self.lemma_constants();
    }

    /// The number built from a sign and the magnitude of a finite number
    /// is finite and has that sign and that magnitude.
    pub proof fn lemma_with_magnitude(self, negative: bool, s: nat, t: nat)
        requires
            s <= 2 * self.hidden(),
            t > 0 ==> s >= self.hidden(),
            s * pow2(t) < self.limit(),
        ensures
            self.is_finite(self.with_magnitude(negative, s * pow2(t))),
            self.is_negative(self.with_magnitude(negative, s * pow2(t))) == negative,
            self.magnitude(self.with_magnitude(negative, s * pow2(t))) == s * pow2(t),
            self.abs(self.with_magnitude(negative, s * pow2(t))) == t * self.hidden() + s,
    {
        self.lemma_encode(s, t);
        self.lemma_finite_below_limit(s, t);
        self.lemma_abs_magnitude(s, t);
        self.lemma_constants();
    }

    /// The pattern of one is that of the positive number of one unit.
    pub proof fn lemma_one(self)
        ensures
            self.is_finite(self.one()),
            !self.is_negative(self.one()),
            self.magnitude(self.one()) == self.unit(),
    {
        let h = self.hidden();
        let t = (self.unit_shift() - self.prec() + 1) as nat;
        self.lemma_constants();
        self.lemma_abs_magnitude(h, t);
        lemma_pow2_adds((self.prec() - 1) as nat, t);
    }

    /// The pattern of ten is that of the positive number of ten units.
    pub proof fn lemma_ten(self)
        ensures
            self.is_finite(self.ten()),
            !self.is_negative(self.ten()),
            self.magnitude(self.ten()) == 10 * self.unit(),
    {
        let h = self.hidden();
        let quarter = pow2((self.prec() - 3) as nat);
        let t = (self.unit_shift() - self.prec() + 4) as nat;
        self.lemma_constants();
        lemma2_to64();
        lemma2_to64_rest();
        assert(h == 4 * quarter);
        self.lemma_abs_magnitude(h + quarter, t);
        let w = pow2(t);
        lemma_pow2_adds((self.prec() - 3) as nat, t);
        lemma_pow2_unfold(self.unit_shift() + 1);
        assert((h + quarter) * w == 5 * (quarter * w)) by (nonlinear_arith)
            requires
                h == 4 * quarter,
        ;
    }

    /// The magnitude of a finite number has at most `prec` significant
    /// bits.
    pub proof fn lemma_magnitude_representable(self, bits: u64)
        requires
            self.is_finite(bits),
        ensures
            representable(self.prec(), self.magnitude(bits)),
    {
        let st = self.lemma_decompose(self.abs(bits));
        let w = pow2(st.1);
        self.lemma_constants();
        lemma_pow2_pos(st.1);
        lemma_fundamental_div_mod_converse((st.0 * w) as int, w as int, st.0 as int, 0);
        let top = pow2(self.prec());
        assert(st.0 * w < top * w) by (nonlinear_arith)
            requires
                st.0 < top,
                w > 0,
        ;
    }
}

} // verus!

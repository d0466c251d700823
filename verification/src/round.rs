//! Rounding numbers and arrays of numbers to a count of decimal digits.
//!
//! A value `v` is rounded to `digits` digits with the scale `10^|digits|`:
//! for `digits >= 0` as `round(v * scale) / scale`, for `digits < 0` as
//! `round(v / scale) * scale`, where `round` takes the nearest integer, ties
//! to even. Every step is done in the format of the value and is rounded as
//! IEEE 754 asks. The scale is the product of `|digits|` factors of ten,
//! multiplied up one by one from one.
//!
//! Infinities and NaNs have no digits to round and are handed back as they
//! are. Rounding a finite value fails where the scale, the scaled value or
//! the result is too large for a finite number of the format.

use vstd::arithmetic::div_mod::lemma_fundamental_div_mod_converse;
use vstd::arithmetic::power2::{
    lemma2_to64, lemma_pow2_adds, lemma_pow2_pos, lemma_pow2_unfold, pow2,
};
use vstd::math::abs;
use vstd::prelude::*;

use crate::arith::{
    divide, integral, lemma_integral_of_integer, lemma_one_is_neutral, lemma_product_decoded,
    lemma_results_are_finite, multiply, product, quotient, round_integral,
};
use crate::array::NumericArray;
use crate::error::Error;
use crate::format::Format;
use crate::nearest::{
    lemma_pow2_mul_mono, lemma_representable_rounds_to_itself, lemma_round_to_grid_scale,
    representable,
};

verus! {

/// An array of binary32 numbers, each held by its bit pattern.
pub type Float32Array = NumericArray<u32>;

/// An array of binary64 numbers, each held by its bit pattern.
pub type Float64Array = NumericArray<u64>;

/// Ten to the power `k` in the format: one multiplied `k` times by ten,
/// each product rounded to the format. From the first product on that is
/// too large for a finite number it is positive infinity.
pub open spec fn scale(fmt: Format, k: nat) -> u64
    decreases k,
{
    if k == 0 {
        fmt.one()
    } else {
        match product(fmt, scale(fmt, (k - 1) as nat), fmt.ten()) {
            Some(s) => s,
            None => fmt.infinity() as u64,
        }
    }
}

/// `v` rounded with the scale `s`: to digits behind the point if `fraction`
/// holds, to digits before the point if not. What is no finite number is
/// left as it is.
pub open spec fn rounded_at_scale(fmt: Format, v: u64, s: u64, fraction: bool) -> Result<
    u64,
    Error,
> {
    if !fmt.is_finite(v) {
        Ok(v)
    } else if fraction {
        match product(fmt, v, s) {
            None => Err(Error::ArithmeticOverflow),
            Some(t) => match quotient(fmt, integral(fmt, t), s) {
                Some(r) => Ok(r),
                None => Err(Error::ArithmeticOverflow),
            },
        }
    } else {
        match quotient(fmt, v, s) {
            None => Err(Error::ArithmeticOverflow),
            Some(t) => match product(fmt, integral(fmt, t), s) {
                Some(r) => Ok(r),
                None => Err(Error::ArithmeticOverflow),
            },
        }
    }
}

/// `v` rounded to `digits` decimal digits.
pub open spec fn rounded(fmt: Format, v: u64, digits: int) -> Result<u64, Error> {
    rounded_at_scale(fmt, v, scale(fmt, abs(digits)), digits >= 0)
}

/// A binary32 number rounded to `digits` decimal digits.
pub open spec fn rounded32(v: u32, digits: int) -> Result<u32, Error> {
    match rounded(Format::Binary32, v as u64, digits) {
        Ok(r) => Ok(r as u32),
        Err(e) => Err(e),
    }
}

/// A binary64 number rounded to `digits` decimal digits.
pub open spec fn rounded64(v: u64, digits: int) -> Result<u64, Error> {
    rounded(Format::Binary64, v, digits)
}

/// Once a power of ten is too large, all higher ones are.
proof fn lemma_scale_stays_infinite(fmt: Format, j: nat, k: nat)
    requires
        j <= k,
        scale(fmt, j) == fmt.infinity(),
    ensures
        scale(fmt, k) == fmt.infinity(),
    decreases k - j,
{
    if j < k {
        lemma_scale_stays_infinite(fmt, j, (k - 1) as nat);
    }
}

/// Computes ten to the power `k` in the format; positive infinity if it is
/// too large for a finite number.
pub fn power_of_ten(fmt: Format, k: u32) -> (out: u64)
    ensures
        out == scale(fmt, k as nat),
{
    let ten = fmt.ten_bits();
    let mut s = fmt.one_bits();
    let mut i: u32 = 0;
    while i < k
        invariant
            i <= k,
            ten == fmt.ten(),
            scale(fmt, i as nat) == s,
        decreases k - i,
    {
        match multiply(fmt, s, ten) {
            Some(next) => {
                s = next;
                i = i + 1;
            },
            None => {
                proof {
                    lemma_scale_stays_infinite(fmt, (i + 1) as nat, k as nat);
                }
                return fmt.infinity_bits();
            },
        }
    }
    s
}

/// Rounds `v` with the scale `s`: to digits behind the point if `fraction`
/// holds, to digits before the point if not.
///
/// A value that is not finite is returned as it is. For a finite value the
/// error is `ArithmeticOverflow`, and it is returned where a step does not
/// give a finite number: the scale is none, or the scaled value or the
/// result is too large.
pub fn round_at_scale(fmt: Format, v: u64, s: u64, fraction: bool) -> (out: Result<u64, Error>)
    ensures
        out == rounded_at_scale(fmt, v, s, fraction),
        out matches Ok(r) ==> (fmt.is_finite(r) || r == v),
{
    if !fmt.finite(v) {
        return Ok(v);
    }
    if fraction {
        match multiply(fmt, v, s) {
            None => Err(Error::ArithmeticOverflow),
            Some(t) => match divide(fmt, round_integral(fmt, t), s) {
                Some(r) => Ok(r),
                None => Err(Error::ArithmeticOverflow),
            },
        }
    } else {
        match divide(fmt, v, s) {
            None => Err(Error::ArithmeticOverflow),
            Some(t) => match multiply(fmt, round_integral(fmt, t), s) {
                Some(r) => Ok(r),
                None => Err(Error::ArithmeticOverflow),
            },
        }
    }
}

/// The count of digits that `digits` asks for, before or behind the point.
fn digit_count(digits: i32) -> (k: u32)
    ensures
        k == abs(digits as int),
{
    if digits >= 0 {
        digits as u32
    } else {
        (0 - digits as i64) as u32
    }
}

/// Rounds `v` to `digits` decimal digits: behind the point if `digits` is
/// positive, to a whole number if it is zero, before the point if it is
/// negative.
pub fn round_value(fmt: Format, v: u64, digits: i32) -> (out: Result<u64, Error>)
    ensures
        out == rounded(fmt, v, digits as int),
{
    let scale = power_of_ten(fmt, digit_count(digits));
    round_at_scale(fmt, v, scale, digits >= 0)
}

/// The slots of an array after every present value was replaced by what
/// `f` gives for it, or `ArithmeticOverflow` if `f` fails for a present
/// value. Absent slots stay absent, and `f` is not asked about them.
pub open spec fn rounded_slots<V>(slots: Seq<Option<V>>, f: spec_fn(V) -> Result<V, Error>) -> Result<
    Seq<Option<V>>,
    Error,
> {
    if exists|i: int| 0 <= i < slots.len() && (#[trigger] slots[i]) is Some && f(slots[i]->0) is Err {
        Err(Error::ArithmeticOverflow)
    } else {
        Ok(
            Seq::new(
                slots.len(),
                |i: int|
                    match slots[i] {
                        Some(v) => Some(f(v)->Ok_0),
                        None => None,
                    },
            ),
        )
    }
}

/// The slots of an array of binary64 numbers rounded to `digits` decimal
/// digits.
pub open spec fn rounded_slots64(slots: Seq<Option<u64>>, digits: int) -> Result<
    Seq<Option<u64>>,
    Error,
> {
    rounded_slots(slots, |v: u64| rounded64(v, digits))
}

/// The slots of an array of binary32 numbers rounded to `digits` decimal
/// digits.
pub open spec fn rounded_slots32(slots: Seq<Option<u32>>, digits: int) -> Result<
    Seq<Option<u32>>,
    Error,
> {
    rounded_slots(slots, |v: u32| rounded32(v, digits))
}

/// Arrays of numbers that can be rounded to a count of decimal digits.
pub trait RoundOps: Sized {
    /// What a slot holds.
    type Value;

    /// The slots of the array.
    spec fn slots(&self) -> Seq<Option<Self::Value>>;

    /// The slots of the array with every present value rounded to `digits`
    /// decimal digits, or the error that rounding one of them gives.
    spec fn rounded(&self, digits: int) -> Result<Seq<Option<Self::Value>>, Error>;

    /// Rounds every present value to `digits` decimal digits.
    ///
    /// On success the result has the length and the presence pattern of
    /// `self`, and each present slot holds the rounded value of that slot.
    /// It fails, with `ArithmeticOverflow`, exactly if rounding fails for a
    /// present value; an array without present values is rounded to itself
    /// whatever `digits` is.
    fn round(&self, digits: i32) -> (out: Result<Self, Error>)
        ensures
            out matches Ok(a) ==> a.slots().len() == self.slots().len(),
            out matches Ok(a) ==> forall|i: int|
                #![trigger a.slots()[i]]
                0 <= i < self.slots().len() ==> (a.slots()[i] is Some <==> self.slots()[i] is Some),
            match out {
                Ok(a) => self.rounded(digits as int) == Ok::<Seq<Option<Self::Value>>, Error>(
                    a.slots(),
                ),
                Err(e) => self.rounded(digits as int) == Err::<Seq<Option<Self::Value>>, Error>(e),
            },
    ;
}

impl RoundOps for NumericArray<u64> {
    type Value = u64;

    open spec fn slots(&self) -> Seq<Option<u64>> {
        self@
    }

    open spec fn rounded(&self, digits: int) -> Result<Seq<Option<u64>>, Error> {
        rounded_slots64(self@, digits)
    }

    fn round(&self, digits: i32) -> (out: Result<Self, Error>) {
        let scale = power_of_ten(Format::Binary64, digit_count(digits));
        let fraction = digits >= 0;
        let one = |v: u64| -> (r: Result<u64, Error>)
            ensures
                r == rounded64(v, digits as int),
            { round_at_scale(Format::Binary64, v, scale, fraction) };
        let out = self.try_apply(one);
        proof {
            match &out {
                Ok(a) => {
                    assert forall|i: int|
                        0 <= i < self@.len() && (#[trigger] self@[i]) is Some implies rounded64(
                        self@[i]->0,
                        digits as int,
                    ) == Ok::<u64, Error>(a@[i]->0) by {
                        assert(call_ensures(one, (self@[i]->0,), Ok::<u64, Error>(a@[i]->0)));
                    }
                    assert(rounded_slots64(self@, digits as int) is Ok);
                    assert(rounded_slots64(self@, digits as int)->Ok_0 =~= a@);
                },
                Err(e) => {
                    let i = choose|i: int|
                        #![trigger self@[i]]
                        0 <= i < self@.len() && self@[i] is Some && call_ensures(
                            one,
                            (self@[i]->0,),
                            Err::<u64, Error>(*e),
                        );
                    assert(rounded64(self@[i]->0, digits as int) is Err);
                },
            }
        }
        out
    }
}

impl RoundOps for NumericArray<u32> {
    type Value = u32;

    open spec fn slots(&self) -> Seq<Option<u32>> {
        self@
    }

    open spec fn rounded(&self, digits: int) -> Result<Seq<Option<u32>>, Error> {
        rounded_slots32(self@, digits)
    }

    fn round(&self, digits: i32) -> (out: Result<Self, Error>) {
        let scale = power_of_ten(Format::Binary32, digit_count(digits));
        let fraction = digits >= 0;
        let one = |v: u32| -> (r: Result<u32, Error>)
            ensures
                r == rounded32(v, digits as int),
            {
                match round_at_scale(Format::Binary32, v as u64, scale, fraction) {
                    Ok(r) => Ok(r as u32),
                    Err(e) => Err(e),
                }
            };
        let out = self.try_apply(one);
        proof {
            match &out {
                Ok(a) => {
                    assert forall|i: int|
                        0 <= i < self@.len() && (#[trigger] self@[i]) is Some implies rounded32(
                        self@[i]->0,
                        digits as int,
                    ) == Ok::<u32, Error>(a@[i]->0) by {
                        assert(call_ensures(one, (self@[i]->0,), Ok::<u32, Error>(a@[i]->0)));
                    }
                    assert(rounded_slots32(self@, digits as int) is Ok);
                    assert(rounded_slots32(self@, digits as int)->Ok_0 =~= a@);
                },
                Err(e) => {
                    let i = choose|i: int|
                        #![trigger self@[i]]
                        0 <= i < self@.len() && self@[i] is Some && call_ensures(
                            one,
                            (self@[i]->0,),
                            Err::<u32, Error>(*e),
                        );
                    assert(rounded32(self@[i]->0, digits as int) is Err);
                },
            }
        }
        out
    }
}

/// Shape preservation and null transparency: where rounding an array
/// succeeds, the result has the length of the array, a slot of the result
/// is absent exactly where the slot of the array is, and a present slot
/// holds what `f` gives for the value of the array there.
pub proof fn lemma_rounded_slots_keep_shape<V>(
    slots: Seq<Option<V>>,
    f: spec_fn(V) -> Result<V, Error>,
)
    ensures
        rounded_slots(slots, f) matches Ok(r) ==> {
            &&& r.len() == slots.len()
            &&& forall|i: int|
                #![trigger r[i]]
                0 <= i < slots.len() ==> (r[i] is None <==> slots[i] is None)
            &&& forall|i: int|
                #![trigger r[i]]
                0 <= i < slots.len() && slots[i] is Some ==> f(slots[i]->0) == Ok::<V, Error>(
                    r[i]->0,
                )
        },
{
}

/// Rounding an array fails exactly if rounding one of its present values
/// does; so an array without a present value, an empty one among them, is
/// rounded to itself.
pub proof fn lemma_rounded_slots_fail<V>(slots: Seq<Option<V>>, f: spec_fn(V) -> Result<V, Error>)
    ensures
        rounded_slots(slots, f) is Err <==> exists|i: int|
            0 <= i < slots.len() && (#[trigger] slots[i]) is Some && f(slots[i]->0) is Err,
        (forall|i: int| 0 <= i < slots.len() ==> (#[trigger] slots[i]) is None) ==> rounded_slots(
            slots,
            f,
        ) == Ok::<Seq<Option<V>>, Error>(slots),
{
    if forall|i: int| 0 <= i < slots.len() ==> (#[trigger] slots[i]) is None {
        assert(rounded_slots(slots, f)->Ok_0 =~= slots);
    }
}

/// An array whose present values are all rounded to themselves is rounded
/// to itself.
pub proof fn lemma_rounded_slots_fixed<V>(slots: Seq<Option<V>>, f: spec_fn(V) -> Result<V, Error>)
    requires
        forall|i: int|
            #![trigger slots[i]]
            0 <= i < slots.len() && slots[i] is Some ==> f(slots[i]->0) == Ok::<V, Error>(
                slots[i]->0,
            ),
    ensures
        rounded_slots(slots, f) == Ok::<Seq<Option<V>>, Error>(slots),
{
    assert(rounded_slots(slots, f)->Ok_0 =~= slots);
}

/// Rounding to zero digits leaves a number without a fractional part as
/// it is.
pub proof fn lemma_round_keeps_integers(fmt: Format, v: u64)
    requires
        fmt.is_integral(v),
    ensures
        rounded(fmt, v, 0) == Ok::<u64, Error>(v),
{
    lemma_one_is_neutral(fmt, v);
    lemma_integral_of_integer(fmt, v);
}

/// Rounding an array of binary64 numbers without fractional parts to zero
/// digits gives the array back.
pub proof fn lemma_round_keeps_integers64(slots: Seq<Option<u64>>)
    requires
        forall|i: int|
            #![trigger slots[i]]
            0 <= i < slots.len() && slots[i] is Some ==> Format::Binary64.is_integral(slots[i]->0),
    ensures
        rounded_slots64(slots, 0) == Ok::<Seq<Option<u64>>, Error>(slots),
{
    assert forall|i: int|
        #![trigger slots[i]]
        0 <= i < slots.len() && slots[i] is Some implies rounded64(slots[i]->0, 0) == Ok::<
        u64,
        Error,
    >(slots[i]->0) by {
        lemma_round_keeps_integers(Format::Binary64, slots[i]->0);
    }
    lemma_rounded_slots_fixed(slots, |v: u64| rounded64(v, 0));
}

/// Rounding an array of binary32 numbers without fractional parts to zero
/// digits gives the array back.
pub proof fn lemma_round_keeps_integers32(slots: Seq<Option<u32>>)
    requires
        forall|i: int|
            #![trigger slots[i]]
            0 <= i < slots.len() && slots[i] is Some ==> Format::Binary32.is_integral(
                (slots[i]->0) as u64,
            ),
    ensures
        rounded_slots32(slots, 0) == Ok::<Seq<Option<u32>>, Error>(slots),
{
    assert forall|i: int|
        #![trigger slots[i]]
        0 <= i < slots.len() && slots[i] is Some implies rounded32(slots[i]->0, 0) == Ok::<
        u32,
        Error,
    >(slots[i]->0) by {
        lemma_round_keeps_integers(Format::Binary32, (slots[i]->0) as u64);
    }
    lemma_rounded_slots_fixed(slots, |v: u32| rounded32(v, 0));
}

/// A value that is no finite number is rounded to itself, whatever the
/// count of digits.
pub proof fn lemma_round_keeps_non_finite(fmt: Format, v: u64, digits: int)
    requires
        !fmt.is_finite(v),
    ensures
        rounded(fmt, v, digits) == Ok::<u64, Error>(v),
{
}

/// A rounded value is a number of the format of the value: it is the
/// value itself where that is no finite number, and else a finite number
/// whose magnitude has no more significant bits than the format holds.
pub proof fn lemma_rounded_stays_in_format(fmt: Format, v: u64, digits: int)
    ensures
        rounded(fmt, v, digits) matches Ok(r) ==> if fmt.is_finite(v) {
            fmt.is_finite(r) && representable(fmt.prec(), fmt.magnitude(r))
        } else {
            r == v
        },
{
    if fmt.is_finite(v) {
        if let Ok(r) = rounded(fmt, v, digits) {
            let s = scale(fmt, abs(digits));
            if digits >= 0 {
                let t = product(fmt, v, s)->0;
                lemma_results_are_finite(fmt, integral(fmt, t), s);
            } else {
                let t = quotient(fmt, v, s)->0;
                lemma_results_are_finite(fmt, integral(fmt, t), s);
            }
            fmt.lemma_magnitude_representable(r);
        }
    }
}

/// A rounded binary32 number fits 32 bits: narrowing the pattern loses
/// nothing.
pub proof fn lemma_rounded32_fits(v: u32, digits: int)
    ensures
        rounded(Format::Binary32, v as u64, digits) matches Ok(r) ==> r <= u32::MAX,
{
    lemma_rounded_stays_in_format(Format::Binary32, v as u64, digits);
}

/// Ten to the power `k`.
pub open spec fn ten_to(k: nat) -> nat
    decreases k,
{
    if k == 0 {
        1
    } else {
        10 * ten_to((k - 1) as nat)
    }
}

/// Five to the power `k`.
pub open spec fn five_to(k: nat) -> nat
    decreases k,
{
    if k == 0 {
        1
    } else {
        5 * five_to((k - 1) as nat)
    }
}

/// `10^k` is `5^k * 2^k`, and `5^k` grows with `k` and is at least `2^k`.
proof fn lemma_powers(k: nat)
    ensures
        ten_to(k) == five_to(k) * pow2(k),
        pow2(k) <= five_to(k),
        k > 0 ==> five_to((k - 1) as nat) < five_to(k),
    decreases k,
{
    if k == 0 {
        lemma2_to64();
    } else {
        let j = (k - 1) as nat;
        lemma_powers(j);
        lemma_pow2_unfold(k);
        lemma_pow2_pos(j);
        let f = five_to(j);
        let w = pow2(j);
        assert((5 * f) * (2 * w) == 10 * (f * w)) by (nonlinear_arith);
    }
}

/// The scale is exact while it can be: where `5^k` has no more bits than
/// the format holds, ten to the power `k` in the format is the number
/// `10^k`. That is up to `10^10` in binary32 and up to `10^22` in binary64.
pub proof fn lemma_scale_exact(fmt: Format, k: nat)
    requires
        five_to(k) < pow2(fmt.prec()),
    ensures
        fmt.is_finite(scale(fmt, k)),
        !fmt.is_negative(scale(fmt, k)),
        fmt.magnitude(scale(fmt, k)) == ten_to(k) * fmt.unit(),
    decreases k,
{
    fmt.lemma_one();
    if k == 0 {
        assert(1 * fmt.unit() == fmt.unit()) by (nonlinear_arith);
    } else {
        let j = (k - 1) as nat;
        let p = fmt.prec();
        let unit = fmt.unit();
        let shift = fmt.unit_shift();
        lemma_powers(k);
        lemma_scale_exact(fmt, j);
        fmt.lemma_ten();
        fmt.lemma_constants();
        lemma_pow2_pos(shift);
        let prev = scale(fmt, j);
        let x = ten_to(k) * unit;
        // The exact product is `x`, counted in units.
        assert(fmt.magnitude(prev) * fmt.magnitude(fmt.ten()) == x * unit) by (nonlinear_arith)
            requires
                fmt.magnitude(prev) == ten_to(j) * unit,
                fmt.magnitude(fmt.ten()) == 10 * unit,
                x == (10 * ten_to(j)) * unit,
        ;
        lemma_round_to_grid_scale(p, x, 1, unit);
        assert(1 * unit == unit) by (nonlinear_arith);
        // `x` is `5^k * 2^(k + shift)`, so it has no more bits than `5^k`.
        let f = five_to(k);
        let w = pow2(k + shift);
        lemma_pow2_adds(k, shift);
        lemma_pow2_pos(k + shift);
        assert(x == f * w) by (nonlinear_arith)
            requires
                x == (f * pow2(k)) * unit,
                w == pow2(k) * unit,
        ;
        lemma_fundamental_div_mod_converse(x as int, w as int, f as int, 0);
        let top = pow2(p);
        assert(x < top * w) by (nonlinear_arith)
            requires
                x == f * w,
                f < top,
                w > 0,
        ;
        assert(representable(p, x));
        lemma_representable_rounds_to_itself(p, x);
        // It is below the limit of the format.
        if k >= p {
            lemma_pow2_mul_mono(1, p, k);
        }
        lemma_pow2_unfold(k + shift + 1);
        lemma_pow2_mul_mono(fmt.hidden(), k + shift + 1, fmt.top_exp());
        assert(top * w == fmt.hidden() * (2 * w)) by (nonlinear_arith)
            requires
                top == 2 * fmt.hidden(),
        ;
        lemma_product_decoded(fmt, prev, fmt.ten());
    }
}

} // verus!

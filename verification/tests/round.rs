use array_round::format::Format;
use array_round::round::{power_of_ten, round_at_scale, round_value};
use array_round::{Error, Float32Array, Float64Array, NumericArray, RoundOps};

fn column64(items: &[Option<f64>]) -> Float64Array {
    let bits: Vec<Option<u64>> = items.iter().map(|x| x.map(f64::to_bits)).collect();
    NumericArray::from_options(&bits, 0)
}

fn column32(items: &[Option<f32>]) -> Float32Array {
    let bits: Vec<Option<u32>> = items.iter().map(|x| x.map(f32::to_bits)).collect();
    NumericArray::from_options(&bits, 0)
}

fn values64(a: &Float64Array) -> Vec<Option<f64>> {
    a.to_options().into_iter().map(|x| x.map(f64::from_bits)).collect()
}

fn values32(a: &Float32Array) -> Vec<Option<f32>> {
    a.to_options().into_iter().map(|x| x.map(f32::from_bits)).collect()
}

/// Scale, round and rescale with the arithmetic of the machine.
fn reference64(v: f64, digits: i32) -> Option<f64> {
    if !v.is_finite() {
        return Some(v);
    }
    let mut scale = 1.0f64;
    for _ in 0..digits.unsigned_abs().min(400) {
        scale *= 10.0;
    }
    let r = if digits >= 0 {
        (v * scale).round_ties_even() / scale
    } else {
        (v / scale).round_ties_even() * scale
    };
    let through = if digits >= 0 { v * scale } else { v / scale };
    if scale.is_finite() && through.is_finite() && r.is_finite() {
        Some(r)
    } else {
        None
    }
}

/// Scale, round and rescale with the arithmetic of the machine.
fn reference32(v: f32, digits: i32) -> Option<f32> {
    if !v.is_finite() {
        return Some(v);
    }
    let mut scale = 1.0f32;
    for _ in 0..digits.unsigned_abs().min(400) {
        scale *= 10.0;
    }
    let r = if digits >= 0 {
        (v * scale).round_ties_even() / scale
    } else {
        (v / scale).round_ties_even() * scale
    };
    let through = if digits >= 0 { v * scale } else { v / scale };
    if scale.is_finite() && through.is_finite() && r.is_finite() {
        Some(r)
    } else {
        None
    }
}

#[test]
fn rounds_to_two_digits_and_keeps_the_null() {
    let a = column64(&[Some(2.345), None, Some(-2.345)]);
    let r = a.round(2).unwrap();
    assert_eq!(r.len(), 3);
    assert_eq!(values64(&r), vec![Some(2.35), None, Some(-2.35)]);
    assert_eq!(
        (0..3).map(|i| r.is_valid(i)).collect::<Vec<_>>(),
        vec![true, false, true]
    );
}

#[test]
fn empty_array_rounds_to_empty_array() {
    for digits in [0, 2, -2, 400, -400, i32::MAX, i32::MIN] {
        let r = column64(&[]).round(digits).unwrap();
        assert!(r.is_empty());
        assert_eq!(r.len(), 0);
        let r = column32(&[]).round(digits).unwrap();
        assert!(r.is_empty());
    }
}

#[test]
fn array_of_nulls_rounds_to_itself_whatever_the_digits() {
    for digits in [0, 5, -5, 400, -400, i32::MAX, i32::MIN] {
        let r = column64(&[None, None]).round(digits).unwrap();
        assert_eq!(values64(&r), vec![None, None]);
        let r = column32(&[None, None]).round(digits).unwrap();
        assert_eq!(values32(&r), vec![None, None]);
    }
}

#[test]
fn digit_semantics_two_fraction_digits() {
    // 1.005 is a little below the decimal number, so it is no tie.
    let r = column64(&[Some(1.005), Some(-1.005)]).round(2).unwrap();
    assert_eq!(values64(&r), vec![Some(1.0), Some(-1.0)]);
    let r = column64(&[Some(1234.5678), Some(0.125)]).round(2).unwrap();
    assert_eq!(values64(&r), vec![Some(1234.57), Some(0.12)]);
}

#[test]
fn digit_semantics_negative_digits_round_to_hundreds() {
    // A tie goes to the even multiple.
    let r = column64(&[Some(150.0), Some(250.0), Some(1234.5678)]).round(-2).unwrap();
    assert_eq!(values64(&r), vec![Some(200.0), Some(200.0), Some(1200.0)]);
    let r = column32(&[Some(150.0), Some(250.0), Some(-350.0)]).round(-2).unwrap();
    assert_eq!(values32(&r), vec![Some(200.0), Some(200.0), Some(-400.0)]);
}

#[test]
fn zero_digits_round_to_the_nearest_integer_ties_to_even() {
    let r = column64(&[Some(2.5), Some(3.5), Some(-2.5), Some(0.49999999999999994)])
        .round(0)
        .unwrap();
    assert_eq!(values64(&r), vec![Some(2.0), Some(4.0), Some(-2.0), Some(0.0)]);
    let r = column32(&[Some(2.5), Some(3.5), Some(-2.5)]).round(0).unwrap();
    assert_eq!(values32(&r), vec![Some(2.0), Some(4.0), Some(-2.0)]);
}

#[test]
fn the_sign_of_a_value_that_rounds_to_zero_is_kept() {
    let r = column64(&[Some(-0.3), Some(-0.0), Some(0.0)]).round(0).unwrap();
    let bits = r.to_options();
    assert_eq!(bits[0], Some((-0.0f64).to_bits()));
    assert_eq!(bits[1], Some((-0.0f64).to_bits()));
    assert_eq!(bits[2], Some(0.0f64.to_bits()));
}

#[test]
fn integers_are_kept_at_zero_digits() {
    let whole = [0.0, -0.0, 1.0, -1.0, 2.0, 3.0, 1e15, -123456789.0, 9007199254740992.0, 1e300, f64::MAX];
    let a = column64(&whole.map(Some));
    let r = a.round(0).unwrap();
    assert_eq!(r.to_options(), a.to_options());
    let whole = [0.0f32, -0.0, 1.0, -7.0, 16777216.0, 1e30, f32::MAX];
    let a = column32(&whole.map(Some));
    let r = a.round(0).unwrap();
    assert_eq!(r.to_options(), a.to_options());
}

#[test]
fn each_kind_rounds_in_its_own_precision() {
    let digits = 3;
    let single = column32(&[Some(0.1234567), Some(16.7772165)]).round(digits).unwrap();
    let double = column64(&[Some(0.1234567), Some(16.7772165)]).round(digits).unwrap();
    // Each result is what the arithmetic of its own kind gives.
    assert_eq!(
        values32(&single),
        vec![reference32(0.1234567, digits), reference32(16.7772165, digits)]
    );
    assert_eq!(
        values64(&double),
        vec![reference64(0.1234567, digits), reference64(16.7772165, digits)]
    );
    // The binary32 result is not the binary64 result narrowed or widened.
    let s = values32(&single)[0].unwrap();
    let d = values64(&double)[0].unwrap();
    assert_eq!(s, 0.123f32);
    assert_eq!(d, 0.123f64);
    assert_ne!(s as f64, d);
}

#[test]
fn infinities_and_nans_pass_through() {
    let nan = f64::NAN.to_bits();
    let a = NumericArray::from_options(
        &vec![Some(f64::INFINITY.to_bits()), Some(f64::NEG_INFINITY.to_bits()), Some(nan), None],
        0,
    );
    for digits in [0, 3, -3, 400, -400] {
        let r = a.round(digits).unwrap();
        assert_eq!(r.to_options(), a.to_options());
    }
    let a = NumericArray::from_options(
        &vec![Some(f32::INFINITY.to_bits()), Some(f32::NAN.to_bits()), Some(0xffc0_0001u32)],
        0,
    );
    for digits in [0, 3, -3, 400, -400] {
        let r = a.round(digits).unwrap();
        assert_eq!(r.to_options(), a.to_options());
    }
}

#[test]
fn a_scale_that_is_too_large_is_an_overflow() {
    for digits in [309, 400, -309, -400, i32::MAX, i32::MIN] {
        let r = column64(&[None, Some(1.5)]).round(digits);
        assert!(matches!(r, Err(Error::ArithmeticOverflow)));
        let r = column64(&[Some(0.0)]).round(digits);
        assert!(matches!(r, Err(Error::ArithmeticOverflow)));
    }
    for digits in [39, 100, -39, i32::MAX, i32::MIN] {
        let r = column32(&[Some(1.5), None]).round(digits);
        assert!(matches!(r, Err(Error::ArithmeticOverflow)));
    }
    assert!(column64(&[Some(1.5)]).round(308).is_ok());
    assert!(column32(&[Some(1.5)]).round(38).is_ok());
}

#[test]
fn a_scaled_value_that_is_too_large_is_an_overflow() {
    let r = column64(&[Some(1.0), Some(1e300)]).round(10);
    assert!(matches!(r, Err(Error::ArithmeticOverflow)));
    let r = column32(&[Some(1e30)]).round(10);
    assert!(matches!(r, Err(Error::ArithmeticOverflow)));
    // The value before the one that fails is not handed out.
    let r = column64(&[Some(1e300), Some(1.0)]).round(10);
    assert!(matches!(r, Err(Error::ArithmeticOverflow)));
    // Rounded up to the next multiple of the scale, the largest numbers leave the range.
    let r = column64(&[Some(f64::MAX)]).round(-308);
    assert!(matches!(r, Err(Error::ArithmeticOverflow)));
    let r = column64(&[Some(1.2e308)]).round(-308).unwrap();
    assert_eq!(values64(&r), vec![reference64(1.2e308, -308)]);
}

#[test]
fn power_of_ten_is_exact_while_it_can_be() {
    assert_eq!(power_of_ten(Format::Binary64, 0), 1.0f64.to_bits());
    assert_eq!(power_of_ten(Format::Binary64, 1), 10.0f64.to_bits());
    assert_eq!(power_of_ten(Format::Binary64, 22), 1e22f64.to_bits());
    assert_eq!(power_of_ten(Format::Binary64, 22), 0x4480f0cf064dd592);
    assert_eq!(power_of_ten(Format::Binary32, 0), 1.0f32.to_bits() as u64);
    assert_eq!(power_of_ten(Format::Binary32, 10), 1e10f32.to_bits() as u64);
}

#[test]
fn power_of_ten_is_the_running_product_and_ends_in_infinity() {
    let mut s = 1.0f64;
    for k in 0..=320u32 {
        assert_eq!(power_of_ten(Format::Binary64, k), s.to_bits());
        s *= 10.0;
    }
    assert_eq!(power_of_ten(Format::Binary64, 308), 0x7fe1ccf385ebc89f);
    assert_eq!(power_of_ten(Format::Binary64, 309), f64::INFINITY.to_bits());
    assert_eq!(power_of_ten(Format::Binary64, u32::MAX), f64::INFINITY.to_bits());
    let mut s = 1.0f32;
    for k in 0..=45u32 {
        assert_eq!(power_of_ten(Format::Binary32, k), s.to_bits() as u64);
        s *= 10.0;
    }
    assert_eq!(power_of_ten(Format::Binary32, 39), f32::INFINITY.to_bits() as u64);
}

#[test]
fn round_at_scale_uses_the_scale_it_is_given() {
    let hundred = 100.0f64.to_bits();
    let infinite = f64::INFINITY.to_bits();
    let v = 2.345f64.to_bits();
    assert_eq!(round_at_scale(Format::Binary64, v, hundred, true), Ok(2.35f64.to_bits()));
    assert_eq!(
        round_at_scale(Format::Binary64, 150.0f64.to_bits(), hundred, false),
        Ok(200.0f64.to_bits())
    );
    // An infinite scale gives no finite number, whichever way it is applied.
    assert_eq!(round_at_scale(Format::Binary64, v, infinite, true), Err(Error::ArithmeticOverflow));
    assert_eq!(round_at_scale(Format::Binary64, v, infinite, false), Err(Error::ArithmeticOverflow));
    assert_eq!(round_at_scale(Format::Binary64, 0, infinite, true), Err(Error::ArithmeticOverflow));
    assert_eq!(round_at_scale(Format::Binary64, infinite, infinite, true), Ok(infinite));
    // Neither does a scale of zero, or one that is a NaN.
    assert_eq!(round_at_scale(Format::Binary64, v, 0, false), Err(Error::ArithmeticOverflow));
    assert_eq!(
        round_at_scale(Format::Binary64, v, f64::NAN.to_bits(), false),
        Err(Error::ArithmeticOverflow)
    );
}

#[test]
fn round_value_agrees_with_the_machine_binary64() {
    let values = [
        0.0, -0.0, 1.0, 2.345, -2.345, 1.005, 0.1, 0.5, 1.5, 2.5, 150.0, 1e-5, 123456.789e3,
        0.000123456, 5e-324, 1e-310, 1e22, 1e300, f64::MAX, f64::MIN_POSITIVE, 0.015, 0.025,
        4503599627370496.5, 1e15 + 0.3, 2.675, 1.45, 8.345,
    ];
    for &v in values.iter() {
        for digits in -330..=330 {
            for x in [v, -v] {
                let got = round_value(Format::Binary64, x.to_bits(), digits).ok();
                assert_eq!(got, reference64(x, digits).map(f64::to_bits), "{x:e} at {digits}");
            }
        }
    }
}

#[test]
fn round_value_agrees_with_the_machine_binary32() {
    let values = [
        0.0f32, 1.0, 2.345, 1.005, 0.1, 0.5, 1.5, 2.5, 150.0, 1e-5, 123456.79, 0.000123456,
        1e-45, 1e-39, 1e10, 1e30, f32::MAX, f32::MIN_POSITIVE, 0.015, 0.025, 8388608.5, 2.675,
    ];
    for &v in values.iter() {
        for digits in -50..=50 {
            for x in [v, -v] {
                let got = round_value(Format::Binary32, x.to_bits() as u64, digits).ok();
                assert_eq!(
                    got,
                    reference32(x, digits).map(|r| r.to_bits() as u64),
                    "{x:e} at {digits}"
                );
            }
        }
    }
}

#[test]
fn round_agrees_with_round_value_slot_by_slot() {
    let items = [Some(2.345), None, Some(-0.5), Some(1e10), None, Some(7.0)];
    let a = column64(&items);
    for digits in [-3, -1, 0, 1, 4] {
        let r = a.round(digits).unwrap();
        let expected: Vec<Option<u64>> = items
            .iter()
            .map(|x| x.map(|v| round_value(Format::Binary64, v.to_bits(), digits).unwrap()))
            .collect();
        assert_eq!(r.to_options(), expected);
    }
}

#[test]
fn rounding_leaves_the_input_as_it_was() {
    let a = column64(&[Some(2.345), None]);
    let before = a.to_options();
    let _ = a.round(1).unwrap();
    let _ = a.round(400);
    assert_eq!(a.to_options(), before);
}

#[test]
fn a_pattern_wider_than_binary32_is_no_number_of_it() {
    let wide = 0x1_0000_0000u64;
    assert_eq!(round_value(Format::Binary32, wide, 2), Ok(wide));
}

#[test]
fn small_powers_of_ten_are_the_decimal_numbers() {
    for k in 0..=22u32 {
        let exact: f64 = format!("1e{k}").parse().unwrap();
        assert_eq!(power_of_ten(Format::Binary64, k), exact.to_bits());
    }
    for k in 0..=10u32 {
        let exact: f32 = format!("1e{k}").parse().unwrap();
        assert_eq!(power_of_ten(Format::Binary32, k), exact.to_bits() as u64);
    }
}

#[test]
fn a_rounded_finite_value_is_finite_and_a_rounded_binary32_fits_32_bits() {
    for v in [0.0f32, 1.25, -3.75, 1e-40, 3.0e38, 123456.7] {
        for digits in [-40, -3, 0, 3, 40] {
            if let Ok(r) = round_value(Format::Binary32, v.to_bits() as u64, digits) {
                assert!(r <= u32::MAX as u64);
                assert!(f32::from_bits(r as u32).is_finite());
            }
        }
    }
    for v in [0.0f64, 1.25, -3.75, 1e-310, 1.7e308, 123456.7] {
        for digits in [-310, -3, 0, 3, 310] {
            if let Ok(r) = round_value(Format::Binary64, v.to_bits(), digits) {
                assert!(f64::from_bits(r).is_finite());
            }
        }
    }
}

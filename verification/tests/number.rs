use ijson::number::can_represent_as_f32;
use ijson::number::can_represent_as_f64;
use ijson::INumber;

fn num(v: f64) -> INumber {
    INumber::try_from_f64_bits(v.to_bits()).unwrap()
}

#[test]
fn number_can_create() {
    let x = INumber::zero();
    let y: INumber = num(0.0);

    assert_eq!(x, y);
    assert!(!x.has_decimal_point());
    assert!(y.has_decimal_point());
    assert_eq!(x.to_i32(), Some(0));
    assert_eq!(y.to_i32(), Some(0));
    assert!(INumber::try_from_f64_bits(f64::from(f32::INFINITY).to_bits()).is_err());
    assert!(INumber::try_from_f64_bits(f64::INFINITY.to_bits()).is_err());
    assert!(INumber::try_from_f64_bits(f64::from(f32::NEG_INFINITY).to_bits()).is_err());
    assert!(INumber::try_from_f64_bits(f64::NEG_INFINITY.to_bits()).is_err());
    assert!(INumber::try_from_f64_bits(f64::from(f32::NAN).to_bits()).is_err());
    assert!(INumber::try_from_f64_bits(f64::NAN.to_bits()).is_err());
}

#[test]
fn can_compare_various_numbers() {
    assert!(INumber::from(1) < num(1.5));
    assert!(INumber::from(2) > num(1.5));
    assert!(INumber::from(-2) < num(1.5));
    assert!(INumber::from(-2) < num(-1.5));
    assert!(INumber::from(-2) == num(-2.0));
    assert!(num(-1.5) > INumber::from(-2));
    assert!(num(1e30) > INumber::from(u64::MAX));
    assert!(num(1e30) > INumber::from(i64::MAX));
    assert!(num(-1e30) < INumber::from(i64::MIN));
    assert!(num(-1e30) < INumber::from(i64::MIN));
    assert!(num(99_999_999_000.0) < INumber::from(99_999_999_001_u64));
}

#[test]
fn number_static_tier_covers_bytes() {
    assert!(INumber::from(-128i8).is_static());
    assert!(INumber::from(255u8).is_static());
    assert!(INumber::from(383i16).is_static());
    assert!(!INumber::from(384i16).is_static());
    assert!(!INumber::from(-129i16).is_static());
    assert!(INumber::from(-128i64).is_static());
    assert!(INumber::zero().is_static());
    assert!(INumber::one().is_static());
    assert!(!num(1.0).is_static());
    assert_eq!(INumber::one().to_u64(), Some(1));
    assert_eq!(INumber::default().to_i64(), Some(0));
}

#[test]
fn number_round_trips_integers() {
    let values: [i64; 13] = [
        0,
        1,
        -1,
        383,
        384,
        -129,
        0x7F_FFFF,
        0x80_0000,
        -0x80_0000,
        -0x80_0001,
        i64::MAX,
        i64::MIN,
        1 << 53,
    ];
    for v in values {
        let n = INumber::from(v);
        assert_eq!(n.to_i64(), Some(v));
        assert_eq!(n.to_u64(), if v >= 0 { Some(v as u64) } else { None });
        assert_eq!(n.to_i32(), i32::try_from(v).ok());
        assert_eq!(n.to_u32(), u32::try_from(v).ok());
        assert_eq!(n.to_isize(), isize::try_from(v).ok());
        assert_eq!(n.to_usize(), usize::try_from(v).ok());
        assert_eq!(n.clone(), n);
    }
    let big = INumber::from(u64::MAX);
    assert_eq!(big.to_u64(), Some(u64::MAX));
    assert_eq!(big.to_i64(), None);
    assert_eq!(big.to_usize(), usize::try_from(u64::MAX).ok());
    assert_eq!(INumber::from(42u32).to_u32(), Some(42));
    assert_eq!(INumber::from(42u16).to_u32(), Some(42));
    assert_eq!(INumber::from(42usize).to_usize(), Some(42));
    assert_eq!(INumber::from(-42i32).to_i32(), Some(-42));
    assert_eq!(INumber::from(-42isize).to_isize(), Some(-42));
}

#[test]
fn number_converts_doubles_exactly() {
    assert_eq!(num(2.0).to_i64(), Some(2));
    assert_eq!(num(-2.0).to_i64(), Some(-2));
    assert_eq!(num(2.5).to_i64(), None);
    assert_eq!(num(-0.0).to_i64(), Some(0));
    assert_eq!(num(0.0).to_u64(), Some(0));
    assert_eq!(num(-1.0).to_u64(), None);
    assert_eq!(num(1e30).to_i64(), None);
    assert_eq!(num(1e30).to_u64(), None);
    assert_eq!(num(5e-324).to_i64(), None);
    assert_eq!(num(9_223_372_036_854_775_808.0).to_i64(), None);
    assert_eq!(num(9_223_372_036_854_775_808.0).to_u64(), Some(1 << 63));
    assert_eq!(num(-9_223_372_036_854_775_808.0).to_i64(), Some(i64::MIN));
    assert_eq!(num(18_446_744_073_709_551_616.0).to_u64(), None);
    assert_eq!(num(9_007_199_254_740_992.0).to_i64(), Some(1 << 53));
    assert_eq!(num(4_294_967_296.0).to_u32(), None);
    assert_eq!(num(4_294_967_295.0).to_u32(), Some(u32::MAX));
    assert_eq!(num(-2_147_483_648.0).to_i32(), Some(i32::MIN));
}

#[test]
fn number_orders_across_the_exact_integer_boundary() {
    let two_53 = 1u64 << 53;
    assert!(INumber::from(two_53 + 1) > num(9_007_199_254_740_992.0));
    assert!(INumber::from(two_53) == num(9_007_199_254_740_992.0));
    assert!(INumber::from(two_53 - 1) < num(9_007_199_254_740_992.0));
    assert!(INumber::from(u64::MAX) < num(18_446_744_073_709_551_616.0));
    assert!(INumber::from(i64::MIN) == num(-9_223_372_036_854_775_808.0));
    assert!(INumber::from(i64::MIN + 1) > num(-9_223_372_036_854_775_808.0));
    assert!(num(0.5) > INumber::from(0));
    assert!(num(-0.5) < INumber::from(0));
    assert!(num(0.0) == num(-0.0));
    assert!(num(5e-324) > INumber::from(0));
    assert!(num(1.5) < num(2.5));
    assert!(num(-1.5) > num(-2.5));
    assert!(num(1e300) > num(1e-300));
    assert!(INumber::from(300) < INumber::from(1u64 << 40));
    assert!(INumber::from(-300) < INumber::from(5));
    assert!(INumber::from(u64::MAX) > INumber::from(i64::MAX));
    assert!(INumber::from(1) == INumber::from(1u8));
}

#[test]
fn number_knows_what_a_double_holds() {
    assert!(can_represent_as_f64(0));
    assert!(can_represent_as_f64(1 << 53));
    assert!(!can_represent_as_f64((1 << 53) + 1));
    assert!(can_represent_as_f64((1 << 54) + 4));
    assert!(!can_represent_as_f64((1 << 54) + 2));
    assert!(can_represent_as_f64(1 << 63));
    assert!(!can_represent_as_f64(u64::MAX));
    assert!(can_represent_as_f32(1 << 24));
    assert!(!can_represent_as_f32((1 << 24) + 1));
}

fn to_f64(x: &INumber) -> Option<f64> {
    x.to_f64().map(f64::from_bits)
}

#[test]
fn can_store_various_numbers() {
    let x: INumber = 256.into();
    assert_eq!(x.to_i64(), Some(256));
    assert_eq!(x.to_u64(), Some(256));
    assert_eq!(to_f64(&x), Some(256.0));

    let x: INumber = 0x1000000.into();
    assert_eq!(x.to_i64(), Some(0x1000000));
    assert_eq!(x.to_u64(), Some(0x1000000));
    assert_eq!(to_f64(&x), Some(16_777_216.0));

    let x: INumber = i64::MIN.into();
    assert_eq!(x.to_i64(), Some(i64::MIN));
    assert_eq!(x.to_u64(), None);
    assert_eq!(to_f64(&x), Some(-9_223_372_036_854_775_808.0));

    let x: INumber = i64::MAX.into();
    assert_eq!(x.to_i64(), Some(i64::MAX));
    assert_eq!(x.to_u64(), Some(i64::MAX as u64));
    assert_eq!(to_f64(&x), None);

    let x: INumber = u64::MAX.into();
    assert_eq!(x.to_i64(), None);
    assert_eq!(x.to_u64(), Some(u64::MAX));
    assert_eq!(to_f64(&x), None);

    let x: INumber = 13369629.into();
    assert_eq!(x.to_i64(), Some(13_369_629));
    assert_eq!(x.to_u64(), Some(13_369_629));
    assert_eq!(to_f64(&x), Some(13_369_629.0));

    let x: INumber = 0x800000.into();
    assert_eq!(x.to_i64(), Some(0x800000));
    assert_eq!(x.to_u64(), Some(0x800000));

    let x: INumber = (-0x800000).into();
    assert_eq!(x.to_i64(), Some(-0x800000));
    assert_eq!(x.to_u64(), None);

    let x: INumber = 0x7FFFFF.into();
    assert_eq!(x.to_i64(), Some(0x7FFFFF));
    assert_eq!(x.to_u64(), Some(0x7FFFFF));

    let x: INumber = (-0x7FFFFF).into();
    assert_eq!(x.to_i64(), Some(-0x7FFFFF));
    assert_eq!(x.to_u64(), None);
}

#[test]
fn number_gives_the_double_it_is() {
    let values: [i64; 12] = [
        0,
        1,
        -1,
        3,
        -300,
        1 << 52,
        (1 << 53) - 1,
        1 << 53,
        -(1 << 53),
        (1 << 62) + (1 << 10),
        -((1 << 62) + (1 << 10)),
        i64::MIN,
    ];
    for v in values {
        assert_eq!(to_f64(&INumber::from(v)), Some(v as f64));
        assert_eq!(INumber::from(v).to_f64(), Some((v as f64).to_bits()));
    }
    for v in [(1i64 << 53) + 1, i64::MAX, -((1i64 << 53) + 1)] {
        assert_eq!(to_f64(&INumber::from(v)), None);
    }
    assert_eq!(to_f64(&INumber::from(1u64 << 63)), Some(9_223_372_036_854_775_808.0));
    assert_eq!(to_f64(&INumber::from(u64::MAX - 1)), None);
    assert_eq!(to_f64(&INumber::from(u64::MAX - 2047)), Some(18_446_744_073_709_549_568.0));
    for d in [0.0, -0.0, 1.5, -2.25, 1e300, 5e-324, f64::MAX, f64::MIN_POSITIVE] {
        assert_eq!(num(d).to_f64(), Some(d.to_bits()));
    }
}

fn to_f32(x: &INumber) -> Option<f32> {
    x.to_f32().map(f32::from_bits)
}

#[test]
fn number_gives_the_single_it_is() {
    for v in [0i64, 1, -1, 3, -300, 1 << 23, (1 << 24) - 1, 1 << 24, -(1 << 24), 1 << 40, i64::MIN] {
        assert_eq!(to_f32(&INumber::from(v)), Some(v as f32));
        assert_eq!(INumber::from(v).to_f32(), Some((v as f32).to_bits()));
    }
    for v in [(1i64 << 24) + 1, i64::MAX, -((1i64 << 24) + 1), (1 << 40) + 1] {
        assert_eq!(to_f32(&INumber::from(v)), None);
    }
    assert_eq!(to_f32(&INumber::from(1u64 << 63)), Some(9_223_372_036_854_775_808.0));
    assert_eq!(to_f32(&INumber::from(u64::MAX)), None);
    let exact: [f32; 12] = [
        0.0,
        -0.0,
        1.5,
        -2.25,
        0.1,
        1e30,
        f32::MAX,
        f32::MIN,
        f32::MIN_POSITIVE,
        f32::from_bits(1),
        f32::from_bits(0x007f_ffff),
        -f32::from_bits(0x0040_0001),
    ];
    for d in exact {
        let n = num(f64::from(d));
        assert_eq!(n.to_f32(), Some(d.to_bits()));
    }
    for d in [0.1f64, 1e39, -1e39, 5e-324, 1e-46, f64::MAX, 16_777_217.0, f64::from(f32::MAX) * 2.0] {
        let n = num(d);
        assert_eq!(n.to_f32(), None);
        // the double does not survive the way to single precision and back
        assert!(f64::from(d as f32) != d);
    }
}

use pathtracer::scalar::Scalar;

fn scalar_of(x: f32) -> Scalar {
    Scalar::from_bits(x.to_bits())
}

fn sample_values() -> Vec<f32> {
    vec![
        0.0,
        -0.0,
        1.0,
        -1.0,
        0.001,
        -0.001,
        0.5,
        0.6,
        0.8,
        0.9,
        1.5,
        255.99,
        f32::MIN_POSITIVE,
        -f32::MIN_POSITIVE,
        f32::from_bits(1),
        f32::from_bits(0x8000_0001),
        f32::from_bits(0x007f_ffff),
        f32::EPSILON,
        f32::MAX,
        f32::MIN,
        f32::INFINITY,
        f32::NEG_INFINITY,
        f32::NAN,
        -f32::NAN,
        f32::from_bits(0x7f80_0001),
        f32::from_bits(0xffff_ffff),
        3.0e38,
        -3.0e38,
        1.0e-40,
        -1.0e-40,
    ]
}

#[test]
fn lt_agrees_with_binary32_on_every_pair() {
    let values = sample_values();
    for &a in &values {
        for &b in &values {
            assert_eq!(scalar_of(a).lt(scalar_of(b)), a < b, "{:?} < {:?}", a, b);
        }
    }
}

#[test]
fn gt_agrees_with_binary32_on_every_pair() {
    let values = sample_values();
    for &a in &values {
        for &b in &values {
            assert_eq!(scalar_of(a).gt(scalar_of(b)), a > b, "{:?} > {:?}", a, b);
        }
    }
}

#[test]
fn nan_agrees_with_binary32() {
    for &a in &sample_values() {
        assert_eq!(scalar_of(a).nan(), a.is_nan(), "{:?}", a);
    }
}

#[test]
fn lt_agrees_with_binary32_on_a_sweep_of_patterns() {
    let mut bits_a: u32 = 0;
    for _ in 0..400 {
        let mut bits_b: u32 = 0x0123_4567;
        for _ in 0..400 {
            let a = f32::from_bits(bits_a);
            let b = f32::from_bits(bits_b);
            assert_eq!(Scalar::from_bits(bits_a).lt(Scalar::from_bits(bits_b)), a < b);
            bits_b = bits_b.wrapping_add(0x00a3_d70b);
        }
        bits_a = bits_a.wrapping_add(0x00c4_9ba7);
    }
}

#[test]
fn the_two_zeros_are_neither_below_nor_above_each_other() {
    let plus = scalar_of(0.0);
    let minus = scalar_of(-0.0);
    assert!(!plus.lt(minus));
    assert!(!minus.lt(plus));
    assert!(!plus.gt(minus));
    assert_ne!(plus, minus);
}

#[test]
fn no_number_is_below_or_above_nothing() {
    let nan = scalar_of(f32::NAN);
    assert!(!nan.lt(nan));
    assert!(!nan.gt(nan));
    assert!(!nan.lt(scalar_of(f32::INFINITY)));
    assert!(!scalar_of(f32::NEG_INFINITY).lt(nan));
}

#[test]
fn named_scalars_have_their_values() {
    assert_eq!(Scalar::zero().to_bits(), 0.0f32.to_bits());
    assert_eq!(Scalar::one().to_bits(), 1.0f32.to_bits());
    assert_eq!(Scalar::infinity().to_bits(), f32::INFINITY.to_bits());
    assert_eq!(f32::from_bits(Scalar::one().to_bits()), 1.0);
}

#[test]
fn bits_go_in_and_come_out_unchanged() {
    for &a in &sample_values() {
        assert_eq!(scalar_of(a).to_bits(), a.to_bits());
        assert_eq!(scalar_of(a).bits, a.to_bits());
    }
}

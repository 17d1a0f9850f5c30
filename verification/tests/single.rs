use metric_alert_service::single::{
    single_exceeds, single_is_nan, single_is_zero, single_whole_seconds,
};

fn interesting() -> Vec<f32> {
    let mut all = vec![
        0.0f32,
        -0.0,
        1.0,
        -1.0,
        0.5,
        -0.5,
        0.999_999_94,
        1.5,
        2.0,
        10.0,
        -10.75,
        12.0,
        8.0,
        16_777_216.0,
        16_777_217.0,
        8_388_607.5,
        -8_388_608.5,
        4_294_967_296.0,
        9.223_372e18,
        -9.223_372e18,
        9.3e18,
        -9.3e18,
        1.0e30,
        -1.0e30,
        f32::MAX,
        f32::MIN,
        f32::MIN_POSITIVE,
        f32::EPSILON,
        f32::INFINITY,
        f32::NEG_INFINITY,
        f32::NAN,
        -f32::NAN,
        f32::from_bits(1),
        f32::from_bits(0x8000_0001),
        f32::from_bits(0x7fc0_0001),
        f32::from_bits(0x7f80_0001),
        f32::from_bits(0x5f00_0000),
        f32::from_bits(0xdf00_0000),
        f32::from_bits(0x5eff_ffff),
        f32::from_bits(0xdeff_ffff),
    ];
    let mut state: u32 = 0x1234_5678;
    for _ in 0..4000 {
        state = state.wrapping_mul(1_664_525).wrapping_add(1_013_904_223);
        all.push(f32::from_bits(state));
    }
    all
}

#[test]
fn zero_test_agrees_with_the_machine() {
    for x in interesting() {
        assert_eq!(single_is_zero(x.to_bits()), x == 0.0, "{:?}", x);
    }
    assert!(single_is_zero(0));
    assert!(single_is_zero(0x8000_0000));
    assert!(!single_is_zero(1));
}

#[test]
fn nan_test_agrees_with_the_machine() {
    for x in interesting() {
        assert_eq!(single_is_nan(x.to_bits()), x.is_nan(), "{:?}", x);
    }
}

#[test]
fn whole_seconds_agree_with_the_machine() {
    for x in interesting() {
        assert_eq!(single_whole_seconds(x.to_bits()), x as i64, "{:?}", x);
    }
}

#[test]
fn whole_seconds_of_chosen_values() {
    assert_eq!(single_whole_seconds(10.0f32.to_bits()), 10);
    assert_eq!(single_whole_seconds(1.9f32.to_bits()), 1);
    assert_eq!(single_whole_seconds((-1.9f32).to_bits()), -1);
    assert_eq!(single_whole_seconds(0.99f32.to_bits()), 0);
    assert_eq!(single_whole_seconds(f32::NAN.to_bits()), 0);
    assert_eq!(single_whole_seconds(f32::INFINITY.to_bits()), i64::MAX);
    assert_eq!(single_whole_seconds(f32::NEG_INFINITY.to_bits()), i64::MIN);
    assert_eq!(single_whole_seconds(16_777_216.0f32.to_bits()), 16_777_216);
    assert_eq!(single_whole_seconds(4_294_967_296.0f32.to_bits()), 4_294_967_296);
}

#[test]
fn order_agrees_with_the_machine() {
    let all = interesting();
    for a in all.iter().take(60) {
        for b in all.iter() {
            assert_eq!(single_exceeds(a.to_bits(), b.to_bits()), a > b, "{:?} > {:?}", a, b);
            assert_eq!(single_exceeds(b.to_bits(), a.to_bits()), b > a, "{:?} > {:?}", b, a);
        }
    }
}

#[test]
fn zeros_do_not_exceed_each_other() {
    assert!(!single_exceeds(0.0f32.to_bits(), (-0.0f32).to_bits()));
    assert!(!single_exceeds((-0.0f32).to_bits(), 0.0f32.to_bits()));
    assert!(single_exceeds(0.0f32.to_bits(), (-1.0f32).to_bits()));
    assert!(!single_exceeds(f32::NAN.to_bits(), 0.0f32.to_bits()));
    assert!(!single_exceeds(1.0f32.to_bits(), f32::NAN.to_bits()));
}

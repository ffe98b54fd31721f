//! Bit timings of the CAN controller.

use hc32_firmware::can_timing::{calculate, BitTiming, MAX_CLASSIC_BITRATE};

fn canonical_500k() -> Option<BitTiming> {
    calculate(8_000_000, 500_000, 750, 2, 0)
}

#[test]
fn canonical_8mhz_500k_timing_and_sbt_encoding_are_stable() {
    let timing = canonical_500k().unwrap();

    assert_eq!(timing.prescaler, 2);
    assert_eq!(timing.time_seg1, 6);
    assert_eq!(timing.time_seg2, 2);
    assert_eq!(timing.sjw, 2);
    assert_eq!(timing.total_time_quanta(), 8);
    assert_eq!(timing.actual_bitrate(8_000_000), 500_000);
    assert_eq!(timing.sample_point_permille(), 750);
    assert_eq!(timing.error_ppm(8_000_000, 500_000), 0);
    assert_eq!(timing.register_value(), 0x0101_0104);
}

#[test]
fn common_bitrates_prefer_the_largest_equally_accurate_bit_time() {
    let cases = [
        (1_000_000, 1, 2, 3, 1),
        (250_000, 2, 2, 12, 4),
        (125_000, 2, 2, 24, 8),
        (100_000, 2, 4, 15, 5),
        (50_000, 2, 5, 24, 8),
    ];

    for (bitrate, sjw, prescaler, time_seg1, time_seg2) in cases {
        let timing = calculate(8_000_000, bitrate, 750, sjw, 0).unwrap();
        assert_eq!(timing.prescaler, prescaler, "{bitrate} bit/s");
        assert_eq!(timing.time_seg1, time_seg1, "{bitrate} bit/s");
        assert_eq!(timing.time_seg2, time_seg2, "{bitrate} bit/s");
        assert_eq!(timing.actual_bitrate(8_000_000), bitrate);
        assert_eq!(timing.sample_point_permille(), 750);
    }
}

#[test]
fn rejects_invalid_inputs_and_unreachable_sjw() {
    assert_eq!(calculate(0, 500_000, 750, 1, 10_000), None);
    assert_eq!(calculate(8_000_000, 0, 750, 1, 10_000), None);
    assert_eq!(calculate(8_000_000, 500_000, 0, 1, 10_000), None);
    assert_eq!(calculate(8_000_000, 500_000, 1_000, 1, 10_000), None);
    assert_eq!(calculate(8_000_000, 500_000, 750, 0, 10_000), None);
    assert_eq!(calculate(8_000_000, 500_000, 750, 9, 10_000), None);
    assert_eq!(calculate(8_000_000, 500_000, 750, 8, 0), None);
    assert_eq!(calculate(8_000_000, 1_333_333, 667, 1, 0), None);
}

#[test]
fn never_selects_an_actual_rate_above_the_classic_can_limit() {
    let timing = calculate(8_500_000, MAX_CLASSIC_BITRATE, 750, 1, 1_000_000).unwrap();
    assert!(timing.actual_bitrate(8_500_000) <= MAX_CLASSIC_BITRATE);
}

#[test]
fn enforces_the_exact_bitrate_error_limit() {
    assert_eq!(calculate(8_000_000, 333_000, 750, 1, 1_000), None);

    let timing = calculate(8_000_000, 333_000, 750, 1, 1_002).unwrap();
    assert_eq!(timing.prescaler * timing.total_time_quanta(), 24);
    assert_eq!(timing.actual_bitrate(8_000_000), 333_333);
    assert_eq!(timing.error_ppm(8_000_000, 333_000), 1_001);
}

#[test]
fn returned_values_obey_ddl_boundaries_and_exclude_prescaler_one() {
    let minimum = calculate(6_000_000, 1_000_000, 667, 1, 0).unwrap();
    assert_eq!(
        minimum,
        BitTiming {
            prescaler: 2,
            time_seg1: 2,
            time_seg2: 1,
            sjw: 1,
        }
    );

    let maximum = calculate(18_688_000, 1_000, 890, 8, 0).unwrap();
    assert_eq!(
        maximum,
        BitTiming {
            prescaler: 256,
            time_seg1: 65,
            time_seg2: 8,
            sjw: 8,
        }
    );
    assert_eq!(maximum.register_value(), 0xFF07_073F);

    for timing in [minimum, maximum, canonical_500k().unwrap()] {
        assert!((2..=256).contains(&timing.prescaler));
        assert!((2..=65).contains(&timing.time_seg1));
        assert!((1..=8).contains(&timing.time_seg2));
        assert!((1..=8).contains(&timing.sjw));
        assert!(timing.time_seg1 >= timing.time_seg2 + 1);
        assert!(timing.time_seg2 >= timing.sjw);
    }
}

#[test]
fn extreme_u32_inputs_do_not_overflow() {
    assert_eq!(calculate(u32::MAX, u32::MAX, 750, 1, u32::MAX), None);
    assert!(calculate(u32::MAX, MAX_CLASSIC_BITRATE, 750, 1, u32::MAX).is_some());

    let fastest_divider = BitTiming {
        prescaler: 2,
        time_seg1: 2,
        time_seg2: 1,
        sjw: 1,
    };
    assert_eq!(fastest_divider.error_ppm(u32::MAX, 1), u32::MAX);
    assert_eq!(calculate(u32::MAX, 1, 750, 1, u32::MAX), None);
}

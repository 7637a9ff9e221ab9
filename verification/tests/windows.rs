use crimson::command::PayoutArgs;
use crimson::error::PayoutError;
use crimson::policy::{PayoutPolicy, PayoutSpecifierArgs, Rate};
use crimson::window::{parse_datetime, TimeWindow, Timestamp};

const SECOND: i128 = 1_000_000_000;

#[test]
fn parse_datetime_reads_utc() {
    assert_eq!(
        parse_datetime("2026-02-01T00:00:00Z"),
        Ok(Timestamp { unix_nanos: 1_769_904_000 * SECOND, offset_seconds: 0 })
    );
    assert_eq!(
        parse_datetime("1970-01-01T00:00:00Z"),
        Ok(Timestamp { unix_nanos: 0, offset_seconds: 0 })
    );
}

#[test]
fn parse_datetime_keeps_the_offset() {
    let east = parse_datetime("2026-02-01T00:00:00+05:30").unwrap();
    assert_eq!(east.unix_nanos, (1_769_904_000 - 19_800) * SECOND);
    assert_eq!(east.offset_seconds, 19_800);
    let west = parse_datetime("1969-12-31T23:00:00-01:00").unwrap();
    assert_eq!(west.unix_nanos, 0);
    assert_eq!(west.offset_seconds, -3_600);
    let utc = parse_datetime("2026-02-01T00:00:00Z").unwrap();
    assert_eq!(utc.offset_seconds, 0);
}

#[test]
fn one_moment_written_under_two_offsets_is_one_moment() {
    let utc = parse_datetime("2026-02-01T00:00:00Z").unwrap();
    let east = parse_datetime("2026-02-01T01:00:00+01:00").unwrap();
    assert_eq!(utc.unix_nanos, 1_769_904_000 * SECOND);
    assert_eq!(east.unix_nanos, 1_769_904_000 * SECOND);
    assert_eq!(east.offset_seconds, 3_600);
    assert_eq!(utc, east);
    assert!(utc == east && east == utc);
    let later = parse_datetime("2026-02-01T01:00:00Z").unwrap();
    assert_ne!(utc, later);
    assert_ne!(east, later);
    assert_eq!(
        Timestamp { unix_nanos: 7, offset_seconds: 0 },
        Timestamp { unix_nanos: 7, offset_seconds: -7_200 }
    );
    assert_ne!(
        Timestamp { unix_nanos: 7, offset_seconds: 0 },
        Timestamp { unix_nanos: 8, offset_seconds: 0 }
    );
}

#[test]
fn parse_datetime_reads_fractions_of_a_second() {
    assert_eq!(
        parse_datetime("1970-01-01T00:00:01.5Z"),
        Ok(Timestamp { unix_nanos: 1_500_000_000, offset_seconds: 0 })
    );
}

#[test]
fn parse_datetime_refuses_what_is_no_datetime() {
    for text in ["", "yesterday", "2026-02-30T00:00:00Z", "2026-02-01", "12:00:00Z"] {
        assert_eq!(parse_datetime(text), Err(PayoutError::InputValidationError));
    }
}

#[test]
fn a_window_needs_a_start_before_its_end() {
    let early = Timestamp { unix_nanos: 10, offset_seconds: 0 };
    let late = Timestamp { unix_nanos: 20, offset_seconds: 0 };
    let window = TimeWindow::new(early, late).ok().unwrap();
    assert_eq!(window.start(), early);
    assert_eq!(window.end(), late);
    let written = Timestamp { unix_nanos: 10, offset_seconds: 3_600 };
    let kept = TimeWindow::new(written, late).ok().unwrap();
    assert_eq!(kept.start().offset_seconds, 3_600);
    assert!(matches!(TimeWindow::new(late, early), Err(PayoutError::InputValidationError)));
    assert!(matches!(TimeWindow::new(early, early), Err(PayoutError::InputValidationError)));
}

#[test]
fn a_window_is_half_open() {
    let start = Timestamp { unix_nanos: -5, offset_seconds: 0 };
    let end = Timestamp { unix_nanos: 5, offset_seconds: 0 };
    let window = TimeWindow::new(start, end).ok().unwrap();
    assert!(window.contains(&start));
    assert!(window.contains(&Timestamp { unix_nanos: 4, offset_seconds: 0 }));
    assert!(!window.contains(&end));
    assert!(!window.contains(&Timestamp { unix_nanos: -6, offset_seconds: 0 }));
    assert!(window.contains(&Timestamp { unix_nanos: 0, offset_seconds: 7_200 }));
}

#[test]
fn the_offset_does_not_order_moments() {
    let start = Timestamp { unix_nanos: 100, offset_seconds: 3_600 };
    let end = Timestamp { unix_nanos: 100, offset_seconds: 0 };
    assert!(matches!(TimeWindow::new(start, end), Err(PayoutError::InputValidationError)));
}

#[test]
fn the_period_is_the_distance_between_the_ends() {
    let window = TimeWindow::parse("2026-02-01T00:00:00Z", "2026-03-01T00:00:00Z").ok().unwrap();
    assert_eq!(window.period_nanos(), 28 * 86_400 * SECOND as u128);
    let wide = TimeWindow::new(
        Timestamp { unix_nanos: i128::MIN, offset_seconds: 0 },
        Timestamp { unix_nanos: i128::MAX, offset_seconds: 0 },
    )
    .ok()
    .unwrap();
    assert_eq!(wide.period_nanos(), u128::MAX);
    let before = TimeWindow::new(
        Timestamp { unix_nanos: -30, offset_seconds: 0 },
        Timestamp { unix_nanos: -10, offset_seconds: 0 },
    )
    .ok()
    .unwrap();
    assert_eq!(before.period_nanos(), 20);
}

#[test]
fn a_window_is_parsed_from_two_texts() {
    let window = TimeWindow::parse("2026-02-01T00:00:00Z", "2026-03-01T00:00:00Z").ok().unwrap();
    assert_eq!(window.start().unix_nanos, 1_769_904_000 * SECOND);
    assert_eq!(window.end().unix_nanos, 1_772_323_200 * SECOND);
    assert!(matches!(
        TimeWindow::parse("2026-03-01T00:00:00Z", "2026-02-01T00:00:00Z"),
        Err(PayoutError::InputValidationError)
    ));
    assert!(matches!(
        TimeWindow::parse("2026-02-01T00:00:00Z", "2026-02-01T01:00:00+01:00"),
        Err(PayoutError::InputValidationError)
    ));
    assert!(matches!(
        TimeWindow::parse("soon", "2026-02-01T00:00:00Z"),
        Err(PayoutError::InputValidationError)
    ));
    assert!(matches!(
        TimeWindow::parse("2026-02-01T00:00:00Z", "later"),
        Err(PayoutError::InputValidationError)
    ));
}

#[test]
fn exactly_one_payout_mode_is_to_be_given() {
    let rate = PayoutSpecifierArgs { cookie_rate: Some(2.5f64.to_bits()), cookie_pool: None };
    match rate.policy() {
        Ok(PayoutPolicy::FixedRate { rate }) => {
            assert_eq!(rate.numerator() as f64 / rate.denominator() as f64, 2.5)
        }
        _ => panic!("a rate selects the fixed rate"),
    }
    let pool = PayoutSpecifierArgs { cookie_rate: None, cookie_pool: Some(40) };
    assert!(matches!(pool.policy(), Ok(PayoutPolicy::Pool { total: 40 })));
    let both = PayoutSpecifierArgs { cookie_rate: Some(2.5f64.to_bits()), cookie_pool: Some(40) };
    assert!(matches!(both.policy(), Err(PayoutError::InputValidationError)));
    let neither = PayoutSpecifierArgs { cookie_rate: None, cookie_pool: None };
    assert!(matches!(neither.policy(), Err(PayoutError::InputValidationError)));
}

#[test]
fn a_payout_mode_has_to_be_positive() {
    for pool in [0, -1, i32::MIN] {
        let args = PayoutSpecifierArgs { cookie_rate: None, cookie_pool: Some(pool) };
        assert!(matches!(args.policy(), Err(PayoutError::InputValidationError)));
    }
    let most = PayoutSpecifierArgs { cookie_rate: None, cookie_pool: Some(i32::MAX) };
    assert!(matches!(most.policy(), Ok(PayoutPolicy::Pool { total: 2_147_483_647 })));
    for rate in [0.0f64, -0.0, -2.5, f64::NAN, f64::INFINITY, f64::NEG_INFINITY] {
        let args = PayoutSpecifierArgs { cookie_rate: Some(rate.to_bits()), cookie_pool: None };
        assert!(matches!(args.policy(), Err(PayoutError::InputValidationError)));
    }
}

#[test]
fn a_rate_is_the_exact_value_of_the_number() {
    for value in [2.5f64, 1.0, 0.1, 0.5, 3.0, 1e-3, 123456.789, 4096.0, 1.8e19] {
        let rate = Rate::from_binary64(value.to_bits()).ok().unwrap();
        assert_eq!(rate.numerator() as f64 / rate.denominator() as f64, value);
        assert!(rate.denominator().is_power_of_two());
    }
    let half = Rate::from_binary64(0.5f64.to_bits()).ok().unwrap();
    assert_eq!((half.numerator(), half.denominator()), (1 << 52, 1 << 53));
    let two = Rate::from_binary64(2.0f64.to_bits()).ok().unwrap();
    assert_eq!((two.numerator(), two.denominator()), (1 << 52, 1 << 51));
    let big = Rate::from_binary64(8388608.0f64.to_bits()).ok().unwrap();
    assert_eq!((big.numerator(), big.denominator()), (1 << 52, 1 << 29));
    let bigger = Rate::from_binary64(9007199254740992.0f64.to_bits()).ok().unwrap();
    assert_eq!((bigger.numerator(), bigger.denominator()), (1 << 53, 1));
}

#[test]
fn a_rate_out_of_reach_is_refused() {
    let smallest = f64::from_bits(948u64 << 52);
    assert!(Rate::from_binary64(smallest.to_bits()).is_ok());
    let below = f64::from_bits((948u64 << 52) - 1);
    assert!(matches!(
        Rate::from_binary64(below.to_bits()),
        Err(PayoutError::InputValidationError)
    ));
    let greatest = f64::from_bits((1087u64 << 52) - 1);
    let rate = Rate::from_binary64(greatest.to_bits()).ok().unwrap();
    assert_eq!((rate.numerator(), rate.denominator()), (u64::MAX - 2047, 1));
    let above = f64::from_bits(1087u64 << 52);
    assert!(matches!(
        Rate::from_binary64(above.to_bits()),
        Err(PayoutError::InputValidationError)
    ));
    assert!(matches!(
        Rate::from_binary64(f64::MIN_POSITIVE.to_bits()),
        Err(PayoutError::InputValidationError)
    ));
    assert!(matches!(Rate::from_binary64(1), Err(PayoutError::InputValidationError)));
}

#[test]
fn a_rate_is_a_positive_fraction() {
    let rate = Rate::new(5, 2).ok().unwrap();
    assert_eq!((rate.numerator(), rate.denominator()), (5, 2));
    assert!(matches!(Rate::new(0, 2), Err(PayoutError::InputValidationError)));
    assert!(matches!(Rate::new(5, 0), Err(PayoutError::InputValidationError)));
}

#[test]
fn arguments_are_checked_before_anything_runs() {
    let args = |start: &str, end: &str, rate: Option<f64>, pool: Option<i32>| PayoutArgs {
        start: start.to_string(),
        end: end.to_string(),
        payout_specifier: PayoutSpecifierArgs {
            cookie_rate: rate.map(f64::to_bits),
            cookie_pool: pool,
        },
    };
    let good = args("2026-02-01T00:00:00Z", "2026-03-01T00:00:00Z", None, Some(40));
    let request = good.validate().ok().unwrap();
    assert_eq!(request.window.period_nanos(), 28 * 86_400 * SECOND as u128);
    assert!(matches!(request.policy, PayoutPolicy::Pool { total: 40 }));
    let bad = [
        args("2026-02-01T00:00:00Z", "2026-02-01T00:00:00Z", None, Some(40)),
        args("2026-03-01T00:00:00Z", "2026-02-01T00:00:00Z", Some(2.5), None),
        args("first of February", "2026-03-01T00:00:00Z", Some(2.5), None),
        args("2026-02-01T00:00:00Z", "2026-03-01T00:00:00Z", Some(2.5), Some(40)),
        args("2026-02-01T00:00:00Z", "2026-03-01T00:00:00Z", None, None),
        args("2026-02-01T00:00:00Z", "2026-03-01T00:00:00Z", None, Some(0)),
        args("2026-02-01T00:00:00Z", "2026-03-01T00:00:00Z", Some(-1.0), None),
    ];
    for args in bad {
        assert!(matches!(args.validate(), Err(PayoutError::InputValidationError)));
    }
}

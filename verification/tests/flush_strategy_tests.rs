use lambda_otel_relay::flush_strategy::{
    FlushCoordinator, FlushStrategy, FlushStrategyError, TimerMode,
};

#[test]
fn parse_end() {
    let strategy = FlushStrategy::parse("end").unwrap();
    assert!(matches!(strategy, FlushStrategy::End));
}

#[test]
fn parse_empty_defaults_to_default() {
    let strategy = FlushStrategy::parse("").unwrap();
    assert!(matches!(strategy, FlushStrategy::Default));
}

#[test]
fn parse_default() {
    let strategy = FlushStrategy::parse("default").unwrap();
    assert!(matches!(strategy, FlushStrategy::Default));
}

#[test]
fn parse_unknown_strategy_errors() {
    let err = FlushStrategy::parse("bogus").unwrap_err();
    assert!(matches!(err, FlushStrategyError::UnknownStrategy(_)));
}

#[test]
fn parse_strategy_prefix_without_comma_is_unknown() {
    // "periodicallyX" should be UnknownStrategy, not InvalidParameter
    let err = FlushStrategy::parse("periodicallyX").unwrap_err();
    assert!(matches!(err, FlushStrategyError::UnknownStrategy(_)));

    let err = FlushStrategy::parse("continuouslyFoo").unwrap_err();
    assert!(matches!(err, FlushStrategyError::UnknownStrategy(_)));
}

#[test]
fn parse_periodically() {
    let strategy = FlushStrategy::parse("periodically,60000").unwrap();
    assert!(matches!(
        strategy,
        FlushStrategy::Periodically { interval_ms } if interval_ms == 60000
    ));
}

#[test]
fn parse_periodically_missing_param() {
    let err = FlushStrategy::parse("periodically").unwrap_err();
    assert!(matches!(err, FlushStrategyError::InvalidParameter { .. }));
}

#[test]
fn parse_periodically_zero() {
    let err = FlushStrategy::parse("periodically,0").unwrap_err();
    assert!(matches!(err, FlushStrategyError::InvalidParameter { .. }));
}

#[test]
fn parse_periodically_non_numeric() {
    let err = FlushStrategy::parse("periodically,abc").unwrap_err();
    assert!(matches!(err, FlushStrategyError::InvalidParameter { .. }));
}

#[test]
fn parse_end_periodically() {
    let strategy = FlushStrategy::parse("end,30000").unwrap();
    assert!(matches!(
        strategy,
        FlushStrategy::EndPeriodically { interval_ms } if interval_ms == 30000
    ));
}

#[test]
fn parse_end_periodically_zero() {
    let err = FlushStrategy::parse("end,0").unwrap_err();
    assert!(matches!(err, FlushStrategyError::InvalidParameter { .. }));
}

#[test]
fn parse_continuously() {
    let strategy = FlushStrategy::parse("continuously,60000").unwrap();
    assert!(matches!(
        strategy,
        FlushStrategy::Continuously { interval_ms } if interval_ms == 60000
    ));
}

#[test]
fn parse_continuously_missing_param() {
    let err = FlushStrategy::parse("continuously").unwrap_err();
    assert!(matches!(err, FlushStrategyError::InvalidParameter { .. }));
}

#[test]
fn parse_continuously_zero() {
    let err = FlushStrategy::parse("continuously,0").unwrap_err();
    assert!(matches!(err, FlushStrategyError::InvalidParameter { .. }));
}

#[test]
fn display_roundtrips_through_parse() {
    let cases: &[&str] = &[
        "default",
        "end",
        "end,30000",
        "periodically,60000",
        "continuously,5000",
    ];
    for &input in cases {
        let strategy = FlushStrategy::parse(input).unwrap();
        let displayed = strategy.to_string();
        let reparsed = FlushStrategy::parse(&displayed).unwrap();
        assert_eq!(
            displayed,
            reparsed.to_string(),
            "roundtrip failed for {input}"
        );
    }
}

#[test]
fn parse_negative_interval_errors() {
    let err = FlushStrategy::parse("periodically,-5").unwrap_err();
    assert!(matches!(err, FlushStrategyError::InvalidParameter { .. }));

    let err = FlushStrategy::parse("end,-100").unwrap_err();
    assert!(matches!(err, FlushStrategyError::InvalidParameter { .. }));

    let err = FlushStrategy::parse("continuously,-1").unwrap_err();
    assert!(matches!(err, FlushStrategyError::InvalidParameter { .. }));
}

#[test]
fn display_equals_input_for_each_form() {
    assert_eq!(FlushStrategy::Default.to_string(), "default");
    assert_eq!(FlushStrategy::End.to_string(), "end");
    assert_eq!(
        FlushStrategy::EndPeriodically { interval_ms: 30000 }.to_string(),
        "end,30000"
    );
    assert_eq!(
        FlushStrategy::Periodically { interval_ms: 60000 }.to_string(),
        "periodically,60000"
    );
    assert_eq!(
        FlushStrategy::Continuously { interval_ms: 5000 }.to_string(),
        "continuously,5000"
    );
}

// -- Coordinator tests; times are explicit monotonic-clock readings in ms --

#[test]
fn end_always_flushes_at_boundary() {
    let coord = FlushCoordinator::new(FlushStrategy::End);
    assert!(coord.should_flush_at_boundary(0));
}

#[test]
fn end_does_not_flush_on_timer() {
    let coord = FlushCoordinator::new(FlushStrategy::End);
    assert!(!coord.should_flush_on_timer(0));
}

#[test]
fn dedup_suppresses_boundary_flush() {
    let mut coord = FlushCoordinator::new(FlushStrategy::End);
    coord.record_flush(1000);
    // Within the 100 ms dedup window
    assert!(!coord.should_flush_at_boundary(1050));
}

#[test]
fn dedup_expires_after_window() {
    let mut coord = FlushCoordinator::new(FlushStrategy::End);
    coord.record_flush(1000);
    assert!(coord.should_flush_at_boundary(1101));
}

#[test]
fn first_invocation_always_flushes() {
    // No flush has run, so the dedup window does not apply
    let coord = FlushCoordinator::new(FlushStrategy::End);
    assert!(coord.should_flush_at_boundary(0));
}

#[test]
fn first_invocation_boundary_per_strategy() {
    for (strategy, expected) in [
        (FlushStrategy::End, true),
        (FlushStrategy::EndPeriodically { interval_ms: 1000 }, true),
        (FlushStrategy::Periodically { interval_ms: 1000 }, true),
        (FlushStrategy::Default, true),
        (FlushStrategy::Continuously { interval_ms: 1000 }, false),
    ] {
        let coord = FlushCoordinator::new(strategy);
        assert_eq!(coord.should_flush_at_boundary(0), expected);
    }
}

#[test]
fn dedup_suppresses_timer() {
    let mut coord = FlushCoordinator::new(FlushStrategy::Continuously { interval_ms: 50 });
    coord.record_flush(1000);
    assert!(!coord.should_flush_on_timer(1050));
    assert!(coord.should_flush_on_timer(1101));
}

#[test]
fn never_flushes_at_boundary() {
    let coord = FlushCoordinator::new(FlushStrategy::Continuously { interval_ms: 10 });
    assert!(!coord.should_flush_at_boundary(0));
}

#[test]
fn never_flushes_at_boundary_after_long_gap() {
    let mut coord = FlushCoordinator::new(FlushStrategy::Continuously { interval_ms: 10 });
    coord.record_flush(0);
    assert!(!coord.should_flush_at_boundary(3_600_000));
}

#[test]
fn boundary_skip_when_under_interval() {
    let mut coord = FlushCoordinator::new(FlushStrategy::Periodically { interval_ms: 10000 });
    coord.record_flush(1000);
    assert!(!coord.should_flush_at_boundary(5000));
}

#[test]
fn boundary_flush_when_interval_elapsed() {
    let mut coord = FlushCoordinator::new(FlushStrategy::Periodically { interval_ms: 10000 });
    coord.record_flush(1000);
    assert!(coord.should_flush_at_boundary(11_000));
}

#[test]
fn low_traffic_flushes_at_boundary() {
    // Default strategy: a gap over 60 s since the last flush means flush
    let mut coord = FlushCoordinator::new(FlushStrategy::Default);
    coord.record_flush(0);
    assert!(coord.should_flush_at_boundary(61_000));
}

#[test]
fn high_traffic_skips_boundary() {
    // Default strategy: a recent flush means skip
    let mut coord = FlushCoordinator::new(FlushStrategy::Default);
    coord.record_flush(0);
    assert!(!coord.should_flush_at_boundary(30_000));
}

#[test]
fn timer_mode_per_strategy() {
    let sync_ones = [
        FlushStrategy::EndPeriodically { interval_ms: 1000 },
        FlushStrategy::Periodically { interval_ms: 1000 },
    ];
    for strategy in sync_ones {
        assert_eq!(FlushCoordinator::new(strategy).timer_mode(), TimerMode::Sync);
    }
    let background_ones = [
        FlushStrategy::Default,
        FlushStrategy::Continuously { interval_ms: 1000 },
    ];
    for strategy in background_ones {
        assert_eq!(
            FlushCoordinator::new(strategy).timer_mode(),
            TimerMode::Background
        );
    }
}

#[test]
fn timer_interval_per_strategy() {
    assert_eq!(
        FlushCoordinator::new(FlushStrategy::End).timer_interval_ms(),
        None
    );
    assert_eq!(
        FlushCoordinator::new(FlushStrategy::Default).timer_interval_ms(),
        Some(60000)
    );
    assert_eq!(
        FlushCoordinator::new(FlushStrategy::Periodically { interval_ms: 250 }).timer_interval_ms(),
        Some(250)
    );
}

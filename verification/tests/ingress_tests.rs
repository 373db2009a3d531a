use lambda_otel_relay::buffers::Signal;
use lambda_otel_relay::event_loop::{on_channel_closed, on_invoke, on_timer_tick, Listener};
use lambda_otel_relay::extensions_api::ExitError;
use lambda_otel_relay::flush_strategy::{FlushCoordinator, FlushStrategy, TimerMode};
use lambda_otel_relay::ingress::{
    otlp_status, route_otlp, telemetry_status, OtlpForward, TelemetryEvent,
};

#[test]
fn routes_traces_payload() {
    assert_eq!(route_otlp("/v1/traces", true), Ok(Signal::Traces));
}

#[test]
fn routes_metrics_payload() {
    assert_eq!(route_otlp("/v1/metrics", true), Ok(Signal::Metrics));
}

#[test]
fn routes_logs_payload() {
    assert_eq!(route_otlp("/v1/logs", true), Ok(Signal::Logs));
}

#[test]
fn rejects_unknown_path_with_404() {
    assert_eq!(route_otlp("/v2/traces", true), Err(404));
    assert_eq!(route_otlp("/", true), Err(404));
}

#[test]
fn rejects_non_post_with_405() {
    assert_eq!(route_otlp("/v1/traces", false), Err(405));
}

#[test]
fn otlp_statuses() {
    assert_eq!(otlp_status(OtlpForward::Sent), 200);
    assert_eq!(otlp_status(OtlpForward::QueueFull), 503);
    assert_eq!(otlp_status(OtlpForward::ChannelClosed), 502);
    assert_eq!(otlp_status(OtlpForward::BodyReadFailed), 400);
}

#[test]
fn telemetry_statuses() {
    assert_eq!(telemetry_status(false, true), 405);
    assert_eq!(telemetry_status(true, false), 400);
    assert_eq!(telemetry_status(true, true), 200);
}

#[test]
fn classifies_runtime_done_event() {
    let event = TelemetryEvent::from_record(
        "platform.runtimeDone",
        Some("req-1".to_owned()),
        Some("success".to_owned()),
        None,
    );
    assert_eq!(
        event,
        Some(TelemetryEvent::RuntimeDone {
            request_id: "req-1".to_owned(),
            status: "success".to_owned(),
        })
    );
}

#[test]
fn classifies_start_event_with_tracing() {
    let event = TelemetryEvent::from_record(
        "platform.start",
        Some("req-2".to_owned()),
        None,
        Some("Root=1-abc".to_owned()),
    );
    assert_eq!(
        event,
        Some(TelemetryEvent::Start {
            request_id: "req-2".to_owned(),
            tracing_value: Some("Root=1-abc".to_owned()),
        })
    );
}

#[test]
fn ignores_unknown_event_types() {
    assert_eq!(
        TelemetryEvent::from_record("platform.initStart", None, None, None),
        None
    );
}

#[test]
fn missing_record_fields_become_empty() {
    let event = TelemetryEvent::from_record("platform.runtimeDone", None, None, None);
    assert_eq!(
        event,
        Some(TelemetryEvent::RuntimeDone {
            request_id: String::new(),
            status: String::new(),
        })
    );
}

#[test]
fn channel_closed_while_cancelled_is_orderly() {
    assert!(on_channel_closed(Listener::Otlp, true).is_none());
    assert!(on_channel_closed(Listener::Telemetry, true).is_none());
}

#[test]
fn channel_closed_unexpectedly_is_runtime_failure() {
    let err = on_channel_closed(Listener::Otlp, false).unwrap();
    assert!(matches!(err, ExitError::RuntimeFailure(m) if m == "OTLP listener died unexpectedly"));
    let err = on_channel_closed(Listener::Telemetry, false).unwrap();
    assert!(
        matches!(err, ExitError::RuntimeFailure(m) if m == "telemetry listener died unexpectedly")
    );
}

#[test]
fn timer_tick_flushes_in_strategy_mode() {
    let coord = FlushCoordinator::new(FlushStrategy::Continuously { interval_ms: 10 });
    assert_eq!(on_timer_tick(&coord, 0), Some(TimerMode::Background));

    let coord = FlushCoordinator::new(FlushStrategy::Periodically { interval_ms: 10 });
    assert_eq!(on_timer_tick(&coord, 0), Some(TimerMode::Sync));

    let coord = FlushCoordinator::new(FlushStrategy::End);
    assert_eq!(on_timer_tick(&coord, 0), None);
}

#[test]
fn timer_tick_suppressed_in_dedup_window() {
    let mut coord = FlushCoordinator::new(FlushStrategy::Continuously { interval_ms: 10 });
    coord.record_flush(500);
    assert_eq!(on_timer_tick(&coord, 550), None);
}

#[test]
fn invoke_decision_follows_boundary_predicate() {
    let coord = FlushCoordinator::new(FlushStrategy::End);
    assert!(on_invoke(&coord, 0));
    let coord = FlushCoordinator::new(FlushStrategy::Continuously { interval_ms: 10 });
    assert!(!on_invoke(&coord, 0));
}

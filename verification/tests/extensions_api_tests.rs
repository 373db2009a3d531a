use lambda_otel_relay::config::ConfigError;
use lambda_otel_relay::extensions_api::{ApiError, ExitError, ExtensionsApiEvent, InitError};

#[test]
fn init_error_config_error_type() {
    let err = InitError::Config(ConfigError::EndpointMissing);
    assert_eq!(err.error_type(), "Extension.ConfigInvalid");
}

#[test]
fn init_error_listener_bind_error_type() {
    let err = InitError::ListenerBind(ApiError::InitFailed("port in use".into()));
    assert_eq!(err.error_type(), "Extension.InitFailed");
}

#[test]
fn init_error_displays_inner() {
    let err = InitError::Config(ConfigError::InvalidCompression("snappy".into()));
    assert_eq!(
        err.to_string(),
        ConfigError::InvalidCompression("snappy".into()).to_string()
    );
}

#[test]
fn exit_error_runtime_failure_error_type() {
    let err = ExitError::RuntimeFailure("boom".into());
    assert_eq!(err.error_type(), "Extension.RuntimeFailure");
}

#[test]
fn exit_error_runtime_failure_display() {
    let err = ExitError::RuntimeFailure("something broke".into());
    assert_eq!(err.to_string(), "something broke");
}

#[test]
fn from_parts_invoke() {
    let event =
        ExtensionsApiEvent::from_parts("INVOKE", Some("req-abc-123".to_owned()), None).unwrap();
    assert!(
        matches!(event, ExtensionsApiEvent::Invoke { request_id } if request_id == "req-abc-123")
    );
}

#[test]
fn from_parts_invoke_missing_request_id() {
    let event = ExtensionsApiEvent::from_parts("INVOKE", None, None).unwrap();
    assert!(matches!(event, ExtensionsApiEvent::Invoke { request_id } if request_id.is_empty()));
}

#[test]
fn from_parts_shutdown() {
    let event =
        ExtensionsApiEvent::from_parts("SHUTDOWN", None, Some("timeout".to_owned())).unwrap();
    assert!(matches!(event, ExtensionsApiEvent::Shutdown { reason } if reason == "timeout"));
}

#[test]
fn from_parts_shutdown_missing_reason() {
    let event = ExtensionsApiEvent::from_parts("SHUTDOWN", None, None).unwrap();
    assert!(matches!(event, ExtensionsApiEvent::Shutdown { reason } if reason.is_empty()));
}

#[test]
fn from_parts_unknown_event_type() {
    let err = ExtensionsApiEvent::from_parts("BANANA", None, None).unwrap_err();
    assert!(matches!(err, ApiError::UnknownExtensionsApiEventType(t) if t == "BANANA"));
}

#[test]
fn api_error_messages() {
    assert_eq!(
        ApiError::Http("timed out".to_owned()).to_string(),
        "extensions API HTTP error: timed out"
    );
    assert_eq!(
        ApiError::TelemetryRegistrationFailed {
            status: 403,
            body: "forbidden".to_owned()
        }
        .to_string(),
        "telemetry API registration failed: HTTP 403: forbidden"
    );
    assert_eq!(
        ApiError::MissingRuntimeApi.to_string(),
        "AWS_LAMBDA_RUNTIME_API not set"
    );
}

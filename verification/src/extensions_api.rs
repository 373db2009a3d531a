//! Lifecycle events and errors of the host's control-plane API, and the
//! classification of its responses.
//!
//! The HTTP calls themselves live with the runtime around the library; what
//! arrives is handed in as plain values and classified here.

use vstd::prelude::*;
use vstd::string::StringExecFns;

use crate::config::ConfigError;
use crate::flush_strategy::u64_to_dec;
use crate::strutil::str_eq;

verus! {

/// A lifecycle event delivered by the host: an invocation begins, or the
/// instance is shutting down.
#[derive(Debug)]
pub enum ExtensionsApiEvent {
    Invoke { request_id: String },
    Shutdown { reason: String },
}

/// Why a control-plane call failed.
#[derive(Debug)]
pub enum ApiError {
    /// The HTTP request itself failed.
    Http(String),
    /// The response body could not be parsed.
    Parse(String),
    /// The registration response lacked the extension identifier header.
    MissingExtensionId,
    /// The event response carried an unrecognized event type.
    UnknownExtensionsApiEventType(String),
    /// The telemetry subscription was rejected.
    TelemetryRegistrationFailed { status: u16, body: String },
    /// Initialization failed before the event loop started.
    InitFailed(String),
    /// The control-plane address variable is not set.
    MissingRuntimeApi,
}

impl ExtensionsApiEvent {
    /// Classify an event response: `INVOKE` and `SHUTDOWN` are the known
    /// types; a missing field means the empty string.
    pub fn from_parts(
        event_type: &str,
        request_id: Option<String>,
        shutdown_reason: Option<String>,
    ) -> (r: Result<ExtensionsApiEvent, ApiError>)
        ensures
            event_type@ == "INVOKE"@ ==> (r matches Ok(ExtensionsApiEvent::Invoke { request_id: rid })
                && rid@ == match request_id {
                    Some(s) => s@,
                    None => Seq::<char>::empty(),
                }),
            event_type@ != "INVOKE"@ && event_type@ == "SHUTDOWN"@ ==> (r matches Ok(
                ExtensionsApiEvent::Shutdown { reason },
            ) && reason@ == match shutdown_reason {
                Some(s) => s@,
                None => Seq::<char>::empty(),
            }),
            event_type@ != "INVOKE"@ && event_type@ != "SHUTDOWN"@ ==> (r matches Err(
                ApiError::UnknownExtensionsApiEventType(t),
            ) && t@ == event_type@),
    {
        if str_eq(event_type, "INVOKE") {
            Ok(
                ExtensionsApiEvent::Invoke {
                    request_id: match request_id {
                        Some(s) => s,
                        None => String::new(),
                    },
                },
            )
        } else if str_eq(event_type, "SHUTDOWN") {
            Ok(
                ExtensionsApiEvent::Shutdown {
                    reason: match shutdown_reason {
                        Some(s) => s,
                        None => String::new(),
                    },
                },
            )
        } else {
            Err(ApiError::UnknownExtensionsApiEventType(event_type.to_owned()))
        }
    }
}

impl ApiError {
    /// The error rendered as one line of text.
    pub fn to_string(&self) -> (r: String)
        ensures
            r@ == match self {
                ApiError::Http(s) => "extensions API HTTP error: "@ + s@,
                ApiError::Parse(s) => "failed to parse response: "@ + s@,
                ApiError::MissingExtensionId => "missing Lambda-Extension-Identifier header"@,
                ApiError::UnknownExtensionsApiEventType(s) => "unknown event type: "@ + s@,
                ApiError::TelemetryRegistrationFailed { status, body } =>
                    "telemetry API registration failed: HTTP "@ + crate::flush_strategy::dec_chars(
                    *status as nat,
                ) + ": "@ + body@,
                ApiError::InitFailed(s) => "init failed: "@ + s@,
                ApiError::MissingRuntimeApi => "AWS_LAMBDA_RUNTIME_API not set"@,
            },
    {
        match self {
            ApiError::Http(s) => "extensions API HTTP error: ".to_owned().concat(s.as_str()),
            ApiError::Parse(s) => "failed to parse response: ".to_owned().concat(s.as_str()),
            ApiError::MissingExtensionId => "missing Lambda-Extension-Identifier header".to_owned(),
            ApiError::UnknownExtensionsApiEventType(s) => "unknown event type: ".to_owned().concat(
                s.as_str(),
            ),
            ApiError::TelemetryRegistrationFailed { status, body } => {
                let n = u64_to_dec(*status as u64);
                "telemetry API registration failed: HTTP ".to_owned().concat(n.as_str()).concat(
                    ": ",
                ).concat(body.as_str())
            },
            ApiError::InitFailed(s) => "init failed: ".to_owned().concat(s.as_str()),
            ApiError::MissingRuntimeApi => "AWS_LAMBDA_RUNTIME_API not set".to_owned(),
        }
    }
}

/// An error reported through the control-plane's init-error call.
#[derive(Debug)]
pub enum InitError {
    Config(ConfigError),
    ListenerBind(ApiError),
}

impl InitError {
    /// The error-type tag the report carries.
    pub fn error_type(&self) -> (r: &'static str)
        ensures
            r@ == match self {
                InitError::Config(_) => "Extension.ConfigInvalid"@,
                InitError::ListenerBind(_) => "Extension.InitFailed"@,
            },
    {
        match self {
            InitError::Config(_) => "Extension.ConfigInvalid",
            InitError::ListenerBind(_) => "Extension.InitFailed",
        }
    }

    /// The inner error's own text.
    pub fn to_string(&self) -> (r: String)
        ensures
            r@ == match self {
                InitError::Config(e) => e.spec_message(),
                InitError::ListenerBind(e) => match e {
                    ApiError::Http(s) => "extensions API HTTP error: "@ + s@,
                    ApiError::Parse(s) => "failed to parse response: "@ + s@,
                    ApiError::MissingExtensionId => "missing Lambda-Extension-Identifier header"@,
                    ApiError::UnknownExtensionsApiEventType(s) => "unknown event type: "@ + s@,
                    ApiError::TelemetryRegistrationFailed { status, body } =>
                        "telemetry API registration failed: HTTP "@
                        + crate::flush_strategy::dec_chars(*status as nat) + ": "@ + body@,
                    ApiError::InitFailed(s) => "init failed: "@ + s@,
                    ApiError::MissingRuntimeApi => "AWS_LAMBDA_RUNTIME_API not set"@,
                },
            },
    {
        match self {
            InitError::Config(e) => e.to_string(),
            InitError::ListenerBind(e) => e.to_string(),
        }
    }
}

/// An error reported through the control-plane's exit-error call.
#[derive(Debug)]
pub enum ExitError {
    RuntimeFailure(String),
}

impl ExitError {
    /// The error-type tag the report carries.
    pub fn error_type(&self) -> (r: &'static str)
        ensures
            r@ == "Extension.RuntimeFailure"@,
    {
        match self {
            ExitError::RuntimeFailure(_) => "Extension.RuntimeFailure",
        }
    }

    /// The message the failure carries.
    pub fn to_string(&self) -> (r: String)
        ensures
            r@ == match self {
                ExitError::RuntimeFailure(m) => m@,
            },
    {
        match self {
            ExitError::RuntimeFailure(m) => m.clone(),
        }
    }
}

} // verus!

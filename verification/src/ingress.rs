//! The decisions of the two HTTP listeners: routing, response statuses, and
//! the classification of platform telemetry events.
//!
//! The servers themselves are part of the surrounding runtime; they hand the
//! request's path, method and body outcome in as plain values.

use vstd::prelude::*;

use crate::buffers::Signal;
use crate::strutil::str_eq;

verus! {

/// The OTLP ingress channel holds at most this many pending payloads.
pub const OTLP_CHANNEL_CAPACITY: usize = 128;

/// The telemetry channel holds at most this many pending events.
pub const TELEMETRY_CHANNEL_CAPACITY: usize = 64;

/// Route an OTLP request: the signal its path names, or the status to answer
/// with (404 for an unknown path, 405 for a known path without POST).
pub fn route_otlp(path: &str, is_post: bool) -> (r: Result<Signal, u16>)
    ensures
        path@ == "/v1/traces"@ && is_post ==> r == Ok::<Signal, u16>(Signal::Traces),
        path@ == "/v1/metrics"@ && is_post ==> r == Ok::<Signal, u16>(Signal::Metrics),
        path@ == "/v1/logs"@ && is_post ==> r == Ok::<Signal, u16>(Signal::Logs),
        (path@ == "/v1/traces"@ || path@ == "/v1/metrics"@ || path@ == "/v1/logs"@) && !is_post
            ==> r == Err::<Signal, u16>(405),
        !(path@ == "/v1/traces"@ || path@ == "/v1/metrics"@ || path@ == "/v1/logs"@) ==> r
            == Err::<Signal, u16>(404),
{
    proof {
        reveal_strlit("/v1/traces");
        reveal_strlit("/v1/metrics");
        reveal_strlit("/v1/logs");
        assert("/v1/traces"@.len() == 10);
        assert("/v1/metrics"@.len() == 11);
        assert("/v1/traces"@ != "/v1/metrics"@);
    }
    let signal = if str_eq(path, "/v1/traces") {
        Signal::Traces
    } else if str_eq(path, "/v1/metrics") {
        Signal::Metrics
    } else if str_eq(path, "/v1/logs") {
        Signal::Logs
    } else {
        return Err(404);
    };
    if is_post {
        Ok(signal)
    } else {
        Err(405)
    }
}

/// What became of an accepted OTLP payload on its way to the channel.
#[derive(Debug, Clone, Copy, PartialEq, Eq, Structural)]
pub enum OtlpForward {
    /// The payload was handed to the event loop.
    Sent,
    /// The channel is full; the client may retry shortly.
    QueueFull,
    /// The receiver is gone: the relay is shutting down.
    ChannelClosed,
    /// The request body could not be read.
    BodyReadFailed,
}

/// The status an OTLP request is answered with. A full queue also carries a
/// `Retry-After: 1` header.
pub fn otlp_status(outcome: OtlpForward) -> (r: u16)
    ensures
        r == match outcome {
            OtlpForward::Sent => 200u16,
            OtlpForward::QueueFull => 503u16,
            OtlpForward::ChannelClosed => 502u16,
            OtlpForward::BodyReadFailed => 400u16,
        },
{
    match outcome {
        OtlpForward::Sent => 200,
        OtlpForward::QueueFull => 503,
        OtlpForward::ChannelClosed => 502,
        OtlpForward::BodyReadFailed => 400,
    }
}

/// The status a telemetry request is answered with: 405 for anything but
/// POST, 400 for a body that is not UTF-8, otherwise 200 — the host never
/// retries, so even dropped events are acknowledged.
pub fn telemetry_status(is_post: bool, body_is_utf8: bool) -> (r: u16)
    ensures
        !is_post ==> r == 405,
        is_post && !body_is_utf8 ==> r == 400,
        is_post && body_is_utf8 ==> r == 200,
{
    if !is_post {
        405
    } else if !body_is_utf8 {
        400
    } else {
        200
    }
}

/// A platform event the relay cares about.
#[derive(Debug, PartialEq)]
pub enum TelemetryEvent {
    /// The outcome of an invocation.
    RuntimeDone { request_id: String, status: String },
    /// The start of an invocation, with trace context when tracing is on.
    Start { request_id: String, tracing_value: Option<String> },
}

impl TelemetryEvent {
    /// Classify one element of a telemetry batch by its type field; every
    /// kind but `platform.runtimeDone` and `platform.start` is dropped.
    /// A missing field means the empty string.
    pub fn from_record(
        event_type: &str,
        request_id: Option<String>,
        status: Option<String>,
        tracing_value: Option<String>,
    ) -> (r: Option<TelemetryEvent>)
        ensures
            event_type@ == "platform.runtimeDone"@ ==> (r matches Some(
                TelemetryEvent::RuntimeDone { request_id: rid, status: st },
            ) && rid@ == match request_id {
                Some(s) => s@,
                None => Seq::<char>::empty(),
            } && st@ == match status {
                Some(s) => s@,
                None => Seq::<char>::empty(),
            }),
            event_type@ != "platform.runtimeDone"@ && event_type@ == "platform.start"@ ==> (
            r matches Some(TelemetryEvent::Start { request_id: rid, tracing_value: tv }) && rid@
                == match request_id {
                Some(s) => s@,
                None => Seq::<char>::empty(),
            } && tv == tracing_value),
            event_type@ != "platform.runtimeDone"@ && event_type@ != "platform.start"@ ==> r
                is None,
    {
        if str_eq(event_type, "platform.runtimeDone") {
            Some(
                TelemetryEvent::RuntimeDone {
                    request_id: match request_id {
                        Some(s) => s,
                        None => String::new(),
                    },
                    status: match status {
                        Some(s) => s,
                        None => String::new(),
                    },
                },
            )
        } else if str_eq(event_type, "platform.start") {
            Some(
                TelemetryEvent::Start {
                    request_id: match request_id {
                        Some(s) => s,
                        None => String::new(),
                    },
                    tracing_value,
                },
            )
        } else {
            None
        }
    }
}

} // verus!

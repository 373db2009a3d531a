//! The decisions of the event loop, separated from the waiting.
//!
//! The loop itself multiplexes the lifecycle long poll, the two ingress
//! channels and the flush timer; that waiting belongs to the surrounding
//! runtime. What to do when a branch fires is decided here, as pure
//! functions of the coordinator's state, the clock and the cancel flag.

use vstd::prelude::*;
use vstd::string::StringExecFns;

use crate::extensions_api::ExitError;
use crate::flush_strategy::{FlushCoordinator, TimerMode};

verus! {

/// The two listener tasks whose channels the loop drains.
#[derive(Debug, Clone, Copy, PartialEq, Eq, Structural)]
pub enum Listener {
    Otlp,
    Telemetry,
}

/// An ingress channel closed. While the cancel flag is set that is the
/// orderly end of a listener; otherwise the listener died and the loop must
/// exit with a runtime failure.
pub fn on_channel_closed(listener: Listener, cancelled: bool) -> (r: Option<ExitError>)
    ensures
        cancelled ==> r is None,
        !cancelled ==> (r matches Some(ExitError::RuntimeFailure(m)) && m@ == match listener {
            Listener::Otlp => "OTLP listener died unexpectedly"@,
            Listener::Telemetry => "telemetry listener died unexpectedly"@,
        }),
{
    if cancelled {
        None
    } else {
        match listener {
            Listener::Otlp => Some(
                ExitError::RuntimeFailure("OTLP listener died unexpectedly".to_owned()),
            ),
            Listener::Telemetry => Some(
                ExitError::RuntimeFailure("telemetry listener died unexpectedly".to_owned()),
            ),
        }
    }
}

/// The coordinator's timer fired: whether to flush, and in which mode.
/// `None` when the flush is suppressed (dedup window, or the `End` strategy,
/// whose timer never drives a flush).
pub fn on_timer_tick(coordinator: &FlushCoordinator, now_ms: u64) -> (r: Option<TimerMode>)
    ensures
        r is Some <==> coordinator.spec_should_flush_on_timer(now_ms),
        r matches Some(m) ==> m == match coordinator.strategy() {
            crate::flush_strategy::FlushStrategy::EndPeriodically { .. } => TimerMode::Sync,
            crate::flush_strategy::FlushStrategy::Periodically { .. } => TimerMode::Sync,
            _ => TimerMode::Background,
        },
{
    if coordinator.should_flush_on_timer(now_ms) {
        Some(coordinator.timer_mode())
    } else {
        None
    }
}

/// An INVOKE event arrived: whether to run a synchronous boundary flush.
pub fn on_invoke(coordinator: &FlushCoordinator, now_ms: u64) -> (r: bool)
    ensures
        r == coordinator.spec_should_flush_at_boundary(now_ms),
{
    coordinator.should_flush_at_boundary(now_ms)
}

} // verus!

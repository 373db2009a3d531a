//! A loopback-to-collector telemetry relay core: per-signal byte buffers with
//! capacity eviction, a flush coordinator, a resource-merging re-encoder for
//! OTLP payloads, and the pure decision logic of the export pipeline.

pub mod buffers;
pub mod config;
pub mod event_loop;
pub mod exporter;
pub mod extensions_api;
pub mod flush_strategy;
pub mod ingress;
pub mod log_match;
pub mod merge;
pub mod outbound;
pub mod payload;
pub mod scenario;
pub mod strutil;
pub mod wire;

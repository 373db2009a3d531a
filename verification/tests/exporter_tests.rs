use std::collections::VecDeque;
use std::io::Read;

use bytes::Bytes;
use flate2::read::GzDecoder;

use lambda_otel_relay::buffers::{BufferData, Signal};
use lambda_otel_relay::config::Compression;
use lambda_otel_relay::exporter::{
    apply_export_outcomes, compress_body, export_content_headers, signal_body, signal_path,
    ExportError, Exporter, FailingExporter, MockExporter, PartialFailExporter,
};
use lambda_otel_relay::outbound::OutboundBuffer;

#[test]
fn gzip_produces_valid_output() {
    let data = b"hello world, this is a test of gzip compression";
    let compressed = compress_body(data.to_vec(), Compression::Gzip).unwrap();

    // Verify it's smaller or at least valid gzip
    let mut decoder = GzDecoder::new(&compressed[..]);
    let mut decompressed = Vec::new();
    decoder.read_to_end(&mut decompressed).unwrap();
    assert_eq!(decompressed, data);
}

#[test]
fn uncompressed_body_is_unchanged() {
    let data = b"plain".to_vec();
    let body = compress_body(data.clone(), Compression::Uncompressed).unwrap();
    assert_eq!(body, data);
}

#[test]
fn signal_paths() {
    assert_eq!(signal_path(Signal::Traces), "v1/traces");
    assert_eq!(signal_path(Signal::Metrics), "v1/metrics");
    assert_eq!(signal_path(Signal::Logs), "v1/logs");
}

#[test]
fn signal_body_empty_queue_skips() {
    let queue: VecDeque<Bytes> = VecDeque::new();
    assert!(signal_body(&queue).is_none());
}

#[test]
fn signal_body_single_payload_is_verbatim() {
    let mut queue: VecDeque<Bytes> = VecDeque::new();
    queue.push_back(Bytes::from("raw-payload-bytes"));
    let body = signal_body(&queue).unwrap();
    assert_eq!(body, b"raw-payload-bytes".to_vec());
}

#[test]
fn signal_body_merges_two_payloads() {
    // two payloads, each one entry with no resource and one empty scope
    let entry: Vec<u8> = vec![0x12, 0x00]; // field 2, empty scope
    let request: Vec<u8> = vec![0x0A, entry.len() as u8, 0x12, 0x00];
    let mut queue: VecDeque<Bytes> = VecDeque::new();
    queue.push_back(Bytes::from(request.clone()));
    queue.push_back(Bytes::from(request));
    let body = signal_body(&queue).unwrap();
    // merged: one entry holding both scope entries
    assert_eq!(body, vec![0x0A, 0x04, 0x12, 0x00, 0x12, 0x00]);
}

#[test]
fn content_headers_with_gzip() {
    let headers = export_content_headers(Compression::Gzip);
    assert_eq!(
        headers,
        vec![
            (
                "content-type".to_owned(),
                "application/x-protobuf".to_owned()
            ),
            ("content-encoding".to_owned(), "gzip".to_owned()),
        ]
    );
}

#[test]
fn content_headers_without_gzip() {
    let headers = export_content_headers(Compression::Uncompressed);
    assert_eq!(
        headers,
        vec![(
            "content-type".to_owned(),
            "application/x-protobuf".to_owned()
        )]
    );
}

#[test]
fn flush_delivers_and_empties() {
    let mut buffer = OutboundBuffer::new(None);
    buffer.push(Signal::Traces, Bytes::from("t"));
    buffer.push(Signal::Logs, Bytes::from("l"));
    assert!(buffer.flush(&MockExporter));
    assert!(buffer.take().is_empty());
}

#[test]
fn flush_on_empty_buffer_is_noop() {
    let mut buffer = OutboundBuffer::new(None);
    assert!(!buffer.flush(&MockExporter));
}

#[test]
fn failed_flush_prepends_data_back() {
    let mut buffer = OutboundBuffer::new(None);
    buffer.push(Signal::Traces, Bytes::from("trace_data"));
    buffer.push(Signal::Metrics, Bytes::from("metric_data"));

    assert!(buffer.flush(&FailingExporter));

    // Both payloads are back in their original per-signal positions
    let data = buffer.take();
    assert_eq!(data.traces.queue[0], Bytes::from("trace_data"));
    assert_eq!(data.metrics.queue[0], Bytes::from("metric_data"));
    assert_eq!(data.total_size_bytes(), "trace_data".len() + "metric_data".len());
}

#[test]
fn partial_failure_preserves_only_failed_signals() {
    let mut buffer = OutboundBuffer::new(None);
    buffer.push(Signal::Traces, Bytes::from("t"));
    buffer.push(Signal::Metrics, Bytes::from("m"));
    buffer.push(Signal::Logs, Bytes::from("l"));

    assert!(buffer.flush(&PartialFailExporter));

    let data = buffer.take();
    assert!(data.traces.queue.is_empty());
    assert_eq!(data.metrics.queue.len(), 1);
    assert_eq!(data.metrics.queue[0], Bytes::from("m"));
    assert!(data.logs.queue.is_empty());
}

#[test]
fn exporter_contract_on_buffer_data() {
    let mut data = BufferData::new();
    data.push(Signal::Traces, Bytes::from("a"));
    data.push(Signal::Metrics, Bytes::from("b"));
    let r = PartialFailExporter.export(&mut data);
    assert!(r.is_err());
    assert!(data.traces.queue.is_empty());
    assert_eq!(data.metrics.queue.len(), 1);
}

#[test]
fn export_order_preserves_ingress_order() {
    let mut buffer = OutboundBuffer::new(None);
    buffer.push(Signal::Traces, Bytes::from("one"));
    buffer.push(Signal::Traces, Bytes::from("two"));
    buffer.push(Signal::Traces, Bytes::from("three"));
    let data = buffer.take();
    let items: Vec<&Bytes> = data.traces.queue.iter().collect();
    assert_eq!(
        items,
        vec![
            &Bytes::from("one"),
            &Bytes::from("two"),
            &Bytes::from("three")
        ]
    );
}

#[test]
fn apply_outcomes_clears_delivered_signals_only() {
    let mut data = BufferData::new();
    data.push(Signal::Traces, Bytes::from("t"));
    data.push(Signal::Metrics, Bytes::from("m"));
    data.push(Signal::Logs, Bytes::from("l"));

    let r = apply_export_outcomes(
        &mut data,
        Ok(()),
        Err(ExportError::Rejected { status: 503 }),
        Ok(()),
    );
    assert!(matches!(r, Err(ExportError::Rejected { status: 503 })));
    assert!(data.traces.queue.is_empty());
    assert_eq!(data.metrics.queue[0], Bytes::from("m"));
    assert!(data.logs.queue.is_empty());
}

#[test]
fn apply_outcomes_all_ok_is_ok_and_empty() {
    let mut data = BufferData::new();
    data.push(Signal::Traces, Bytes::from("t"));
    let r = apply_export_outcomes(&mut data, Ok(()), Ok(()), Ok(()));
    assert!(r.is_ok());
    assert!(data.is_empty());
}

#[test]
fn apply_outcomes_last_failure_decides() {
    let mut data = BufferData::new();
    let r = apply_export_outcomes(
        &mut data,
        Err(ExportError::Rejected { status: 500 }),
        Ok(()),
        Err(ExportError::Rejected { status: 404 }),
    );
    assert!(matches!(r, Err(ExportError::Rejected { status: 404 })));
}

//! The export interface the flush paths drive, and test exporters with exact
//! contracts.
//!
//! An exporter communicates per-signal success by mutating its input: a queue
//! it delivered is cleared, a queue that failed is left whole. The aggregate
//! result is `Ok` only if every signal went through.

use std::collections::VecDeque;

use vstd::prelude::*;

use crate::buffers::{BufferData, Signal};
use crate::config::Compression;
use crate::merge::{
    decoded_entries_of, encode_request, entries_view, merge_payloads, merge_spec,
    spec_encode_request,
};
use crate::payload::{bytes_to_vec, bytes_view};

verus! {

/// Why an export attempt failed.
#[derive(Debug)]
pub enum ExportError {
    /// The HTTP request itself failed (transport error or timeout).
    Http(String),
    /// The collector answered with a non-success status.
    Rejected { status: u16 },
    /// Compressing a request body failed.
    Compression(String),
}

/// Every queue is either exactly what it was or has been delivered and
/// cleared; an exporter never reorders or invents payloads.
pub open spec fn cleared_or_intact(pre: BufferData, post: BufferData) -> bool {
    forall|s: Signal|
        #[trigger] post.queue_of(s) == pre.queue_of(s) || post.queue_of(s).len() == 0
}

/// An exporter leaves no queue larger than it found it.
pub proof fn lemma_cleared_or_intact_total(pre: BufferData, post: BufferData)
    requires
        cleared_or_intact(pre, post),
    ensures
        post.total() <= pre.total(),
{
    assert(post.queue_of(Signal::Traces) == post.traces.queue@);
    assert(pre.queue_of(Signal::Traces) == pre.traces.queue@);
    assert(post.queue_of(Signal::Metrics) == post.metrics.queue@);
    assert(pre.queue_of(Signal::Metrics) == pre.metrics.queue@);
    assert(post.queue_of(Signal::Logs) == post.logs.queue@);
    assert(pre.queue_of(Signal::Logs) == pre.logs.queue@);
    if post.traces.queue@.len() == 0 {
        assert(crate::buffers::sum_sizes(post.traces.queue@) == 0);
    }
    if post.metrics.queue@.len() == 0 {
        assert(crate::buffers::sum_sizes(post.metrics.queue@) == 0);
    }
    if post.logs.queue@.len() == 0 {
        assert(crate::buffers::sum_sizes(post.logs.queue@) == 0);
    }
}

/// Something that can deliver a buffer of payloads to a collector.
///
/// `export_post` is each implementation's own statement of what it did to the
/// buffer and what it returned; the trait fixes the clauses every exporter
/// obeys.
pub trait Exporter {
    spec fn export_post(&self, pre: BufferData, post: BufferData, r: Result<(), ExportError>) -> bool;

    fn export(&self, data: &mut BufferData) -> (r: Result<(), ExportError>)
        requires
            old(data).wf(),
        ensures
            final(data).wf(),
            cleared_or_intact(*old(data), *final(data)),
            self.export_post(*old(data), *final(data), r),
    ;
}

/// An exporter that delivers everything: clears all three queues and succeeds.
pub struct MockExporter;

impl Exporter for MockExporter {
    open spec fn export_post(
        &self,
        pre: BufferData,
        post: BufferData,
        r: Result<(), ExportError>,
    ) -> bool {
        post.spec_is_empty() && r is Ok
    }

    fn export(&self, data: &mut BufferData) -> (r: Result<(), ExportError>) {
        data.traces.clear();
        data.metrics.clear();
        data.logs.clear();
        Ok(())
    }
}

/// An exporter whose every attempt is rejected; it leaves all queues whole.
pub struct FailingExporter;

impl Exporter for FailingExporter {
    open spec fn export_post(
        &self,
        pre: BufferData,
        post: BufferData,
        r: Result<(), ExportError>,
    ) -> bool {
        &&& post.traces.queue@ == pre.traces.queue@
        &&& post.metrics.queue@ == pre.metrics.queue@
        &&& post.logs.queue@ == pre.logs.queue@
        &&& r is Err
    }

    fn export(&self, data: &mut BufferData) -> (r: Result<(), ExportError>) {
        Err(ExportError::Rejected { status: 500 })
    }
}

/// Partial failure: traces and logs are delivered, metrics fail.
pub struct PartialFailExporter;

impl Exporter for PartialFailExporter {
    open spec fn export_post(
        &self,
        pre: BufferData,
        post: BufferData,
        r: Result<(), ExportError>,
    ) -> bool {
        &&& post.traces.queue@.len() == 0
        &&& post.metrics.queue@ == pre.metrics.queue@
        &&& post.logs.queue@.len() == 0
        &&& r is Err
    }

    fn export(&self, data: &mut BufferData) -> (r: Result<(), ExportError>) {
        data.traces.clear();
        data.logs.clear();
        Err(ExportError::Rejected { status: 500 })
    }
}

/// What the gzip encoder produces for the given bytes: a function of the
/// input alone at a fixed compression level.
pub uninterp spec fn gzip_of(data: Seq<u8>) -> Seq<u8>;

/// What the gzip decoder yields for the given bytes; `None` on streams that
/// are not valid gzip.
pub uninterp spec fn gunzip_of(data: Seq<u8>) -> Option<Seq<u8>>;

/// Relies on flate2's `GzEncoder`/`GzDecoder`: encoding is deterministic in
/// the input at a fixed level; gzip is lossless, so decoding an encoded
/// stream yields the original bytes; and the in-memory sink cannot fail, so
/// encoding always succeeds.
#[verifier::external_body]
fn gzip_compress(data: &Vec<u8>) -> (r: Vec<u8>)
    ensures
        r@ == gzip_of(data@),
        gunzip_of(r@) == Some(data@),
{
    let mut encoder = flate2::write::GzEncoder::new(Vec::new(), flate2::Compression::fast());
    std::io::Write::write_all(&mut encoder, data.as_slice())
        .expect("writing to an in-memory encoder cannot fail");
    encoder.finish().expect("writing to an in-memory sink cannot fail")
}

/// Compress a request body as configured: gzip, or pass it through whole.
/// Never fails: the encoder works in memory.
pub fn compress_body(body: Vec<u8>, compression: Compression) -> (r: Result<Vec<u8>, ExportError>)
    ensures
        r is Ok,
        compression is Uncompressed ==> (r matches Ok(v) && v@ == body@),
        compression is Gzip ==> (r matches Ok(v) && v@ == gzip_of(body@) && gunzip_of(v@) == Some(
            body@,
        )),
{
    match compression {
        Compression::Uncompressed => Ok(body),
        Compression::Gzip => Ok(gzip_compress(&body)),
    }
}

/// The request path a signal is posted to, relative to the endpoint.
pub fn signal_path(signal: Signal) -> (r: &'static str)
    ensures
        r@ == match signal {
            Signal::Traces => "v1/traces"@,
            Signal::Metrics => "v1/metrics"@,
            Signal::Logs => "v1/logs"@,
        },
{
    match signal {
        Signal::Traces => "v1/traces",
        Signal::Metrics => "v1/metrics",
        Signal::Logs => "v1/logs",
    }
}

/// The body to post for one signal's queue: nothing when the queue is empty,
/// the single payload verbatim when it holds exactly one, and the merged,
/// re-encoded request otherwise.
pub fn signal_body(queue: &VecDeque<bytes::Bytes>) -> (r: Option<Vec<u8>>)
    ensures
        r is None <==> queue@.len() == 0,
        queue@.len() == 1 ==> (r matches Some(v) && v@ == bytes_view(queue@[0])),
        queue@.len() >= 2 ==> (r matches Some(v) && v@ == spec_encode_request(
            merge_spec(decoded_entries_of(queue@)),
        )),
{
    if queue.len() == 0 {
        None
    } else if queue.len() == 1 {
        Some(bytes_to_vec(&queue[0]))
    } else {
        let merged = merge_payloads(queue);
        Some(encode_request(&merged))
    }
}

/// The headers every outbound post carries: the protobuf content type, and
/// the gzip content encoding when compression is on.
pub fn export_content_headers(compression: Compression) -> (r: Vec<(String, String)>)
    ensures
        crate::strutil::pairs_view(r@) == if compression is Gzip {
            seq![
                ("content-type"@, "application/x-protobuf"@),
                ("content-encoding"@, "gzip"@),
            ]
        } else {
            seq![("content-type"@, "application/x-protobuf"@)]
        },
{
    let mut r: Vec<(String, String)> = Vec::new();
    r.push(("content-type".to_owned(), "application/x-protobuf".to_owned()));
    match compression {
        Compression::Gzip => {
            r.push(("content-encoding".to_owned(), "gzip".to_owned()));
            proof {
                assert(crate::strutil::pairs_view(r@) =~= seq![
                    ("content-type"@, "application/x-protobuf"@),
                    ("content-encoding"@, "gzip"@),
                ]);
            }
        },
        Compression::Uncompressed => {
            proof {
                assert(crate::strutil::pairs_view(r@) =~= seq![
                    ("content-type"@, "application/x-protobuf"@),
                ]);
            }
        },
    }
    r
}

/// Apply the per-signal outcomes of an export to the buffer it was taken
/// from: a delivered signal's queue is cleared, a failed one is left whole.
/// The aggregate result is `Ok` only if all three signals went through; when
/// several failed, the last failure (in the order traces, metrics, logs)
/// decides the reported error.
pub fn apply_export_outcomes(
    data: &mut BufferData,
    traces: Result<(), ExportError>,
    metrics: Result<(), ExportError>,
    logs: Result<(), ExportError>,
) -> (r: Result<(), ExportError>)
    requires
        old(data).wf(),
    ensures
        final(data).wf(),
        final(data).traces.queue@ == if traces is Ok {
            Seq::<bytes::Bytes>::empty()
        } else {
            old(data).traces.queue@
        },
        final(data).metrics.queue@ == if metrics is Ok {
            Seq::<bytes::Bytes>::empty()
        } else {
            old(data).metrics.queue@
        },
        final(data).logs.queue@ == if logs is Ok {
            Seq::<bytes::Bytes>::empty()
        } else {
            old(data).logs.queue@
        },
        cleared_or_intact(*old(data), *final(data)),
        (r is Ok <==> traces is Ok && metrics is Ok && logs is Ok),
        r == if logs is Err {
            logs
        } else if metrics is Err {
            metrics
        } else if traces is Err {
            traces
        } else {
            Ok::<(), ExportError>(())
        },
{
    let mut r: Result<(), ExportError> = Ok(());
    match traces {
        Ok(()) => {
            data.traces.clear();
            proof {
                assert(data.traces.queue@ =~= Seq::<bytes::Bytes>::empty());
            }
        },
        Err(e) => {
            r = Err(e);
        },
    }
    match metrics {
        Ok(()) => {
            data.metrics.clear();
            proof {
                assert(data.metrics.queue@ =~= Seq::<bytes::Bytes>::empty());
            }
        },
        Err(e) => {
            r = Err(e);
        },
    }
    match logs {
        Ok(()) => {
            data.logs.clear();
            proof {
                assert(data.logs.queue@ =~= Seq::<bytes::Bytes>::empty());
            }
        },
        Err(e) => {
            r = Err(e);
        },
    }
    proof {
        assert(cleared_or_intact(*old(data), *data)) by {
            assert(data.queue_of(Signal::Traces) == data.traces.queue@);
            assert(data.queue_of(Signal::Metrics) == data.metrics.queue@);
            assert(data.queue_of(Signal::Logs) == data.logs.queue@);
            assert(old(data).queue_of(Signal::Traces) == old(data).traces.queue@);
            assert(old(data).queue_of(Signal::Metrics) == old(data).metrics.queue@);
            assert(old(data).queue_of(Signal::Logs) == old(data).logs.queue@);
        }
    }
    r
}

} // verus!

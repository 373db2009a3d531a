//! The shared outbound buffer: a three-signal buffer plus the at-most-one
//! background-flush protocol, as one state machine.
//!
//! This type holds the state the mutex of a running relay guards: the
//! buffered data, whether a background flush task is in flight, and the
//! configured byte limit. The surrounding runtime hands a snapshot out when a
//! flush is spawned and hands the remainder back when the task completes;
//! both steps are operations here, so every state change is verified.

use vstd::prelude::*;

use crate::buffers::{
    evict_spec, is_suffix_of, lemma_evict_spec_suffixes, payload_len, BufferData, Signal,
};
use crate::exporter::{cleared_or_intact, lemma_cleared_or_intact_total, ExportError, Exporter};

verus! {

/// Buffer plus flush-task slot plus byte limit.
pub struct OutboundBuffer {
    data: BufferData,
    flush_in_flight: bool,
    max_bytes: Option<usize>,
}

impl OutboundBuffer {
    /// The buffered data.
    pub closed spec fn data(self) -> BufferData {
        self.data
    }

    /// Whether a background flush task is in flight.
    pub closed spec fn in_flight(self) -> bool {
        self.flush_in_flight
    }

    /// The configured eviction threshold; `None` disables eviction.
    pub closed spec fn max(self) -> Option<usize> {
        self.max_bytes
    }

    pub open spec fn wf(self) -> bool {
        self.data().wf()
    }

    /// The three queues after reinjecting `older` in front of `cur` and
    /// evicting to the configured limit.
    pub open spec fn reinjected(
        older: BufferData,
        cur: BufferData,
        max: Option<usize>,
    ) -> (Seq<bytes::Bytes>, Seq<bytes::Bytes>, Seq<bytes::Bytes>) {
        let t = older.traces.queue@ + cur.traces.queue@;
        let m = older.metrics.queue@ + cur.metrics.queue@;
        let l = older.logs.queue@ + cur.logs.queue@;
        match max {
            Some(max_bytes) => evict_spec(t, m, l, max_bytes as nat),
            None => (t, m, l),
        }
    }

    /// The three queues after a sync flush: what the exporter left behind,
    /// evicted to the configured limit.
    pub open spec fn drained(rem: BufferData, max: Option<usize>) -> (
        Seq<bytes::Bytes>,
        Seq<bytes::Bytes>,
        Seq<bytes::Bytes>,
    ) {
        match max {
            Some(max_bytes) => evict_spec(
                rem.traces.queue@,
                rem.metrics.queue@,
                rem.logs.queue@,
                max_bytes as nat,
            ),
            None => (rem.traces.queue@, rem.metrics.queue@, rem.logs.queue@),
        }
    }

    pub fn new(max_bytes: Option<usize>) -> (r: Self)
        ensures
            r.wf(),
            r.data().spec_is_empty(),
            !r.in_flight(),
            r.max() == max_bytes,
    {
        OutboundBuffer { data: BufferData::new(), flush_in_flight: false, max_bytes }
    }

    /// Unconditional append; never flushes.
    pub fn push(&mut self, signal: Signal, payload: bytes::Bytes)
        requires
            old(self).wf(),
            old(self).data().total() + payload_len(payload) <= usize::MAX,
        ensures
            final(self).wf(),
            final(self).data().queue_of(signal) == old(self).data().queue_of(signal).push(
                payload,
            ),
            forall|s: Signal|
                s != signal ==> final(self).data().queue_of(s) == old(self).data().queue_of(s),
            final(self).in_flight() == old(self).in_flight(),
            final(self).max() == old(self).max(),
    {
        self.data.push(signal, payload);
    }

    /// Swap the contained buffer with an empty one and return the old value.
    pub fn take(&mut self) -> (r: BufferData)
        requires
            old(self).wf(),
        ensures
            final(self).wf(),
            r == old(self).data(),
            final(self).data().spec_is_empty(),
            final(self).in_flight() == old(self).in_flight(),
            final(self).max() == old(self).max(),
    {
        let mut taken = BufferData::new();
        core::mem::swap(&mut self.data, &mut taken);
        taken
    }

    /// The number of bytes currently buffered.
    pub fn buffered_bytes(&self) -> (r: usize)
        requires
            self.wf(),
        ensures
            r as nat == self.data().total(),
    {
        self.data.total_size_bytes()
    }

    /// Whether a background flush task is currently in flight.
    pub fn is_flush_in_flight(&self) -> (r: bool)
        ensures
            r == self.in_flight(),
    {
        self.flush_in_flight
    }

    /// Whether the buffered total exceeds the configured limit.
    pub fn over_threshold(&self) -> (r: bool)
        requires
            self.wf(),
        ensures
            r == match self.max() {
                Some(max_bytes) => self.data().total() > max_bytes,
                None => false,
            },
    {
        match self.max_bytes {
            Some(max_bytes) => self.data.total_size_bytes() > max_bytes,
            None => false,
        }
    }

    /// Reinject data a failed export left behind, then evict to the limit.
    /// No-op on empty input.
    pub fn prepend_failed(&mut self, data: BufferData)
        requires
            old(self).wf(),
            data.wf(),
            data.total() + old(self).data().total() <= usize::MAX,
        ensures
            final(self).wf(),
            final(self).in_flight() == old(self).in_flight(),
            final(self).max() == old(self).max(),
            data.spec_is_empty() ==> forall|s: Signal|
                #[trigger] final(self).data().queue_of(s) == old(self).data().queue_of(s),
            !data.spec_is_empty() ==> (
                final(self).data().traces.queue@,
                final(self).data().metrics.queue@,
                final(self).data().logs.queue@,
            ) == Self::reinjected(data, old(self).data(), old(self).max()),
    {
        if data.is_empty() {
            return ;
        }
        let ghost older = data;
        let ghost cur = self.data;
        self.data.prepend(data);
        proof {
            assert(self.data.queue_of(Signal::Traces) == older.queue_of(Signal::Traces)
                + cur.queue_of(Signal::Traces));
            assert(self.data.queue_of(Signal::Metrics) == older.queue_of(Signal::Metrics)
                + cur.queue_of(Signal::Metrics));
            assert(self.data.queue_of(Signal::Logs) == older.queue_of(Signal::Logs)
                + cur.queue_of(Signal::Logs));
        }
        if let Some(max_bytes) = self.max_bytes {
            self.data.evict_to(max_bytes);
        }
    }

    /// Try to start a background flush: hand out the whole buffer if no flush
    /// is in flight and there is data to send.
    ///
    /// At most one flush is ever in flight: while one is, this returns `None`
    /// and changes nothing.
    pub fn spawn_flush(&mut self) -> (r: Option<BufferData>)
        requires
            old(self).wf(),
        ensures
            final(self).wf(),
            final(self).max() == old(self).max(),
            old(self).in_flight() ==> r is None && final(self).data() == old(self).data()
                && final(self).in_flight(),
            !old(self).in_flight() && old(self).data().spec_is_empty() ==> r is None
                && final(self).data() == old(self).data() && !final(self).in_flight(),
            !old(self).in_flight() && !old(self).data().spec_is_empty() ==> r == Some(
                old(self).data(),
            ) && final(self).data().spec_is_empty() && final(self).in_flight(),
    {
        if self.flush_in_flight {
            return None;
        }
        if self.data.is_empty() {
            return None;
        }
        let snapshot = self.take();
        self.flush_in_flight = true;
        Some(snapshot)
    }

    /// The hot path from the OTLP ingress: push, and if the buffer now
    /// exceeds the limit, run the spawn protocol, all in one step. The
    /// snapshot is handed out exactly when the pushed total exceeds the
    /// configured limit and no flush is already in flight.
    pub fn push_and_maybe_flush(&mut self, signal: Signal, payload: bytes::Bytes) -> (r: Option<
        BufferData,
    >)
        requires
            old(self).wf(),
            old(self).data().total() + payload_len(payload) <= usize::MAX,
        ensures
            final(self).wf(),
            final(self).max() == old(self).max(),
            r is Some <==> (match old(self).max() {
                Some(mb) => old(self).data().total() + payload_len(payload) > mb,
                None => false,
            }) && !old(self).in_flight(),
            r is Some ==> {
                &&& !old(self).in_flight()
                &&& final(self).in_flight()
                &&& final(self).data().spec_is_empty()
                &&& r->Some_0.queue_of(signal) == old(self).data().queue_of(signal).push(payload)
                &&& forall|s: Signal|
                    s != signal ==> r->Some_0.queue_of(s) == old(self).data().queue_of(s)
            },
            r is None ==> {
                &&& final(self).in_flight() == old(self).in_flight()
                &&& final(self).data().queue_of(signal) == old(self).data().queue_of(
                    signal,
                ).push(payload)
                &&& forall|s: Signal|
                    s != signal ==> final(self).data().queue_of(s) == old(self).data().queue_of(s)
            },
    {
        self.data.push(signal, payload);
        proof {
            assert(!self.data.spec_is_empty()) by {
                assert(self.data.queue_of(signal).len() > 0);
            }
        }
        if self.over_threshold() {
            self.spawn_flush()
        } else {
            None
        }
    }

    /// A background flush task finished with `remainder` left undelivered:
    /// reinject it and free the flush slot.
    pub fn finish_flush(&mut self, remainder: BufferData)
        requires
            old(self).wf(),
            remainder.wf(),
            remainder.total() + old(self).data().total() <= usize::MAX,
        ensures
            final(self).wf(),
            !final(self).in_flight(),
            final(self).max() == old(self).max(),
            remainder.spec_is_empty() ==> forall|s: Signal|
                #[trigger] final(self).data().queue_of(s) == old(self).data().queue_of(s),
            !remainder.spec_is_empty() ==> (
                final(self).data().traces.queue@,
                final(self).data().metrics.queue@,
                final(self).data().logs.queue@,
            ) == Self::reinjected(remainder, old(self).data(), old(self).max()),
    {
        self.prepend_failed(remainder);
        self.flush_in_flight = false;
    }

    /// Synchronous flush: take everything, export it, and reinject whatever
    /// the exporter left behind.
    ///
    /// Any in-flight background task must have been joined (and its remainder
    /// handed to `finish_flush`) before this runs. Returns `true` if there
    /// was data to export. The final state is the exporter's own account: the
    /// remainder it handed back, evicted to the limit — so with an exporter
    /// that delivers everything the buffer provably ends empty. As long as
    /// the buffer was within its limit, every queue afterwards is either
    /// untouched (that signal failed) or empty (that signal was delivered).
    pub fn flush<E: Exporter>(&mut self, exporter: &E) -> (r: bool)
        requires
            old(self).wf(),
            !old(self).in_flight(),
        ensures
            final(self).wf(),
            !final(self).in_flight(),
            final(self).max() == old(self).max(),
            r == !old(self).data().spec_is_empty(),
            !r ==> final(self).data() == old(self).data(),
            (match old(self).max() {
                Some(mb) => old(self).data().total() <= mb,
                None => true,
            }) ==> forall|s: Signal|
                #[trigger] final(self).data().queue_of(s) == old(self).data().queue_of(s)
                    || final(self).data().queue_of(s).len() == 0,
            forall|s: Signal|
                is_suffix_of(#[trigger] final(self).data().queue_of(s), old(self).data().queue_of(s)),
            r ==> exists|rem: BufferData, res: Result<(), ExportError>|
                {
                    &&& rem.wf()
                    &&& cleared_or_intact(old(self).data(), rem)
                    &&& #[trigger] exporter.export_post(old(self).data(), rem, res)
                    &&& (
                        final(self).data().traces.queue@,
                        final(self).data().metrics.queue@,
                        final(self).data().logs.queue@,
                    ) == Self::drained(rem, old(self).max())
                },
    {
        let mut snapshot = self.take();
        if snapshot.is_empty() {
            self.data = snapshot;
            proof {
                assert forall|s: Signal|
                    is_suffix_of(
                        #[trigger] self.data.queue_of(s),
                        old(self).data().queue_of(s),
                    ) by {
                    assert(self.data.queue_of(s).skip(0) =~= self.data.queue_of(s));
                }
            }
            return false;
        }
        let ghost pre = snapshot;
        let ghost cur = self.data;
        let res = exporter.export(&mut snapshot);
        let ghost rem = snapshot;
        proof {
            lemma_cleared_or_intact_total(pre, rem);
        }
        self.prepend_failed(snapshot);
        proof {
            let fin = self.data;
            if rem.spec_is_empty() {
                assert(forall|s: Signal| #[trigger] fin.queue_of(s) == cur.queue_of(s));
                assert(fin.queue_of(Signal::Traces).len() == 0);
                assert(fin.queue_of(Signal::Metrics).len() == 0);
                assert(fin.queue_of(Signal::Logs).len() == 0);
            } else {
                let t = rem.traces.queue@ + cur.traces.queue@;
                let m = rem.metrics.queue@ + cur.metrics.queue@;
                let l = rem.logs.queue@ + cur.logs.queue@;
                assert(t =~= rem.traces.queue@);
                assert(m =~= rem.metrics.queue@);
                assert(l =~= rem.logs.queue@);
                match self.max_bytes {
                    Some(mb) => {
                        if pre.total() <= mb {
                            assert(rem.total() <= mb);
                            crate::buffers::lemma_evict_noop(t, m, l, mb as nat);
                        }
                    },
                    None => {},
                }
                assert(rem.queue_of(Signal::Traces) == rem.traces.queue@);
                assert(rem.queue_of(Signal::Metrics) == rem.metrics.queue@);
                assert(rem.queue_of(Signal::Logs) == rem.logs.queue@);
                assert(pre.queue_of(Signal::Traces) == pre.traces.queue@);
                assert(pre.queue_of(Signal::Metrics) == pre.metrics.queue@);
                assert(pre.queue_of(Signal::Logs) == pre.logs.queue@);
                match self.max_bytes {
                    Some(mb) => {
                        lemma_evict_spec_suffixes(t, m, l, mb as nat);
                    },
                    None => {},
                }
                assert forall|s: Signal|
                    is_suffix_of(#[trigger] fin.queue_of(s), pre.queue_of(s)) by {
                    let cand = match s {
                        Signal::Traces => rem.traces.queue@,
                        Signal::Metrics => rem.metrics.queue@,
                        Signal::Logs => rem.logs.queue@,
                    };
                    assert(is_suffix_of(fin.queue_of(s), cand)) by {
                        assert(cand.skip(0) =~= cand);
                    }
                    if cand.len() == 0 {
                        assert(fin.queue_of(s).len() == 0);
                        assert(fin.queue_of(s) =~= pre.queue_of(s).skip(
                            pre.queue_of(s).len() as int,
                        ));
                    } else {
                        assert(cand == pre.queue_of(s));
                    }
                }
            }
            if rem.spec_is_empty() {
                assert forall|s: Signal|
                    is_suffix_of(#[trigger] fin.queue_of(s), pre.queue_of(s)) by {
                    assert(fin.queue_of(s) =~= pre.queue_of(s).skip(
                        pre.queue_of(s).len() as int,
                    ));
                }
            }
            // the exporter's own account of this flush, witnessed by the
            // remainder it handed back and the result it returned
            assert(exporter.export_post(pre, rem, res));
            if rem.spec_is_empty() {
                assert(fin.traces.queue@ =~= rem.traces.queue@);
                assert(fin.metrics.queue@ =~= rem.metrics.queue@);
                assert(fin.logs.queue@ =~= rem.logs.queue@);
                match self.max_bytes {
                    Some(mb) => {
                        crate::buffers::lemma_evict_noop(
                            rem.traces.queue@,
                            rem.metrics.queue@,
                            rem.logs.queue@,
                            mb as nat,
                        );
                    },
                    None => {},
                }
            }
            assert((fin.traces.queue@, fin.metrics.queue@, fin.logs.queue@) == Self::drained(
                rem,
                old(self).max(),
            ));
        }
        true
    }
}

} // verus!

//! Per-signal FIFO byte buffers and the three-signal buffer with round-robin
//! eviction.
//!
//! The central invariant: every `SignalBuffer` keeps `size_bytes` equal to the
//! sum of the lengths of the payloads in its queue, after every mutation.

use std::collections::VecDeque;

use vstd::prelude::*;

use crate::payload::{bytes_len, bytes_view};

verus! {

/// The three telemetry signal kinds the relay routes and buffers.
#[derive(Debug, Clone, Copy, PartialEq, Eq, Structural)]
pub enum Signal {
    Traces,
    Metrics,
    Logs,
}

/// Length of the byte sequence a payload holds.
pub open spec fn payload_len(b: bytes::Bytes) -> nat {
    bytes_view(b).len()
}

/// Sum of the payload lengths of a queue.
pub open spec fn sum_sizes(q: Seq<bytes::Bytes>) -> nat
    decreases q.len(),
{
    if q.len() == 0 {
        0
    } else {
        sum_sizes(q.drop_last()) + payload_len(q.last())
    }
}

pub proof fn lemma_sum_sizes_push(q: Seq<bytes::Bytes>, b: bytes::Bytes)
    ensures
        sum_sizes(q.push(b)) == sum_sizes(q) + payload_len(b),
{
    assert(q.push(b).drop_last() =~= q);
    assert(q.push(b).last() == b);
}

pub proof fn lemma_sum_sizes_drop_first(q: Seq<bytes::Bytes>)
    requires
        q.len() > 0,
    ensures
        sum_sizes(q) == payload_len(q[0]) + sum_sizes(q.drop_first()),
    decreases q.len(),
{
    if q.len() == 1 {
        assert(q.drop_first() =~= Seq::<bytes::Bytes>::empty());
        assert(q.drop_last() =~= Seq::<bytes::Bytes>::empty());
    } else {
        lemma_sum_sizes_drop_first(q.drop_last());
        assert(q.drop_last()[0] == q[0]);
        assert(q.drop_first().drop_last() =~= q.drop_last().drop_first());
        assert(q.drop_first().last() == q.last());
    }
}

pub proof fn lemma_sum_sizes_concat(a: Seq<bytes::Bytes>, b: Seq<bytes::Bytes>)
    ensures
        sum_sizes(a + b) == sum_sizes(a) + sum_sizes(b),
    decreases b.len(),
{
    if b.len() == 0 {
        assert(a + b =~= a);
    } else {
        lemma_sum_sizes_concat(a, b.drop_last());
        assert((a + b).drop_last() =~= a + b.drop_last());
        assert((a + b).last() == b.last());
    }
}

/// A FIFO of opaque payloads plus a running byte count.
pub struct SignalBuffer {
    pub queue: VecDeque<bytes::Bytes>,
    pub size_bytes: usize,
}

impl SignalBuffer {
    /// The cached byte count equals the sum of the queued payload lengths.
    pub open spec fn wf(self) -> bool {
        self.size_bytes as nat == sum_sizes(self.queue@)
    }

    pub fn new() -> (r: Self)
        ensures
            r.wf(),
            r.queue@.len() == 0,
            r.size_bytes == 0,
    {
        SignalBuffer { queue: VecDeque::new(), size_bytes: 0 }
    }

    pub fn clear(&mut self)
        ensures
            final(self).wf(),
            final(self).queue@.len() == 0,
            final(self).size_bytes == 0,
    {
        self.queue.clear();
        self.size_bytes = 0;
    }

    pub fn is_empty(&self) -> (r: bool)
        ensures
            r == (self.queue@.len() == 0),
    {
        self.queue.len() == 0
    }

    /// Append a payload at the back, keeping the byte count exact.
    pub fn push_back(&mut self, payload: bytes::Bytes)
        requires
            old(self).wf(),
            old(self).size_bytes + payload_len(payload) <= usize::MAX,
        ensures
            final(self).wf(),
            final(self).queue@ == old(self).queue@.push(payload),
            final(self).size_bytes as nat == old(self).size_bytes + payload_len(payload),
    {
        proof {
            lemma_sum_sizes_push(self.queue@, payload);
        }
        self.size_bytes = self.size_bytes + bytes_len(&payload);
        self.queue.push_back(payload);
    }

    /// Remove the oldest entry from the queue. Returns the number of bytes freed.
    pub fn evict_oldest(&mut self) -> (freed: usize)
        requires
            old(self).wf(),
        ensures
            final(self).wf(),
            old(self).queue@.len() == 0 ==> freed == 0 && final(self).queue@ == old(self).queue@
                && final(self).size_bytes == old(self).size_bytes,
            old(self).queue@.len() > 0 ==> {
                &&& freed as nat == payload_len(old(self).queue@[0])
                &&& final(self).queue@ == old(self).queue@.drop_first()
                &&& final(self).size_bytes == old(self).size_bytes - freed
            },
    {
        proof {
            if self.queue@.len() > 0 {
                lemma_sum_sizes_drop_first(self.queue@);
            }
        }
        match self.queue.pop_front() {
            Some(entry) => {
                let freed = bytes_len(&entry);
                assert(self.queue@ =~= old(self).queue@.drop_first());
                self.size_bytes = self.size_bytes - freed;
                freed
            },
            None => 0,
        }
    }

    /// Prepend older data in front of current data.
    /// After this call, `self` holds `older ++ self`, per-signal order kept.
    pub fn prepend(&mut self, older: SignalBuffer)
        requires
            old(self).wf(),
            older.wf(),
            older.size_bytes + old(self).size_bytes <= usize::MAX,
        ensures
            final(self).wf(),
            final(self).queue@ == older.queue@ + old(self).queue@,
            final(self).size_bytes == older.size_bytes + old(self).size_bytes,
    {
        proof {
            lemma_sum_sizes_concat(older.queue@, self.queue@);
        }
        let mut older = older;
        older.queue.append(&mut self.queue);
        older.size_bytes = older.size_bytes + self.size_bytes;
        *self = older;
    }
}

impl Default for SignalBuffer {
    fn default() -> (r: Self)
        ensures
            r.wf(),
            r.queue@.len() == 0,
            r.size_bytes == 0,
    {
        SignalBuffer::new()
    }
}

/// A product of three signal queues: traces, metrics and logs.
pub struct BufferData {
    pub traces: SignalBuffer,
    pub metrics: SignalBuffer,
    pub logs: SignalBuffer,
}

impl BufferData {
    /// All three queues keep their byte counts exact, and the grand total
    /// fits in `usize`.
    pub open spec fn wf(self) -> bool {
        &&& self.traces.wf()
        &&& self.metrics.wf()
        &&& self.logs.wf()
        &&& self.total() <= usize::MAX
    }

    /// Total number of buffered bytes over the three signals.
    pub open spec fn total(self) -> nat {
        sum_sizes(self.traces.queue@) + sum_sizes(self.metrics.queue@) + sum_sizes(
            self.logs.queue@,
        )
    }

    /// The queue that serves the given signal.
    pub open spec fn queue_of(self, signal: Signal) -> Seq<bytes::Bytes> {
        match signal {
            Signal::Traces => self.traces.queue@,
            Signal::Metrics => self.metrics.queue@,
            Signal::Logs => self.logs.queue@,
        }
    }

    pub open spec fn spec_is_empty(self) -> bool {
        self.traces.queue@.len() == 0 && self.metrics.queue@.len() == 0
            && self.logs.queue@.len() == 0
    }

    pub fn new() -> (r: Self)
        ensures
            r.wf(),
            r.spec_is_empty(),
            r.total() == 0,
    {
        BufferData { traces: SignalBuffer::new(), metrics: SignalBuffer::new(), logs: SignalBuffer::new() }
    }

    pub fn is_empty(&self) -> (r: bool)
        ensures
            r == self.spec_is_empty(),
    {
        self.traces.is_empty() && self.metrics.is_empty() && self.logs.is_empty()
    }

    /// Unconditional append to the queue of the given signal.
    pub fn push(&mut self, signal: Signal, payload: bytes::Bytes)
        requires
            old(self).wf(),
            old(self).total() + payload_len(payload) <= usize::MAX,
        ensures
            final(self).wf(),
            final(self).queue_of(signal) == old(self).queue_of(signal).push(payload),
            forall|s: Signal| s != signal ==> final(self).queue_of(s) == old(self).queue_of(s),
            final(self).total() == old(self).total() + payload_len(payload),
    {
        let buf = match signal {
            Signal::Traces => &mut self.traces,
            Signal::Metrics => &mut self.metrics,
            Signal::Logs => &mut self.logs,
        };
        buf.push_back(payload);
    }

    pub fn total_size_bytes(&self) -> (r: usize)
        requires
            self.wf(),
        ensures
            r as nat == self.total(),
    {
        self.traces.size_bytes + self.metrics.size_bytes + self.logs.size_bytes
    }

    /// Prepend older data in front of current data for all signals.
    ///
    /// Afterwards each signal's queue is exactly `older ++ self`, and the
    /// total is the sum of both operands' totals.
    pub fn prepend(&mut self, older: Self)
        requires
            old(self).wf(),
            older.wf(),
            older.total() + old(self).total() <= usize::MAX,
        ensures
            final(self).wf(),
            forall|s: Signal|
                #[trigger] final(self).queue_of(s) == older.queue_of(s) + old(self).queue_of(s),
            final(self).total() == older.total() + old(self).total(),
    {
        let BufferData { traces, metrics, logs } = older;
        self.traces.prepend(traces);
        self.metrics.prepend(metrics);
        self.logs.prepend(logs);
    }
}

impl Default for BufferData {
    fn default() -> (r: Self)
        ensures
            r.wf(),
            r.spec_is_empty(),
            r.total() == 0,
    {
        BufferData::new()
    }
}

/// One round of eviction after another: drop the oldest entry of each
/// non-empty signal in the fixed order traces, metrics, logs, re-checking the
/// threshold after each drop, until the total is at or below `max`.
pub open spec fn evict_spec(
    t: Seq<bytes::Bytes>,
    m: Seq<bytes::Bytes>,
    l: Seq<bytes::Bytes>,
    max: nat,
) -> (Seq<bytes::Bytes>, Seq<bytes::Bytes>, Seq<bytes::Bytes>)
    decreases t.len() + m.len() + l.len(),
{
    if sum_sizes(t) + sum_sizes(m) + sum_sizes(l) <= max {
        (t, m, l)
    } else if t.len() == 0 && m.len() == 0 && l.len() == 0 {
        (t, m, l)
    } else {
        let t1 = if t.len() > 0 { t.drop_first() } else { t };
        if sum_sizes(t1) + sum_sizes(m) + sum_sizes(l) <= max {
            (t1, m, l)
        } else {
            let m1 = if m.len() > 0 { m.drop_first() } else { m };
            if sum_sizes(t1) + sum_sizes(m1) + sum_sizes(l) <= max {
                (t1, m1, l)
            } else {
                let l1 = if l.len() > 0 { l.drop_first() } else { l };
                evict_spec(t1, m1, l1, max)
            }
        }
    }
}

impl BufferData {
    /// Round-robin evict oldest entries (traces -> metrics -> logs -> repeat)
    /// until the total size is at or below `max_bytes`.
    pub fn evict_to(&mut self, max_bytes: usize)
        requires
            old(self).wf(),
        ensures
            final(self).wf(),
            (final(self).traces.queue@, final(self).metrics.queue@, final(self).logs.queue@)
                == evict_spec(
                old(self).traces.queue@,
                old(self).metrics.queue@,
                old(self).logs.queue@,
                max_bytes as nat,
            ),
            final(self).total() <= max_bytes,
            old(self).total() <= max_bytes ==> final(self).traces.queue@
                == old(self).traces.queue@ && final(self).metrics.queue@
                == old(self).metrics.queue@ && final(self).logs.queue@ == old(self).logs.queue@,
            final(self).traces.size_bytes == sum_sizes(final(self).traces.queue@),
    {
        let mut total = self.total_size_bytes();
        loop
            invariant
                self.wf(),
                total as nat == self.total(),
                evict_spec(
                    self.traces.queue@,
                    self.metrics.queue@,
                    self.logs.queue@,
                    max_bytes as nat,
                ) == evict_spec(
                    old(self).traces.queue@,
                    old(self).metrics.queue@,
                    old(self).logs.queue@,
                    max_bytes as nat,
                ),
            ensures
                self.wf(),
                total as nat == self.total(),
                total <= max_bytes,
                evict_spec(
                    self.traces.queue@,
                    self.metrics.queue@,
                    self.logs.queue@,
                    max_bytes as nat,
                ) == evict_spec(
                    old(self).traces.queue@,
                    old(self).metrics.queue@,
                    old(self).logs.queue@,
                    max_bytes as nat,
                ),
                self.total() <= max_bytes,
            decreases
                    self.traces.queue@.len() + self.metrics.queue@.len()
                        + self.logs.queue@.len(),
        {
            if total <= max_bytes {
                break;
            }
            let ghost (t0, m0, l0) = (self.traces.queue@, self.metrics.queue@, self.logs.queue@);
            let freed_t = self.traces.evict_oldest();
            total = total - freed_t;
            if total <= max_bytes {
                break;
            }
            let freed_m = self.metrics.evict_oldest();
            total = total - freed_m;
            if total <= max_bytes {
                break;
            }
            let freed_l = self.logs.evict_oldest();
            total = total - freed_l;
            proof {
                assert(t0.len() > 0 || m0.len() > 0 || l0.len() > 0);
            }
        }
    }
}

/// Every payload of a queue whose sizes sum to zero is itself empty.
pub proof fn lemma_sum_sizes_zero(q: Seq<bytes::Bytes>)
    requires
        sum_sizes(q) == 0,
    ensures
        forall|i: int| 0 <= i < q.len() ==> payload_len(#[trigger] q[i]) == 0,
    decreases q.len(),
{
    if q.len() > 0 {
        lemma_sum_sizes_zero(q.drop_last());
        assert forall|i: int| 0 <= i < q.len() implies payload_len(#[trigger] q[i]) == 0 by {
            if i < q.len() - 1 {
                assert(q[i] == q.drop_last()[i]);
            } else {
                assert(q[i] == q.last());
            }
        }
    }
}

/// Evicting to a threshold the buffer already meets changes nothing.
pub proof fn lemma_evict_noop(
    t: Seq<bytes::Bytes>,
    m: Seq<bytes::Bytes>,
    l: Seq<bytes::Bytes>,
    max: nat,
)
    requires
        sum_sizes(t) + sum_sizes(m) + sum_sizes(l) <= max,
    ensures
        evict_spec(t, m, l, max) == (t, m, l),
{
}

/// Evicting to zero empties every queue, provided no payload is empty.
/// (A zero-length payload contributes nothing to the total, so eviction,
/// which is driven by the byte total alone, can leave it behind.)
pub proof fn lemma_evict_to_zero_empties(
    t: Seq<bytes::Bytes>,
    m: Seq<bytes::Bytes>,
    l: Seq<bytes::Bytes>,
)
    requires
        forall|i: int| 0 <= i < t.len() ==> payload_len(#[trigger] t[i]) > 0,
        forall|i: int| 0 <= i < m.len() ==> payload_len(#[trigger] m[i]) > 0,
        forall|i: int| 0 <= i < l.len() ==> payload_len(#[trigger] l[i]) > 0,
    ensures
        evict_spec(t, m, l, 0).0.len() == 0,
        evict_spec(t, m, l, 0).1.len() == 0,
        evict_spec(t, m, l, 0).2.len() == 0,
    decreases t.len() + m.len() + l.len(),
{
    if sum_sizes(t) + sum_sizes(m) + sum_sizes(l) <= 0 {
        lemma_sum_sizes_zero(t);
        lemma_sum_sizes_zero(m);
        lemma_sum_sizes_zero(l);
        if t.len() > 0 {
            assert(payload_len(t[0]) == 0);
        }
        if m.len() > 0 {
            assert(payload_len(m[0]) == 0);
        }
        if l.len() > 0 {
            assert(payload_len(l[0]) == 0);
        }
    } else {
        let t1 = if t.len() > 0 { t.drop_first() } else { t };
        let m1 = if m.len() > 0 { m.drop_first() } else { m };
        let l1 = if l.len() > 0 { l.drop_first() } else { l };
        assert(forall|i: int|
            0 <= i < t1.len() ==> payload_len(#[trigger] t1[i]) > 0);
        assert(forall|i: int|
            0 <= i < m1.len() ==> payload_len(#[trigger] m1[i]) > 0);
        assert(forall|i: int|
            0 <= i < l1.len() ==> payload_len(#[trigger] l1[i]) > 0);
        if sum_sizes(t1) + sum_sizes(m) + sum_sizes(l) <= 0 {
            lemma_sum_sizes_zero(t1);
            lemma_sum_sizes_zero(m);
            lemma_sum_sizes_zero(l);
            if t1.len() > 0 {
                assert(payload_len(t1[0]) == 0);
            }
            if m.len() > 0 {
                assert(payload_len(m[0]) == 0);
            }
            if l.len() > 0 {
                assert(payload_len(l[0]) == 0);
            }
        } else if sum_sizes(t1) + sum_sizes(m1) + sum_sizes(l) <= 0 {
            lemma_sum_sizes_zero(t1);
            lemma_sum_sizes_zero(m1);
            lemma_sum_sizes_zero(l);
            if t1.len() > 0 {
                assert(payload_len(t1[0]) == 0);
            }
            if m1.len() > 0 {
                assert(payload_len(m1[0]) == 0);
            }
            if l.len() > 0 {
                assert(payload_len(l[0]) == 0);
            }
        } else {
            lemma_evict_to_zero_empties(t1, m1, l1);
        }
    }
}

/// Prepending an empty buffer leaves every queue unchanged.
pub proof fn lemma_prepend_empty_is_identity(a: BufferData, b: BufferData)
    requires
        a.spec_is_empty(),
    ensures
        forall|s: Signal| #[trigger] (a.queue_of(s) + b.queue_of(s)) == b.queue_of(s),
{
    assert forall|s: Signal| #[trigger] (a.queue_of(s) + b.queue_of(s)) == b.queue_of(s) by {
        assert(a.queue_of(s) + b.queue_of(s) =~= b.queue_of(s));
    }
}

/// `a` is what remains of `b` after zero or more drops from the front.
pub open spec fn is_suffix_of<T>(a: Seq<T>, b: Seq<T>) -> bool {
    a.len() <= b.len() && a == b.skip(b.len() - a.len())
}

/// Eviction only ever drops from the front: each resulting queue is a suffix
/// of the one it came from.
pub proof fn lemma_evict_spec_suffixes(
    t: Seq<bytes::Bytes>,
    m: Seq<bytes::Bytes>,
    l: Seq<bytes::Bytes>,
    max: nat,
)
    ensures
        is_suffix_of(evict_spec(t, m, l, max).0, t),
        is_suffix_of(evict_spec(t, m, l, max).1, m),
        is_suffix_of(evict_spec(t, m, l, max).2, l),
    decreases t.len() + m.len() + l.len(),
{
    assert(t.skip(0) =~= t);
    assert(m.skip(0) =~= m);
    assert(l.skip(0) =~= l);
    if sum_sizes(t) + sum_sizes(m) + sum_sizes(l) <= max {
    } else if t.len() == 0 && m.len() == 0 && l.len() == 0 {
    } else {
        let t1 = if t.len() > 0 { t.drop_first() } else { t };
        let m1 = if m.len() > 0 { m.drop_first() } else { m };
        let l1 = if l.len() > 0 { l.drop_first() } else { l };
        assert(is_suffix_of(t1, t)) by {
            if t.len() > 0 {
                assert(t.drop_first() =~= t.skip(1));
            }
        }
        assert(is_suffix_of(m1, m)) by {
            if m.len() > 0 {
                assert(m.drop_first() =~= m.skip(1));
            }
        }
        assert(is_suffix_of(l1, l)) by {
            if l.len() > 0 {
                assert(l.drop_first() =~= l.skip(1));
            }
        }
        if sum_sizes(t1) + sum_sizes(m) + sum_sizes(l) <= max {
        } else if sum_sizes(t1) + sum_sizes(m1) + sum_sizes(l) <= max {
        } else {
            lemma_evict_spec_suffixes(t1, m1, l1, max);
            lemma_suffix_trans(evict_spec(t, m, l, max).0, t1, t);
            lemma_suffix_trans(evict_spec(t, m, l, max).1, m1, m);
            lemma_suffix_trans(evict_spec(t, m, l, max).2, l1, l);
        }
    }
}

pub proof fn lemma_suffix_trans<T>(a: Seq<T>, b: Seq<T>, c: Seq<T>)
    requires
        is_suffix_of(a, b),
        is_suffix_of(b, c),
    ensures
        is_suffix_of(a, c),
{
    assert(c.skip(c.len() - b.len()).skip(b.len() - a.len()) =~= c.skip(c.len() - a.len()));
}

} // verus!

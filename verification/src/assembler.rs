//! The frame-assembly pipeline: chunks of raw bytes arriving from the
//! transport are appended to a bounded receive buffer, deframed repeatedly,
//! parsed into messages, and published to a bounded message queue. A
//! counter tracks consecutive FCS failures for the recovery policy.

use vstd::prelude::*;

use crate::comm;
use crate::comm::Message;
use crate::comm::MsgView;
use crate::hdlc;
use crate::hdlc::DeframeResult;
use crate::queue::BoundedQueue;

verus! {

/// Capacity of the raw receive buffer; on overflow the buffer is discarded,
/// since a desynchronized stream recovers only at the next flag byte.
pub const RAW_BUFFER_CAPACITY: usize = 512;

/// Depth of the decoded-message queue.
pub const MSG_QUEUE_DEPTH: usize = 3;

/// Ghost state of the pipeline: the raw bytes not yet resolved into frames,
/// the count of consecutive FCS failures since the last success, and the
/// messages queued for the consumer.
pub struct PipeState {
    pub buf: Seq<u8>,
    pub errors: u32,
    pub msgs: Seq<MsgView>,
}

/// The failure counter after one more failure: one higher, saturating.
pub open spec fn bump(e: u32) -> u32 {
    if e == u32::MAX {
        e
    } else {
        (e + 1) as u32
    }
}

/// Appending a chunk to the pipeline's buffer, discarding everything when
/// the result would reach the buffer's capacity.
pub open spec fn ingest(s: PipeState, chunk: Seq<u8>) -> PipeState {
    let appended = s.buf + chunk;
    PipeState {
        buf: if appended.len() >= RAW_BUFFER_CAPACITY {
            Seq::empty()
        } else {
            appended
        },
        errors: s.errors,
        msgs: s.msgs,
    }
}

/// One deframe attempt applied to the pipeline state: an FCS failure bumps
/// the counter; a delivered payload resets it and, when it parses as a
/// message and the queue has room, appends the message (a full queue drops
/// the newest message).
pub open spec fn drain_step(s: PipeState, cap: int) -> PipeState {
    match hdlc::deframe_model(s.buf) {
        hdlc::FrameOutcome::Incomplete => s,
        hdlc::FrameOutcome::FcsMismatch => PipeState {
            buf: hdlc::deframe_rest(s.buf),
            errors: bump(s.errors),
            msgs: s.msgs,
        },
        hdlc::FrameOutcome::Frame(p) => PipeState {
            buf: hdlc::deframe_rest(s.buf),
            errors: 0,
            msgs: match comm::decode_model(p) {
                Some(m) => if s.msgs.len() < cap {
                    s.msgs.push(m)
                } else {
                    s.msgs
                },
                None => s.msgs,
            },
        },
    }
}

/// Deframe attempts repeated until the buffer reports no complete frame.
pub open spec fn drain(s: PipeState, cap: int) -> PipeState
    decreases s.buf.len(),
{
    if hdlc::deframe_model(s.buf) is Incomplete {
        s
    } else {
        proof {
            hdlc::lemma_deframe_consumes(s.buf);
        }
        drain(drain_step(s, cap), cap)
    }
}

/// The frame-assembly state: the raw receive buffer it exclusively owns,
/// the FCS failure counter, and the queue of decoded messages.
pub struct Assembler {
    rx: Vec<u8>,
    fcs_errors: u32,
    msgs: BoundedQueue<Message>,
}

impl Assembler {
    /// The raw bytes received but not yet resolved into frames.
    pub closed spec fn rx_bytes(self) -> Seq<u8> {
        self.rx@
    }

    /// Consecutive FCS failures since the last successful deframe.
    pub closed spec fn error_count(self) -> u32 {
        self.fcs_errors
    }

    /// The decoded messages waiting to be read, oldest first.
    pub closed spec fn pending(self) -> Seq<MsgView> {
        self.msgs.contents().map_values(|m: Message| m@)
    }

    /// The whole pipeline state, for relating calls to the drain model.
    pub open spec fn state(self) -> PipeState {
        PipeState { buf: self.rx_bytes(), errors: self.error_count(), msgs: self.pending() }
    }

    /// The receive buffer stays under its capacity and the message queue
    /// within its depth.
    pub closed spec fn wf(self) -> bool {
        &&& self.rx@.len() < RAW_BUFFER_CAPACITY
        &&& self.msgs.wf()
        &&& self.msgs.capacity() == MSG_QUEUE_DEPTH
    }

    /// A fresh pipeline: empty buffer, zero failures, no messages.
    pub fn new() -> (a: Assembler)
        ensures
            a.wf(),
            a.state() == (PipeState { buf: Seq::<u8>::empty(), errors: 0u32, msgs: Seq::<MsgView>::empty() }),
    {
        let a = Assembler { rx: Vec::new(), fcs_errors: 0, msgs: BoundedQueue::new(MSG_QUEUE_DEPTH) };
        proof {
            assert(a.pending() =~= Seq::<MsgView>::empty());
        }
        a
    }

    /// Current value of the FCS error counter, for the recovery policy.
    pub fn fcs_error_count(&self) -> (n: u32)
        ensures
            n == self.error_count(),
    {
        self.fcs_errors
    }

    /// Feed one chunk of received bytes: append it to the receive buffer
    /// (discarding the buffer when it would reach capacity), then deframe
    /// repeatedly, counting FCS failures, and queue every message that
    /// parses, dropping the newest when the queue is full.
    pub fn feed_chunk(&mut self, chunk: &[u8])
        requires
            old(self).wf(),
        ensures
            final(self).wf(),
            final(self).state() == drain(
                ingest(old(self).state(), chunk@),
                MSG_QUEUE_DEPTH as int,
            ),
    {
        let ghost cap: int = MSG_QUEUE_DEPTH as int;
        // Append the chunk.
        let mut i: usize = 0;
        while i < chunk.len()
            invariant
                i <= chunk@.len(),
                self.rx@ == old(self).rx_bytes() + chunk@.take(i as int),
                self.fcs_errors == old(self).error_count(),
                self.msgs == old(self).msgs,
            decreases chunk@.len() - i,
        {
            let b = chunk[i];
            self.rx.push(b);
            proof {
                assert(old(self).rx_bytes() + chunk@.take(i + 1) =~= (old(self).rx_bytes()
                    + chunk@.take(i as int)).push(chunk@[i as int]));
            }
            i += 1;
        }
        proof {
            assert(chunk@.take(chunk@.len() as int) =~= chunk@);
        }
        // Overflow guard: a buffer at capacity without a complete frame is
        // desynchronized beyond local repair; discard it.
        if self.rx.len() >= RAW_BUFFER_CAPACITY {
            self.rx.clear();
        }
        let ghost start = ingest(old(self).state(), chunk@);
        proof {
            assert(self.state() == start);
        }
        // Deframe until no complete frame remains.
        loop
            invariant
                self.wf(),
                cap == MSG_QUEUE_DEPTH as int,
                drain(self.state(), cap) == drain(start, cap),
            ensures
                self.wf(),
                hdlc::deframe_model(self.rx_bytes()) is Incomplete,
                drain(self.state(), cap) == drain(start, cap),
            decreases self.rx@.len(),
        {
            let ghost pre = self.state();
            let r = hdlc::hdlc_deframe(&mut self.rx);
            match r {
                DeframeResult::Incomplete => {
                    break;
                },
                DeframeResult::FcsMismatch => {
                    if self.fcs_errors < u32::MAX {
                        self.fcs_errors = self.fcs_errors + 1;
                    }
                    proof {
                        assert(self.state() == drain_step(pre, cap));
                        hdlc::lemma_deframe_consumes(pre.buf);
                    }
                },
                DeframeResult::Frame(p) => {
                    self.fcs_errors = 0;
                    let parsed = comm::decode(p.as_slice());
                    match parsed {
                        Some(m) => {
                            let ghost q0 = self.pending();
                            let ghost mv = m@;
                            let _ = self.msgs.try_send(m);
                            proof {
                                if q0.len() < cap {
                                    assert(self.pending() =~= q0.push(mv));
                                } else {
                                    assert(self.pending() =~= q0);
                                }
                            }
                        },
                        None => {
                        },
                    }
                    proof {
                        assert(self.state() == drain_step(pre, cap));
                        hdlc::lemma_deframe_consumes(pre.buf);
                    }
                },
            }
        }
        proof {
            assert(drain(self.state(), cap) == self.state());
        }
    }

    /// Read the next decoded message, oldest first; nothing blocks.
    pub fn read(&mut self) -> (r: Option<Message>)
        requires
            old(self).wf(),
        ensures
            final(self).wf(),
            final(self).rx_bytes() == old(self).rx_bytes(),
            final(self).error_count() == old(self).error_count(),
            old(self).pending().len() == 0 ==> r is None && final(self).pending() == old(self).pending(),
            old(self).pending().len() > 0 ==> (r matches Some(m) && m@ == old(self).pending()[0]
                && final(self).pending() == old(self).pending().drop_first()),
    {
        let r = self.msgs.try_receive();
        proof {
            if old(self).pending().len() > 0 {
                assert(self.pending() =~= old(self).pending().drop_first());
            }
        }
        r
    }
}

/// Ingress policy: queue a non-empty chunk of received bytes for the
/// assembly task. An empty read queues nothing; when the queue is full the
/// newest chunk is dropped rather than blocking the producer.
pub fn enqueue_chunk(q: &mut BoundedQueue<Vec<u8>>, chunk: Vec<u8>) -> (queued: bool)
    requires
        old(q).wf(),
    ensures
        final(q).wf(),
        final(q).capacity() == old(q).capacity(),
        chunk@.len() == 0 ==> !queued && final(q).contents() == old(q).contents(),
        chunk@.len() > 0 && old(q).contents().len() < old(q).capacity() ==> queued
            && final(q).contents() == old(q).contents().push(chunk),
        chunk@.len() > 0 && old(q).contents().len() >= old(q).capacity() ==> !queued
            && final(q).contents() == old(q).contents(),
{
    if chunk.len() == 0 {
        return false;
    }
    q.try_send(chunk)
}

// ---------------------------------------------------------------------------
// Laws of the pipeline counter.
// ---------------------------------------------------------------------------

/// A checksum failure, with no further complete frame behind it, increments
/// the FCS error counter exactly once and delivers nothing.
pub proof fn lemma_counter_increment(s: PipeState, cap: int)
    requires
        hdlc::deframe_model(s.buf) is FcsMismatch,
        hdlc::deframe_model(hdlc::deframe_rest(s.buf)) is Incomplete,
    ensures
        drain(s, cap) == (PipeState {
            buf: hdlc::deframe_rest(s.buf),
            errors: bump(s.errors),
            msgs: s.msgs,
        }),
{
    let s1 = drain_step(s, cap);
    assert(drain(s, cap) == drain(s1, cap));
    assert(drain(s1, cap) == s1);
}

/// A successful deframe, with no further complete frame behind it, resets
/// the FCS error counter to zero, whatever it was.
pub proof fn lemma_counter_reset(s: PipeState, cap: int)
    requires
        hdlc::deframe_model(s.buf) is Frame,
        hdlc::deframe_model(hdlc::deframe_rest(s.buf)) is Incomplete,
    ensures
        drain(s, cap).errors == 0,
        drain(s, cap).buf == hdlc::deframe_rest(s.buf),
{
    let s1 = drain_step(s, cap);
    assert(drain(s, cap) == drain(s1, cap));
    assert(drain(s1, cap) == s1);
}

/// End to end: a buffer holding exactly one frame of one well-formed
/// encoded message drains to that message appended to the queue (dropped
/// only when the queue is full), an empty buffer, and a reset counter.
pub proof fn lemma_pipeline_delivers(s: PipeState, m: comm::MsgView, cap: int)
    requires
        m.wf(),
        s.buf == hdlc::frame_bytes(comm::message_bytes(m)),
    ensures
        drain(s, cap) == (PipeState {
            buf: Seq::<u8>::empty(),
            errors: 0u32,
            msgs: if s.msgs.len() < cap {
                s.msgs.push(m)
            } else {
                s.msgs
            },
        }),
{
    let mb = comm::message_bytes(m);
    assert(hdlc::frame_bytes(mb) + Seq::<u8>::empty() =~= s.buf);
    hdlc::lemma_frame_round_trip(mb, Seq::empty());
    assert(mb + Seq::<u8>::empty() =~= mb);
    comm::lemma_codec_round_trip(m, Seq::empty());
    let s1 = drain_step(s, cap);
    assert(drain(s, cap) == drain(s1, cap));
    assert(drain(s1, cap) == s1);
}

/// Partial delivery: a frame that fits the receive buffer, split at any
/// point and fed as two chunks, delivers nothing after the first chunk
/// (which stays buffered) and then exactly what the whole frame fed at
/// once would deliver.
pub proof fn lemma_two_chunk_delivery(m: comm::MsgView, k: int, q: Seq<MsgView>, e: u32, cap: int)
    requires
        m.wf(),
        0 <= k < hdlc::frame_bytes(comm::message_bytes(m)).len(),
        hdlc::frame_bytes(comm::message_bytes(m)).len() < RAW_BUFFER_CAPACITY,
    ensures
        ({
            let fb = hdlc::frame_bytes(comm::message_bytes(m));
            let s0 = PipeState { buf: Seq::<u8>::empty(), errors: e, msgs: q };
            let s1 = drain(ingest(s0, fb.take(k)), cap);
            s1 == (PipeState { buf: fb.take(k), errors: e, msgs: q }) && drain(
                ingest(s1, fb.skip(k)),
                cap,
            ) == drain(ingest(s0, fb), cap)
        }),
{
    let fb = hdlc::frame_bytes(comm::message_bytes(m));
    let s0 = PipeState { buf: Seq::<u8>::empty(), errors: e, msgs: q };
    hdlc::lemma_partial_delivery(comm::message_bytes(m), k);
    assert(Seq::empty() + fb.take(k) =~= fb.take(k));
    let s1 = drain(ingest(s0, fb.take(k)), cap);
    assert(s1 == (PipeState { buf: fb.take(k), errors: e, msgs: q }));
    assert(fb.take(k) + fb.skip(k) =~= fb);
    assert(Seq::empty() + fb =~= fb);
    assert(ingest(s1, fb.skip(k)) == ingest(s0, fb));
}

} // verus!

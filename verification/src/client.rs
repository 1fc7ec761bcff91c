//! Client-side timing and reconstruction: the jitter buffer that
//! restores frame order, the snapshot cache that resolves deltas whose
//! base snapshot is still at hand, and the acknowledgement counters
//! reported back to the server.

use vstd::prelude::*;

use crate::packet::{spec_applicable, spec_apply, NetworkPacket};
use crate::transport::{
    de_server_message, NetAddr, NetworkClientAck, ServerMessage, ServerMessageModel, SocketEvent,
};

verus! {

/// Every buffered packet is well-formed.
pub open spec fn all_wf(s: Seq<NetworkPacket>) -> bool {
    forall|i: int| 0 <= i < s.len() ==> (#[trigger] s[i]).wf()
}

/// Frames in ascending order.
pub open spec fn sorted_by_frame(s: Seq<NetworkPacket>) -> bool {
    forall|i: int, j: int| 0 <= i < j < s.len() ==> s[i].frame <= s[j].frame
}

/// The jitter buffer: received, reconstructed frames held sorted by
/// frame number, drained oldest-first only once a minimum fill is
/// reached.
pub struct JitBuffer {
    pub frames: Vec<NetworkPacket>,
}

impl JitBuffer {
    pub open spec fn wf(&self) -> bool {
        all_wf(self.frames@) && sorted_by_frame(self.frames@)
    }

    pub fn new() -> (r: JitBuffer)
        ensures
            r.wf(),
            r.frames@.len() == 0,
    {
        JitBuffer { frames: Vec::new() }
    }

    pub fn len(&self) -> (r: usize)
        ensures
            r == self.frames@.len(),
    {
        self.frames.len()
    }

    /// Insert a frame, keeping the buffer sorted; a frame equal in
    /// number to buffered ones goes after them.
    pub fn push_frame(&mut self, p: NetworkPacket)
        requires
            old(self).wf(),
            p.wf(),
        ensures
            final(self).wf(),
            final(self).frames@.len() == old(self).frames@.len() + 1,
            exists|idx: int|
                0 <= idx <= old(self).frames@.len() && final(self).frames@ == old(
                    self,
                ).frames@.insert(idx, p),
    {
        let n = self.frames.len();
        let mut idx: usize = 0;
        while idx < n && self.frames[idx].frame <= p.frame
            invariant
                self == old(self),
                n == self.frames@.len(),
                0 <= idx <= n,
                forall|q: int| 0 <= q < idx ==> self.frames@[q].frame <= p.frame,
            decreases n - idx,
        {
            idx = idx + 1;
        }
        let ghost prior = self.frames@;
        self.frames.insert(idx, p);
        proof {
            let f = self.frames@;
            assert forall|i: int, j: int| 0 <= i < j < f.len() implies f[i].frame
                <= f[j].frame by {
                if i < idx && j == idx {
                    assert(f[i] == prior[i]);
                } else if i == idx && j > idx {
                    assert(f[j] == prior[j - 1]);
                } else if i < idx && j > idx {
                    assert(f[i] == prior[i] && f[j] == prior[j - 1]);
                } else if i > idx {
                    assert(f[i] == prior[i - 1] && f[j] == prior[j - 1]);
                } else if j < idx {
                    assert(f[i] == prior[i] && f[j] == prior[j]);
                }
            }
            assert forall|i: int| 0 <= i < f.len() implies (#[trigger] f[i]).wf() by {
                if i < idx {
                    assert(f[i] == prior[i]);
                } else if i > idx {
                    assert(f[i] == prior[i - 1]);
                }
            }
        }
    }

    /// Pop the oldest frame, but only when the buffer holds at least
    /// `min_fill` frames; the buffer otherwise stays as it is.
    pub fn try_pop(&mut self, min_fill: usize) -> (r: Option<NetworkPacket>)
        requires
            old(self).wf(),
        ensures
            final(self).wf(),
            (if old(self).frames@.len() >= min_fill && old(self).frames@.len() > 0 {
                &&& r is Some
                &&& r.unwrap() == old(self).frames@[0]
                &&& r.unwrap().wf()
                &&& final(self).frames@ == old(self).frames@.skip(1)
                &&& (forall|k: int|
                    0 <= k < final(self).frames@.len() ==> r.unwrap().frame <= final(self).frames@[k].frame)
            } else {
                r is None && *final(self) == *old(self)
            }),
    {
        if self.frames.len() >= min_fill && self.frames.len() > 0 {
            let p = self.frames.remove(0);
            proof {
                assert(self.frames@ =~= old(self).frames@.skip(1));
            }
            Some(p)
        } else {
            None
        }
    }
}

/// Jitter ordering: a sorted buffer's head frame is no later than any
/// frame left after popping it, and the rest stays sorted — so
/// however frames were inserted, successive pops yield frames in
/// ascending order.
pub proof fn lemma_jitter_ordering(s: Seq<NetworkPacket>)
    requires
        sorted_by_frame(s),
        s.len() >= 1,
    ensures
        sorted_by_frame(s.skip(1)),
        forall|k: int| 0 <= k < s.skip(1).len() ==> s[0].frame <= s.skip(1)[k].frame,
{
    assert forall|i: int, j: int| 0 <= i < j < s.skip(1).len() implies s.skip(1)[i].frame <= s.skip(
        1,
    )[j].frame by {
        assert(s.skip(1)[i] == s[i + 1] && s.skip(1)[j] == s[j + 1]);
    }
    assert forall|k: int| 0 <= k < s.skip(1).len() implies s[0].frame <= s.skip(1)[k].frame by {
        assert(s.skip(1)[k] == s[k + 1]);
    }
}

/// The first cached snapshot carrying the given frame number, if any.
pub open spec fn cache_lookup_from(s: Seq<NetworkPacket>, frame: u32, i: int) -> Option<
    NetworkPacket,
>
    decreases s.len() - i,
{
    if i < 0 || i >= s.len() {
        None
    } else if s[i].frame == frame {
        Some(s[i])
    } else {
        cache_lookup_from(s, frame, i + 1)
    }
}

pub open spec fn cache_lookup(s: Seq<NetworkPacket>, frame: u32) -> Option<NetworkPacket> {
    cache_lookup_from(s, frame, 0)
}

/// The snapshot cache: a small bounded set of recent full snapshots,
/// kept so a delta naming one of them can be resolved. When full, a
/// new snapshot evicts the oldest entry.
pub struct SnapshotCache {
    pub snapshots: Vec<NetworkPacket>,
    pub capacity: usize,
}

impl SnapshotCache {
    pub open spec fn wf(&self) -> bool {
        all_wf(self.snapshots@) && self.snapshots@.len() <= self.capacity && self.capacity >= 1
    }

    pub fn new(capacity: usize) -> (r: SnapshotCache)
        requires
            capacity >= 1,
        ensures
            r.wf(),
            r.capacity == capacity,
            r.snapshots@.len() == 0,
    {
        SnapshotCache { snapshots: Vec::new(), capacity }
    }

    /// The index of the first cached snapshot at `frame`, if any.
    pub fn find_frame(&self, frame: u32) -> (r: Option<usize>)
        ensures
            (match r {
                Some(idx) => idx < self.snapshots@.len() && cache_lookup(self.snapshots@, frame)
                    == Some(self.snapshots@[idx as int]),
                None => cache_lookup(self.snapshots@, frame) is None,
            }),
    {
        let n = self.snapshots.len();
        for i in 0..n
            invariant
                n == self.snapshots@.len(),
                cache_lookup(self.snapshots@, frame) == cache_lookup_from(
                    self.snapshots@,
                    frame,
                    i as int,
                ),
        {
            if self.snapshots[i].frame == frame {
                return Some(i);
            }
        }
        None
    }

    /// Retain a snapshot, evicting the entry with the lowest frame
    /// number when the cache is full.
    pub fn insert_snapshot(&mut self, p: NetworkPacket)
        requires
            old(self).wf(),
            p.wf(),
        ensures
            final(self).wf(),
            final(self).capacity == old(self).capacity,
            (if old(self).snapshots@.len() < old(self).capacity {
                final(self).snapshots@ == old(self).snapshots@.push(p)
            } else {
                exists|idx: int|
                    {
                        &&& 0 <= idx < old(self).snapshots@.len()
                        &&& (forall|k: int|
                            0 <= k < old(self).snapshots@.len() ==> old(
                                self,
                            ).snapshots@[idx].frame <= #[trigger] old(
                                self,
                            ).snapshots@[k].frame)
                        &&& final(self).snapshots@ == old(self).snapshots@.update(idx, p)
                    }
            }),
    {
        let n = self.snapshots.len();
        if n < self.capacity {
            self.snapshots.push(p);
        } else {
            let mut oldest: usize = 0;
            for i in 1..n
                invariant
                    self == old(self),
                    n == self.snapshots@.len(),
                    n >= 1,
                    0 <= oldest < n,
                    forall|k: int|
                        0 <= k < i ==> self.snapshots@[oldest as int].frame <= #[trigger] self
                            .snapshots@[k].frame,
            {
                if self.snapshots[i].frame < self.snapshots[oldest].frame {
                    oldest = i;
                }
            }
            self.snapshots[oldest] = p;
            proof {
                assert forall|k: int| 0 <= k < final(self).snapshots@.len() implies (
                #[trigger] final(self).snapshots@[k]).wf() by {
                    if k != oldest {
                        assert(final(self).snapshots@[k] == old(self).snapshots@[k]);
                    }
                }
            }
        }
    }
}

/// The larger of a recorded frame counter and an arriving frame.
pub open spec fn frame_max(recorded: u32, frame: u32) -> u32 {
    if frame > recorded {
        frame
    } else {
        recorded
    }
}

/// The ack counters after a snapshot at `frame` is taken in: both
/// rise to `frame` unless they already stand past it — a stale
/// snapshot, reordered on the unreliable channel, never lowers them.
pub open spec fn ack_after_snapshot(a: NetworkClientAck, frame: u32) -> NetworkClientAck {
    NetworkClientAck {
        last_frame: frame_max(a.last_frame, frame),
        last_snapshot_frame: frame_max(a.last_snapshot_frame, frame),
    }
}

/// The ack counters after a delta at `frame` is taken in: the frame
/// counter rises to `frame` unless it already stands past it.
pub open spec fn ack_after_delta(a: NetworkClientAck, frame: u32) -> NetworkClientAck {
    NetworkClientAck {
        last_frame: frame_max(a.last_frame, frame),
        last_snapshot_frame: a.last_snapshot_frame,
    }
}

/// Ack monotonicity: whatever message arrives, in whatever order,
/// neither counter ever decreases; and each counter a message speaks
/// for ends at or past the arriving frame.
pub proof fn lemma_ack_monotonic(a: NetworkClientAck, frame: u32)
    ensures
        ack_after_snapshot(a, frame).last_frame >= a.last_frame,
        ack_after_snapshot(a, frame).last_snapshot_frame >= a.last_snapshot_frame,
        ack_after_snapshot(a, frame).last_frame >= frame,
        ack_after_snapshot(a, frame).last_snapshot_frame >= frame,
        ack_after_delta(a, frame).last_frame >= a.last_frame,
        ack_after_delta(a, frame).last_snapshot_frame >= a.last_snapshot_frame,
        ack_after_delta(a, frame).last_frame >= frame,
{
}

/// Take in one parsed server message, as the client's receive
/// pipeline does: a snapshot raises both ack counters to its frame,
/// enters the jitter buffer and is retained in the cache; a delta
/// raises the frame counter and, when its base snapshot is cached and
/// it applies to it, pushes the reconstructed frame into the jitter
/// buffer — a delta whose base is missing, or which does not apply,
/// is dropped. Neither counter ever moves backwards.
pub fn handle_server_message(
    jit: &mut JitBuffer,
    cache: &mut SnapshotCache,
    ack: &mut NetworkClientAck,
    msg: ServerMessage,
)
    requires
        old(jit).wf(),
        old(cache).wf(),
        msg.wf(),
    ensures
        final(jit).wf(),
        final(cache).wf(),
        (match msg {
            ServerMessage::Snapshot(s) => {
                &&& *final(ack) == ack_after_snapshot(*old(ack), s.frame)
                &&& final(jit).frames@.len() == old(jit).frames@.len() + 1
                &&& exists|idx: int|
                    0 <= idx <= old(jit).frames@.len() && final(jit).frames@ == old(
                        jit,
                    ).frames@.insert(idx, s)
                &&& final(cache).capacity == old(cache).capacity
                &&& exists|q: NetworkPacket|
                    {
                        &&& q.wf()
                        &&& q.model() == s.model()
                        &&& (if old(cache).snapshots@.len() < old(cache).capacity {
                            final(cache).snapshots@ == old(cache).snapshots@.push(q)
                        } else {
                            exists|idx: int|
                                0 <= idx < old(cache).snapshots@.len() && final(cache).snapshots@
                                    == old(cache).snapshots@.update(idx, q)
                        })
                    }
            },
            ServerMessage::Delta(d) => {
                &&& *final(ack) == ack_after_delta(*old(ack), d.frame)
                &&& *final(cache) == *old(cache)
                &&& (match cache_lookup(old(cache).snapshots@, d.snapshot_frame) {
                    None => *final(jit) == *old(jit),
                    Some(s) => {
                        if spec_applicable(s.model(), d.model()) {
                            exists|idx: int, q: NetworkPacket|
                                {
                                    &&& 0 <= idx <= old(jit).frames@.len()
                                    &&& q.wf()
                                    &&& q.model() == spec_apply(s.model(), d.model())
                                    &&& final(jit).frames@ == old(jit).frames@.insert(idx, q)
                                }
                        } else {
                            *final(jit) == *old(jit)
                        }
                    },
                })
            },
        }),
{
    match msg {
        ServerMessage::Snapshot(s) => {
            if s.frame > ack.last_snapshot_frame {
                ack.last_snapshot_frame = s.frame;
            }
            if s.frame > ack.last_frame {
                ack.last_frame = s.frame;
            }
            let dup = s.duplicate();
            jit.push_frame(s);
            cache.insert_snapshot(dup);
        },
        ServerMessage::Delta(d) => {
            if d.frame > ack.last_frame {
                ack.last_frame = d.frame;
            }
            match cache.find_frame(d.snapshot_frame) {
                Some(idx) => {
                    let base = &cache.snapshots[idx];
                    match base.try_apply(&d) {
                        Some(rebuilt) => {
                            jit.push_frame(rebuilt);
                        },
                        None => {},
                    }
                },
                None => {},
            }
        },
    }
}


/// The client's receive pipeline for one raw socket event: only
/// datagrams from the configured server are admitted, each is parsed
/// as a server message, and a parsed message is taken in as
/// `handle_server_message` does — a malformed datagram, or one from
/// anywhere else, is dropped and nothing changes.
pub fn client_handle_event(
    jit: &mut JitBuffer,
    cache: &mut SnapshotCache,
    ack: &mut NetworkClientAck,
    event: SocketEvent,
    server: NetAddr,
) -> (handled: bool)
    requires
        old(jit).wf(),
        old(cache).wf(),
    ensures
        final(jit).wf(),
        final(cache).wf(),
        handled == (event matches SocketEvent::Packet(addr, bytes) && addr == server
            && de_server_message(bytes@) is Some),
        !handled ==> *final(jit) == *old(jit) && *final(cache) == *old(cache) && *final(ack)
            == *old(ack),
        handled ==> (match event {
            SocketEvent::Packet(addr, bytes) => (match de_server_message(bytes@) {
                Some(m) => match m {
                    ServerMessageModel::Snapshot(sm) => {
                        &&& *final(ack) == ack_after_snapshot(*old(ack), sm.frame)
                        &&& final(jit).frames@.len() == old(jit).frames@.len() + 1
                        &&& exists|idx: int, q: NetworkPacket|
                            0 <= idx <= old(jit).frames@.len() && q.wf() && q.model() == sm
                                && final(jit).frames@ == old(jit).frames@.insert(idx, q)
                        &&& final(cache).capacity == old(cache).capacity
                        &&& exists|q: NetworkPacket|
                            {
                                &&& q.wf()
                                &&& q.model() == sm
                                &&& (if old(cache).snapshots@.len() < old(cache).capacity {
                                    final(cache).snapshots@ == old(cache).snapshots@.push(q)
                                } else {
                                    exists|idx: int|
                                        0 <= idx < old(cache).snapshots@.len()
                                            && final(cache).snapshots@ == old(
                                            cache,
                                        ).snapshots@.update(idx, q)
                                })
                            }
                    },
                    ServerMessageModel::Delta(dm) => {
                        &&& *final(ack) == ack_after_delta(*old(ack), dm.frame)
                        &&& *final(cache) == *old(cache)
                        &&& (match cache_lookup(old(cache).snapshots@, dm.snapshot_frame) {
                            None => *final(jit) == *old(jit),
                            Some(s) => {
                                if spec_applicable(s.model(), dm) {
                                    exists|idx: int, q: NetworkPacket|
                                        {
                                            &&& 0 <= idx <= old(jit).frames@.len()
                                            &&& q.wf()
                                            &&& q.model() == spec_apply(s.model(), dm)
                                            &&& final(jit).frames@ == old(jit).frames@.insert(
                                                idx,
                                                q,
                                            )
                                        }
                                } else {
                                    *final(jit) == *old(jit)
                                }
                            },
                        })
                    },
                },
                None => false,
            }),
            _ => false,
        }),
{
    match event {
        SocketEvent::Packet(addr, bytes) => {
            if !(addr.ip == server.ip && addr.port == server.port) {
                return false;
            }
            match ServerMessage::deserialize(&bytes) {
                Some(msg) => {
                    handle_server_message(jit, cache, ack, msg);
                    true
                },
                None => false,
            }
        },
        _ => false,
    }
}

} // verus!

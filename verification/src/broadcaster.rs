//! Broadcaster: pushes locally produced blocks to every peer and keeps an
//! exponentially weighted round-trip-time estimate and a consecutive
//! failure count per peer, used to detect and deprioritize degraded
//! subscribers. This is backpressure, not correctness: delivery is
//! best-effort and the synchronizer is the reliability backstop. The
//! sending itself, and reconnection backoff timing, belong to the runtime
//! around the library.

use vstd::prelude::*;

verus! {

/// Round-trip samples are capped here so the estimate never overflows.
pub const RTT_CAP_MS: u64 = 600000;

pub struct Broadcaster {
    /// Exponentially weighted round-trip estimate per peer, milliseconds.
    pub rtt_ms: Vec<u64>,
    /// Consecutive send failures per peer since the last success.
    pub failures: Vec<u64>,
}

impl Broadcaster {
    pub open spec fn peer_count(self) -> nat {
        self.rtt_ms@.len()
    }

    pub open spec fn wf(self) -> bool {
        &&& self.rtt_ms@.len() == self.failures@.len()
        &&& forall|p: int| 0 <= p < self.rtt_ms@.len() ==> #[trigger] self.rtt_ms@[p] <= RTT_CAP_MS
    }

    pub fn new(peers: usize, initial_rtt_ms: u64) -> (b: Broadcaster)
        requires
            initial_rtt_ms <= RTT_CAP_MS,
        ensures
            b.wf(),
            b.peer_count() == peers,
            forall|p: int| 0 <= p < peers ==> #[trigger] b.rtt_ms@[p] == initial_rtt_ms,
            forall|p: int| 0 <= p < peers ==> #[trigger] b.failures@[p] == 0,
    {
        let mut rtt_ms: Vec<u64> = Vec::new();
        let mut failures: Vec<u64> = Vec::new();
        let mut p: usize = 0;
        while p < peers
            invariant
                0 <= p <= peers,
                rtt_ms@.len() == p,
                failures@.len() == p,
                initial_rtt_ms <= RTT_CAP_MS,
                forall|p2: int| 0 <= p2 < p ==> #[trigger] rtt_ms@[p2] == initial_rtt_ms,
                forall|p2: int| 0 <= p2 < p ==> #[trigger] failures@[p2] == 0,
            decreases peers - p,
        {
            rtt_ms.push(initial_rtt_ms);
            failures.push(0);
            p += 1;
        }
        Broadcaster { rtt_ms, failures }
    }

    /// A peer acknowledged a block: fold the observed round-trip time into
    /// the estimate with weight 1/8 (samples above the cap count as the
    /// cap) and clear the failure streak.
    pub fn on_ack(&mut self, peer: usize, sample_ms: u64)
        requires
            old(self).wf(),
            peer < old(self).peer_count(),
        ensures
            final(self).wf(),
            final(self).peer_count() == old(self).peer_count(),
            final(self).rtt_ms@[peer as int] == (7 * old(self).rtt_ms@[peer as int] + (if sample_ms
                <= RTT_CAP_MS {
                sample_ms
            } else {
                RTT_CAP_MS
            })) / 8,
            final(self).failures@[peer as int] == 0,
            forall|p: int|
                0 <= p < old(self).peer_count() && p != peer
                    ==> #[trigger] final(self).rtt_ms@[p] == old(self).rtt_ms@[p]
                        && #[trigger] final(self).failures@[p] == old(self).failures@[p],
    {
        let capped = if sample_ms <= RTT_CAP_MS {
            sample_ms
        } else {
            RTT_CAP_MS
        };
        let current = self.rtt_ms[peer];
        let updated = (7 * current + capped) / 8;
        self.rtt_ms.set(peer, updated);
        self.failures.set(peer, 0);
    }

    /// A send to this peer failed: lengthen its failure streak.
    pub fn on_send_failure(&mut self, peer: usize)
        requires
            old(self).wf(),
            peer < old(self).peer_count(),
        ensures
            final(self).wf(),
            final(self).peer_count() == old(self).peer_count(),
            final(self).failures@[peer as int] == if old(self).failures@[peer as int] < u64::MAX {
                old(self).failures@[peer as int] + 1
            } else {
                old(self).failures@[peer as int] as int
            },
            final(self).rtt_ms@ == old(self).rtt_ms@,
            forall|p: int|
                0 <= p < old(self).peer_count() && p != peer
                    ==> #[trigger] final(self).failures@[p] == old(self).failures@[p],
    {
        let f = self.failures[peer];
        if f < u64::MAX {
            self.failures.set(peer, f + 1);
        }
    }

    /// The connection to this peer was (re)established: clear its streak.
    pub fn on_connected(&mut self, peer: usize)
        requires
            old(self).wf(),
            peer < old(self).peer_count(),
        ensures
            final(self).wf(),
            final(self).peer_count() == old(self).peer_count(),
            final(self).failures@[peer as int] == 0,
            final(self).rtt_ms@ == old(self).rtt_ms@,
            forall|p: int|
                0 <= p < old(self).peer_count() && p != peer
                    ==> #[trigger] final(self).failures@[p] == old(self).failures@[p],
    {
        self.failures.set(peer, 0);
    }

    /// Should this peer be deprioritized? True exactly when its round-trip
    /// estimate or failure streak crosses the given thresholds.
    pub fn is_degraded(&self, peer: usize, rtt_threshold_ms: u64, failure_threshold: u64) -> (out:
        bool)
        requires
            self.wf(),
            peer < self.peer_count(),
        ensures
            out == (self.rtt_ms@[peer as int] > rtt_threshold_ms || self.failures@[peer as int]
                > failure_threshold),
    {
        self.rtt_ms[peer] > rtt_threshold_ms || self.failures[peer] > failure_threshold
    }
}

} // verus!

//! CommitSyncer: bulk catch-up. When the local commit index trails the
//! network's, the outstanding index range is split into chunks fetched from
//! peers in parallel; fetched commits are buffered and handed to the
//! consumer strictly in increasing index order, whatever order responses
//! arrive in.

use vstd::prelude::*;
use crate::types::Commit;

verus! {

pub struct CommitSyncer {
    /// Size of one fetch chunk, at least 1.
    pub chunk_size: u64,
    /// Bound on concurrently outstanding chunk fetches.
    pub max_inflight: usize,
    /// Next commit index owed to the consumer.
    pub next_index: u64,
    /// Highest commit index any peer has reported.
    pub target_index: u64,
    /// Chunks have been cut up to this index.
    pub scheduled_to: u64,
    /// Chunks waiting to be requested: inclusive index ranges.
    pub pending: Vec<(u64, u64)>,
    /// Chunks currently requested from peers.
    pub inflight: Vec<(u64, u64)>,
    /// Fetched commits not yet delivered, in arrival order.
    pub buffer: Vec<Commit>,
    /// Indices handed to the consumer, in call order.
    pub delivered: Vec<u64>,
}

/// Every queued range is non-empty (`lo <= hi`).
pub open spec fn ranges_wf(s: Seq<(u64, u64)>) -> bool {
    forall|t: int| 0 <= t < s.len() ==> (#[trigger] s[t]).0 <= s[t].1
}

impl CommitSyncer {
    /// The delivery log is contiguous and ends right below `next_index`
    /// (deliveries can only ever have happened in increasing index order),
    /// and every queued or requested range is well-formed.
    pub open spec fn wf(self) -> bool {
        &&& self.chunk_size >= 1
        &&& forall|i: int|
            0 <= i < self.delivered@.len()
                ==> #[trigger] self.delivered@[i] == self.next_index - self.delivered@.len() + i
        &&& ranges_wf(self.pending@)
        &&& ranges_wf(self.inflight@)
    }

    /// Start from the last locally known commit index (0 when none).
    pub fn new(local_last_index: u64, chunk_size: u64, max_inflight: usize) -> (s: CommitSyncer)
        requires
            chunk_size >= 1,
            local_last_index < u64::MAX,
        ensures
            s.wf(),
            s.next_index == local_last_index + 1,
            s.target_index == local_last_index,
            s.scheduled_to == local_last_index,
            s.pending@.len() == 0,
            s.inflight@.len() == 0,
            s.buffer@.len() == 0,
            s.delivered@.len() == 0,
    {
        CommitSyncer {
            chunk_size,
            max_inflight,
            next_index: local_last_index + 1,
            target_index: local_last_index,
            scheduled_to: local_last_index,
            pending: Vec::new(),
            inflight: Vec::new(),
            buffer: Vec::new(),
            delivered: Vec::new(),
        }
    }

    /// A peer reported its highest commit index.
    pub fn observe_network_index(&mut self, idx: u64)
        requires
            old(self).wf(),
        ensures
            final(self).wf(),
            final(self).target_index == if idx > old(self).target_index {
                idx
            } else {
                old(self).target_index
            },
            *final(self) == (CommitSyncer { target_index: final(self).target_index, ..*old(self) }),
    {
        if idx > self.target_index {
            self.target_index = idx;
        }
    }

    /// Cut the whole not-yet-scheduled part of the outstanding range,
    /// `(scheduled_to, target_index]`, into consecutive chunks of at most
    /// `chunk_size` and append them to the fetch queue.
    pub fn schedule_chunks(&mut self)
        requires
            old(self).wf(),
            old(self).target_index < u64::MAX,
        ensures
            final(self).wf(),
            // everything up to the target is now scheduled
            final(self).scheduled_to == if old(self).target_index > old(self).scheduled_to {
                old(self).target_index
            } else {
                old(self).scheduled_to
            },
            final(self).next_index == old(self).next_index,
            final(self).target_index == old(self).target_index,
            final(self).delivered@ == old(self).delivered@,
            final(self).buffer@ == old(self).buffer@,
            final(self).inflight@ == old(self).inflight@,
            // earlier queued chunks are untouched
            final(self).pending@.len() >= old(self).pending@.len(),
            forall|t: int|
                0 <= t < old(self).pending@.len()
                    ==> #[trigger] final(self).pending@[t] == old(self).pending@[t],
            // the new chunks exactly cover (old scheduled_to, target]:
            // consecutive, each at most chunk_size long, starting one past
            // what was scheduled and ending at the target
            forall|t: int|
                old(self).pending@.len() <= t < final(self).pending@.len()
                    ==> (#[trigger] final(self).pending@[t]).0 <= final(self).pending@[t].1
                        && final(self).pending@[t].1 - final(self).pending@[t].0 + 1
                            <= old(self).chunk_size
                        && final(self).pending@[t].1 <= old(self).target_index,
            final(self).pending@.len() > old(self).pending@.len()
                ==> final(self).pending@[old(self).pending@.len() as int].0
                    == old(self).scheduled_to + 1
                    && final(self).pending@.last().1 == old(self).target_index,
            forall|t: int|
                old(self).pending@.len() < t < final(self).pending@.len()
                    ==> (#[trigger] final(self).pending@[t]).0 == final(self).pending@[t - 1].1 + 1,
            // chunks are queued exactly when something was outstanding
            (final(self).pending@.len() == old(self).pending@.len()) == (old(self).scheduled_to
                >= old(self).target_index),
    {
        while self.scheduled_to < self.target_index
            invariant
                self.wf(),
                self.target_index < u64::MAX,
                self.target_index == old(self).target_index,
                self.next_index == old(self).next_index,
                self.chunk_size == old(self).chunk_size,
                self.max_inflight == old(self).max_inflight,
                self.delivered@ == old(self).delivered@,
                self.buffer@ == old(self).buffer@,
                self.inflight@ == old(self).inflight@,
                self.scheduled_to >= old(self).scheduled_to,
                self.scheduled_to <= self.target_index || self.scheduled_to == old(self).scheduled_to,
                self.pending@.len() >= old(self).pending@.len(),
                forall|t: int|
                    0 <= t < old(self).pending@.len()
                        ==> #[trigger] self.pending@[t] == old(self).pending@[t],
                forall|t: int|
                    old(self).pending@.len() <= t < self.pending@.len()
                        ==> (#[trigger] self.pending@[t]).0 <= self.pending@[t].1
                            && self.pending@[t].1 - self.pending@[t].0 + 1 <= self.chunk_size
                            && self.pending@[t].1 <= self.target_index,
                self.pending@.len() > old(self).pending@.len()
                    ==> self.pending@[old(self).pending@.len() as int].0
                        == old(self).scheduled_to + 1
                        && self.pending@.last().1 == self.scheduled_to,
                forall|t: int|
                    old(self).pending@.len() < t < self.pending@.len()
                        ==> (#[trigger] self.pending@[t]).0 == self.pending@[t - 1].1 + 1,
                (self.pending@.len() == old(self).pending@.len()) == (self.scheduled_to
                    == old(self).scheduled_to),
                self.scheduled_to > old(self).scheduled_to ==> self.pending@.len()
                    > old(self).pending@.len(),
            decreases self.target_index - self.scheduled_to,
        {
            let lo = self.scheduled_to + 1;
            let room = self.target_index - self.scheduled_to;
            let len = if room < self.chunk_size {
                room
            } else {
                self.chunk_size
            };
            let hi = self.scheduled_to + len;
            let ghost prev = self.pending@;
            self.pending.push((lo, hi));
            proof {
                assert(self.pending@ == prev.push((lo, hi)));
                assert forall|t: int| 0 <= t < prev.len() implies #[trigger] self.pending@[t]
                    == prev[t] by {
                    assert(prev.push((lo, hi))[t] == prev[t]);
                };
                assert(self.pending@.last() == (lo, hi));
            }
            self.scheduled_to = hi;
        }
    }

    /// Move chunks from the back of the queue into the in-flight set until
    /// the concurrency bound is reached or the queue is empty, and return
    /// exactly the ranges to request from peers now.
    pub fn next_requests(&mut self) -> (out: Vec<(u64, u64)>)
        requires
            old(self).wf(),
        ensures
            final(self).wf(),
            final(self).next_index == old(self).next_index,
            final(self).target_index == old(self).target_index,
            final(self).scheduled_to == old(self).scheduled_to,
            final(self).delivered@ == old(self).delivered@,
            final(self).buffer@ == old(self).buffer@,
            // the in-flight set gains exactly the issued ranges, and the
            // queue loses exactly them (taken from its back)
            final(self).inflight@ == old(self).inflight@ + out@,
            final(self).pending@ == old(self).pending@.take(
                old(self).pending@.len() - out@.len(),
            ),
            // progress: requests are issued until the queue is drained or
            // the concurrency bound is reached
            final(self).pending@.len() == 0 || final(self).inflight@.len()
                >= final(self).max_inflight,
            old(self).inflight@.len() <= old(self).max_inflight ==> final(self).inflight@.len()
                <= final(self).max_inflight,
    {
        let mut out: Vec<(u64, u64)> = Vec::new();
        while self.inflight.len() < self.max_inflight && self.pending.len() > 0
            invariant
                self.wf(),
                self.next_index == old(self).next_index,
                self.target_index == old(self).target_index,
                self.scheduled_to == old(self).scheduled_to,
                self.chunk_size == old(self).chunk_size,
                self.max_inflight == old(self).max_inflight,
                self.delivered@ == old(self).delivered@,
                self.buffer@ == old(self).buffer@,
                self.inflight@ == old(self).inflight@ + out@,
                self.pending@ == old(self).pending@.take(old(self).pending@.len() - out@.len()),
                out@.len() <= old(self).pending@.len(),
                out@.len() > 0 ==> self.inflight@.len() <= self.max_inflight,
            decreases self.pending@.len(),
        {
            let ghost prev_pending = self.pending@;
            let ghost prev_out = out@;
            let chunk = self.pending.pop().unwrap();
            self.inflight.push(chunk);
            out.push(chunk);
            proof {
                assert(self.pending@ == prev_pending.drop_last());
                assert(self.inflight@ =~= old(self).inflight@ + prev_out.push(chunk));
                assert(self.pending@ =~= old(self).pending@.take(
                    old(self).pending@.len() - out@.len(),
                ));
            }
        }
        out
    }

    /// A chunk fetch failed: take it out of the in-flight set and requeue
    /// it, so it is re-issued to another peer.
    pub fn on_chunk_failed(&mut self, lo: u64, hi: u64)
        requires
            old(self).wf(),
            lo <= hi,
        ensures
            final(self).wf(),
            final(self).next_index == old(self).next_index,
            final(self).target_index == old(self).target_index,
            final(self).scheduled_to == old(self).scheduled_to,
            final(self).delivered@ == old(self).delivered@,
            final(self).buffer@ == old(self).buffer@,
            final(self).pending@ == old(self).pending@.push((lo, hi)),
            // the failed range left the in-flight set; everything else stays
            !final(self).inflight@.contains((lo, hi)),
            forall|x: (u64, u64)|
                x != (lo, hi) ==> (final(self).inflight@.contains(x) == old(
                    self,
                ).inflight@.contains(x)),
            final(self).inflight@.len() <= old(self).inflight@.len(),
    {
        remove_range(&mut self.inflight, lo, hi);
        let ghost prev = self.pending@;
        self.pending.push((lo, hi));
        proof {
            assert(self.pending@ == prev.push((lo, hi)));
            assert forall|t: int| 0 <= t < self.pending@.len() implies (#[trigger] self.pending@[t]).0
                <= self.pending@[t].1 by {
                if t < prev.len() {
                    assert(self.pending@[t] == prev[t]);
                } else {
                    assert(self.pending@[t] == (lo, hi));
                }
            };
        }
    }

    /// A chunk fetch returned: retire the range from the in-flight set and
    /// buffer exactly the fetched commits (appended in reverse), whatever
    /// order chunks come back in.
    pub fn on_commits_fetched(&mut self, lo: u64, hi: u64, commits: Vec<Commit>)
        requires
            old(self).wf(),
        ensures
            final(self).wf(),
            final(self).next_index == old(self).next_index,
            final(self).target_index == old(self).target_index,
            final(self).scheduled_to == old(self).scheduled_to,
            final(self).delivered@ == old(self).delivered@,
            final(self).pending@ == old(self).pending@,
            !final(self).inflight@.contains((lo, hi)),
            forall|x: (u64, u64)|
                x != (lo, hi) ==> (final(self).inflight@.contains(x) == old(
                    self,
                ).inflight@.contains(x)),
            // the buffer gains exactly the fetched commits
            final(self).buffer@.len() == old(self).buffer@.len() + commits@.len(),
            forall|t: int|
                0 <= t < old(self).buffer@.len()
                    ==> #[trigger] final(self).buffer@[t] == old(self).buffer@[t],
            forall|t: int|
                0 <= t < commits@.len()
                    ==> #[trigger] final(self).buffer@[old(self).buffer@.len() + t]
                        == commits@[commits@.len() - 1 - t],
    {
        remove_range(&mut self.inflight, lo, hi);
        let ghost fetched = commits@;
        let ghost base = self.buffer@;
        let mut commits = commits;
        proof {
            assert(fetched.take(fetched.len() as int) =~= fetched);
        }
        while commits.len() > 0
            invariant
                self.wf(),
                self.next_index == old(self).next_index,
                self.target_index == old(self).target_index,
                self.scheduled_to == old(self).scheduled_to,
                self.delivered@ == old(self).delivered@,
                self.pending@ == old(self).pending@,
                self.inflight@.len() <= old(self).inflight@.len(),
                !self.inflight@.contains((lo, hi)),
                forall|x: (u64, u64)|
                    x != (lo, hi) ==> (self.inflight@.contains(x) == old(
                        self,
                    ).inflight@.contains(x)),
                commits@.len() <= fetched.len(),
                commits@ == fetched.take(commits@.len() as int),
                self.buffer@.len() == base.len() + fetched.len() - commits@.len(),
                forall|t: int| 0 <= t < base.len() ==> #[trigger] self.buffer@[t] == base[t],
                forall|t: int|
                    0 <= t < fetched.len() - commits@.len()
                        ==> #[trigger] self.buffer@[base.len() + t]
                            == fetched[fetched.len() - 1 - t],
            decreases commits@.len(),
        {
            let ghost prev_commits = commits@;
            let ghost prev_buffer = self.buffer@;
            let c = commits.pop().unwrap();
            self.buffer.push(c);
            proof {
                assert(prev_commits == fetched.take(prev_commits.len() as int));
                assert(prev_commits.len() > 0);
                assert(c == prev_commits[prev_commits.len() - 1]);
                assert(commits@ == prev_commits.subrange(0, prev_commits.len() - 1));
                assert(commits@ =~= fetched.take(commits@.len() as int));
                assert(fetched.take(prev_commits.len() as int)[prev_commits.len() - 1]
                    == fetched[prev_commits.len() - 1]);
                assert(c == fetched[prev_commits.len() - 1]);
                assert(self.buffer@ == prev_buffer.push(c));
                assert forall|t: int|
                    0 <= t < fetched.len() - commits@.len()
                    implies #[trigger] self.buffer@[base.len() + t]
                        == fetched[fetched.len() - 1 - t] by {
                    if t < fetched.len() - prev_commits.len() {
                        assert(self.buffer@[base.len() + t] == prev_buffer[base.len() + t]);
                    } else {
                        assert(self.buffer@[base.len() + t] == c);
                        assert(fetched.len() - 1 - t == prev_commits.len() - 1);
                    }
                };
            }
        }
        proof {
            assert(fetched.take(0) =~= commits@);
        }
    }

    /// Hand the consumer the next commit, and only the next: a commit is
    /// delivered exactly when its index is one past the last delivered one,
    /// so deliveries are strictly increasing and gap-free regardless of
    /// network arrival order.
    pub fn pop_ready(&mut self) -> (out: Option<Commit>)
        requires
            old(self).wf(),
            old(self).next_index < u64::MAX,
        ensures
            final(self).wf(),
            match out {
                Some(c) => c.index == old(self).next_index
                    && final(self).next_index == old(self).next_index + 1
                    && final(self).delivered@ == old(self).delivered@.push(old(self).next_index)
                    // the delivered commit came out of the buffer, which
                    // lost exactly that entry
                    && (exists|t: int|
                        0 <= t < old(self).buffer@.len() && old(self).buffer@[t] == c
                            && final(self).buffer@ == old(self).buffer@.remove(t))
                    && final(self).pending@ == old(self).pending@
                    && final(self).inflight@ == old(self).inflight@,
                None => *final(self) == *old(self) && (forall|t: int|
                    0 <= t < old(self).buffer@.len()
                        ==> (#[trigger] old(self).buffer@[t]).index != old(self).next_index),
            },
    {
        let mut t: usize = 0;
        while t < self.buffer.len()
            invariant
                0 <= t <= self.buffer@.len(),
                *self == *old(self),
                old(self).wf(),
                old(self).next_index < u64::MAX,
                forall|t2: int|
                    0 <= t2 < t ==> (#[trigger] self.buffer@[t2]).index != self.next_index,
            decreases self.buffer@.len() - t,
        {
            if self.buffer[t].index == self.next_index {
                let ghost prev_buffer = self.buffer@;
                let ghost prev_delivered = self.delivered@;
                let ghost nx = self.next_index;
                let c = self.buffer.remove(t);
                self.delivered.push(self.next_index);
                self.next_index = self.next_index + 1;
                proof {
                    assert(self.buffer@ == prev_buffer.remove(t as int));
                    assert(prev_buffer[t as int] == c);
                    assert(self.delivered@ == prev_delivered.push(nx));
                    assert forall|i: int| 0 <= i < self.delivered@.len()
                        implies #[trigger] self.delivered@[i] == self.next_index
                            - self.delivered@.len() + i by {
                        if i < prev_delivered.len() {
                            assert(self.delivered@[i] == prev_delivered[i]);
                        } else {
                            assert(self.delivered@[i] == nx);
                        }
                    };
                }
                return Some(c);
            }
            t += 1;
        }
        None
    }
}

/// Remove every occurrence of the range from the list, keeping everything
/// else in order.
fn remove_range(v: &mut Vec<(u64, u64)>, lo: u64, hi: u64)
    ensures
        final(v)@.len() <= old(v)@.len(),
        !final(v)@.contains((lo, hi)),
        forall|x: (u64, u64)| x != (lo, hi) ==> (final(v)@.contains(x) == old(v)@.contains(x)),
        forall|x: (u64, u64)| final(v)@.contains(x) ==> old(v)@.contains(x),
        ranges_wf(old(v)@) ==> ranges_wf(final(v)@),
{
    let mut out: Vec<(u64, u64)> = Vec::new();
    let mut i: usize = 0;
    while i < v.len()
        invariant
            0 <= i <= v@.len(),
            v@ == old(v)@,
            out@.len() <= i,
            !out@.contains((lo, hi)),
            forall|p: int|
                0 <= p < out@.len() ==> exists|k: int| 0 <= k < i && old(v)@[k] == #[trigger] out@[p],
            forall|k: int|
                0 <= k < i && old(v)@[k] != (lo, hi) ==> out@.contains(#[trigger] old(v)@[k]),
        decreases v@.len() - i,
    {
        let e = v[i];
        if !(e.0 == lo && e.1 == hi) {
            let ghost prev = out@;
            proof {
                assert(e == old(v)@[i as int]);
            }
            out.push(e);
            proof {
                assert(out@ == prev.push(e));
                assert(out@.last() == e);
                assert forall|p: int|
                    0 <= p < out@.len() implies exists|k: int|
                        0 <= k < i + 1 && old(v)@[k] == #[trigger] out@[p] by {
                    if p < prev.len() {
                        assert(out@[p] == prev[p]);
                        let k = choose|k: int| 0 <= k < i && old(v)@[k] == prev[p];
                        assert(old(v)@[k] == out@[p]);
                    } else {
                        assert(out@[p] == old(v)@[i as int]);
                    }
                };
                assert forall|k: int|
                    0 <= k < i + 1 && old(v)@[k] != (lo, hi)
                    implies out@.contains(#[trigger] old(v)@[k]) by {
                    if k < i {
                        let p = choose|p: int| 0 <= p < prev.len() && prev[p] == old(v)@[k];
                        assert(out@[p] == old(v)@[k]);
                    } else {
                        assert(out@.last() == old(v)@[k]);
                    }
                };
                assert(!out@.contains((lo, hi))) by {
                    if out@.contains((lo, hi)) {
                        let p = choose|p: int| 0 <= p < out@.len() && out@[p] == (lo, hi);
                        if p < prev.len() {
                            assert(prev[p] == (lo, hi));
                        }
                    }
                };
            }
        } else {
            proof {
                assert(old(v)@[i as int] == (lo, hi));
            }
        }
        i += 1;
    }
    proof {
        assert forall|x: (u64, u64)| x != (lo, hi) && old(v)@.contains(x)
            implies out@.contains(x) by {
            let k = choose|k: int| 0 <= k < old(v)@.len() && old(v)@[k] == x;
        };
        assert forall|x: (u64, u64)| out@.contains(x) implies old(v)@.contains(x) by {
            let p = choose|p: int| 0 <= p < out@.len() && out@[p] == x;
            let k = choose|k: int| 0 <= k < old(v)@.len() && old(v)@[k] == out@[p];
        };
        assert(ranges_wf(old(v)@) ==> ranges_wf(out@)) by {
            if ranges_wf(old(v)@) {
                assert forall|t: int| 0 <= t < out@.len() implies (#[trigger] out@[t]).0
                    <= out@[t].1 by {
                    let k = choose|k: int| 0 <= k < old(v)@.len() && old(v)@[k] == out@[t];
                };
            }
        };
    }
    *v = out;
}

/// Law: a syncer's deliveries to the consumer are strictly increasing and
/// contiguous, whatever order its chunks were fetched in.
pub proof fn lemma_deliveries_strictly_increasing(s: CommitSyncer)
    requires
        s.wf(),
    ensures
        forall|i: int, j: int|
            0 <= i < j < s.delivered@.len() ==> #[trigger] s.delivered@[i] < #[trigger] s.delivered@[j],
        forall|i: int|
            0 <= i < s.delivered@.len() - 1
                ==> #[trigger] s.delivered@[i + 1] == s.delivered@[i] + 1,
{
}

} // verus!

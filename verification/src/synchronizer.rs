//! Synchronizer: reactive repair. Missing-ancestor signals from the block
//! manager queue targeted fetches, issued with a concurrency bound to the
//! authority expected to hold each block; a block arriving through normal
//! gossip cancels the now-redundant fetch, and failed fetches are requeued
//! for retry (the retry backoff timing belongs to the runtime around the
//! library).

use vstd::prelude::*;
use crate::types::{AuthorityIndex, BlockRef};

verus! {

pub struct Synchronizer {
    /// Bound on concurrently outstanding block fetches.
    pub max_inflight: usize,
    /// Known-missing references not yet requested.
    pub missing: Vec<BlockRef>,
    /// References currently requested from peers.
    pub inflight: Vec<BlockRef>,
}

impl Synchronizer {
    /// A reference is tracked if it waits to be fetched or is being fetched.
    pub open spec fn tracks(self, r: BlockRef) -> bool {
        self.missing@.contains(r) || self.inflight@.contains(r)
    }

    /// No duplicates, no overlap, and the concurrency bound holds.
    pub open spec fn wf(self) -> bool {
        &&& forall|p: int, q: int|
            0 <= p < q < self.missing@.len() ==> #[trigger] self.missing@[p] != #[trigger] self.missing@[q]
        &&& forall|p: int, q: int|
            0 <= p < q < self.inflight@.len() ==> #[trigger] self.inflight@[p] != #[trigger] self.inflight@[q]
        &&& forall|p: int, q: int|
            0 <= p < self.missing@.len() && 0 <= q < self.inflight@.len()
                ==> #[trigger] self.missing@[p] != #[trigger] self.inflight@[q]
        &&& self.inflight@.len() <= self.max_inflight
    }

    pub fn new(max_inflight: usize) -> (s: Synchronizer)
        ensures
            s.wf(),
            s.max_inflight == max_inflight,
            s.missing@.len() == 0,
            s.inflight@.len() == 0,
    {
        Synchronizer { max_inflight, missing: Vec::new(), inflight: Vec::new() }
    }

    /// Track every newly reported missing ancestor; references already
    /// tracked are not queued twice.
    pub fn on_missing_ancestors(&mut self, refs: &Vec<BlockRef>)
        requires
            old(self).wf(),
        ensures
            final(self).wf(),
            final(self).max_inflight == old(self).max_inflight,
            final(self).inflight@ == old(self).inflight@,
            forall|t: int| 0 <= t < refs@.len() ==> final(self).tracks(#[trigger] refs@[t]),
            forall|r: BlockRef| old(self).tracks(r) ==> final(self).tracks(r),
            forall|r: BlockRef| final(self).tracks(r) ==> old(self).tracks(r) || refs@.contains(r),
    {
        let mut t: usize = 0;
        while t < refs.len()
            invariant
                self.wf(),
                0 <= t <= refs@.len(),
                self.max_inflight == old(self).max_inflight,
                self.inflight@ == old(self).inflight@,
                forall|t2: int| 0 <= t2 < t ==> self.tracks(#[trigger] refs@[t2]),
                forall|r: BlockRef| old(self).tracks(r) ==> self.tracks(r),
                forall|r: BlockRef| self.tracks(r) ==> old(self).tracks(r) || refs@.contains(r),
            decreases refs@.len() - t,
        {
            let ghost pre = *self;
            let r = refs[t];
            if !contains_ref_vec(&self.missing, &r) && !contains_ref_vec(&self.inflight, &r) {
                let ghost prev = self.missing@;
                self.missing.push(r);
                proof {
                    assert(self.missing@.last() == r);
                    assert forall|r2: BlockRef| self.tracks(r2)
                        implies pre.tracks(r2) || refs@.contains(r2) by {
                        if self.missing@.contains(r2) {
                            let i = choose|i: int|
                                0 <= i < self.missing@.len() && self.missing@[i] == r2;
                            if i < prev.len() {
                                assert(prev[i] == r2);
                            } else {
                                assert(refs@[t as int] == r2);
                            }
                        }
                    };
                    assert forall|r2: BlockRef| pre.tracks(r2) implies self.tracks(r2) by {
                        if pre.missing@.contains(r2) {
                            let i = choose|i: int|
                                0 <= i < prev.len() && prev[i] == r2;
                            assert(self.missing@[i] == r2);
                        }
                    };
                    assert forall|t2: int| 0 <= t2 < t + 1
                        implies self.tracks(#[trigger] refs@[t2]) by {
                        if t2 < t {
                            assert(pre.tracks(refs@[t2]));
                        } else {
                            assert(self.missing@.last() == refs@[t2]);
                        }
                    };
                }
            } else {
                proof {
                    assert(self.tracks(refs@[t as int]));
                }
            }
            t += 1;
        }
    }

    /// Issue fetches up to the concurrency bound. Each missing block is
    /// requested from its named author, the authority expected to hold it.
    /// References move from the back of the missing queue into the
    /// in-flight set; nothing tracked is ever dropped, and fetches are
    /// issued until the queue is drained or the bound is reached.
    pub fn next_fetches(&mut self) -> (out: Vec<(AuthorityIndex, BlockRef)>)
        requires
            old(self).wf(),
        ensures
            final(self).wf(),
            final(self).max_inflight == old(self).max_inflight,
            forall|t: int|
                0 <= t < out@.len() ==> (#[trigger] out@[t]).0 == out@[t].1.author,
            // exactly the returned references moved from missing to inflight
            final(self).missing@ == old(self).missing@.take(
                old(self).missing@.len() - out@.len(),
            ),
            final(self).inflight@.len() == old(self).inflight@.len() + out@.len(),
            forall|t: int|
                0 <= t < old(self).inflight@.len()
                    ==> #[trigger] final(self).inflight@[t] == old(self).inflight@[t],
            forall|t: int|
                0 <= t < out@.len()
                    ==> #[trigger] final(self).inflight@[old(self).inflight@.len() + t]
                        == out@[t].1,
            // conservation: tracked references stay tracked
            forall|r: BlockRef| old(self).tracks(r) <==> final(self).tracks(r),
            // progress: fetch until the queue is empty or the bound is hit
            final(self).missing@.len() == 0 || final(self).inflight@.len()
                == final(self).max_inflight,
            final(self).inflight@.len() <= final(self).max_inflight,
    {
        let mut out: Vec<(AuthorityIndex, BlockRef)> = Vec::new();
        while self.inflight.len() < self.max_inflight && self.missing.len() > 0
            invariant
                self.wf(),
                self.max_inflight == old(self).max_inflight,
                forall|t: int|
                    0 <= t < out@.len() ==> (#[trigger] out@[t]).0 == out@[t].1.author,
                self.missing@ == old(self).missing@.take(old(self).missing@.len() - out@.len()),
                out@.len() <= old(self).missing@.len(),
                self.inflight@.len() == old(self).inflight@.len() + out@.len(),
                forall|t: int|
                    0 <= t < old(self).inflight@.len()
                        ==> #[trigger] self.inflight@[t] == old(self).inflight@[t],
                forall|t: int|
                    0 <= t < out@.len()
                        ==> #[trigger] self.inflight@[old(self).inflight@.len() + t] == out@[t].1,
                forall|r: BlockRef| old(self).tracks(r) <==> self.tracks(r),
            decreases self.missing@.len(),
        {
            let ghost prev = *self;
            let ghost prev_out = out@;
            let r = self.missing.pop().unwrap();
            self.inflight.push(r);
            out.push((r.author, r));
            proof {
                assert(r == prev.missing@.last());
                assert(self.missing@ == prev.missing@.subrange(0, prev.missing@.len() - 1));
                assert(self.missing@ =~= old(self).missing@.take(
                    old(self).missing@.len() - out@.len(),
                ));
                assert(self.inflight@ == prev.inflight@.push(r));
                assert(self.inflight@.last() == r);
                // the moved reference stays tracked, everything else is
                // untouched
                assert forall|r2: BlockRef| prev.tracks(r2) implies self.tracks(r2) by {
                    if prev.missing@.contains(r2) {
                        let i = choose|i: int|
                            0 <= i < prev.missing@.len() && prev.missing@[i] == r2;
                        if i < prev.missing@.len() - 1 {
                            assert(self.missing@[i] == r2);
                        } else {
                            assert(self.inflight@.last() == r2);
                        }
                    } else {
                        let i = choose|i: int|
                            0 <= i < prev.inflight@.len() && prev.inflight@[i] == r2;
                        assert(self.inflight@[i] == r2);
                    }
                };
                assert forall|r2: BlockRef| self.tracks(r2) implies prev.tracks(r2) by {
                    if self.missing@.contains(r2) {
                        let i = choose|i: int|
                            0 <= i < self.missing@.len() && self.missing@[i] == r2;
                        assert(prev.missing@[i] == r2);
                    } else {
                        let i = choose|i: int|
                            0 <= i < self.inflight@.len() && self.inflight@[i] == r2;
                        if i < prev.inflight@.len() {
                            assert(prev.inflight@[i] == r2);
                        } else {
                            assert(r2 == r);
                            assert(prev.missing@.last() == r2);
                        }
                    }
                };
                // well-formedness: the moved reference collides with nothing
                assert forall|p: int, q: int|
                    0 <= p < self.missing@.len() && 0 <= q < self.inflight@.len()
                    implies #[trigger] self.missing@[p] != #[trigger] self.inflight@[q] by {
                    assert(self.missing@[p] == prev.missing@[p]);
                    if q < prev.inflight@.len() {
                        assert(self.inflight@[q] == prev.inflight@[q]);
                    } else {
                        assert(self.inflight@[q] == prev.missing@.last());
                    }
                };
                assert forall|p: int, q: int| 0 <= p < q < self.inflight@.len()
                    implies #[trigger] self.inflight@[p] != #[trigger] self.inflight@[q] by {
                    if q < prev.inflight@.len() {
                        assert(self.inflight@[p] == prev.inflight@[p]);
                        assert(self.inflight@[q] == prev.inflight@[q]);
                    } else {
                        assert(self.inflight@[q] == prev.missing@.last());
                        assert(self.inflight@[p] == prev.inflight@[p]);
                        assert(prev.missing@[prev.missing@.len() - 1]
                            != prev.inflight@[p]);
                    }
                };
            }
        }
        proof {
            assert(old(self).missing@.take(old(self).missing@.len() as int)
                =~= old(self).missing@);
        }
        out
    }

    /// The block arrived (fetched, or through normal gossip, which makes an
    /// outstanding fetch redundant): retire its reference entirely.
    pub fn on_block_received(&mut self, r: &BlockRef)
        requires
            old(self).wf(),
        ensures
            final(self).wf(),
            final(self).max_inflight == old(self).max_inflight,
            !final(self).tracks(*r),
            forall|r2: BlockRef| final(self).tracks(r2) ==> old(self).tracks(r2),
            forall|r2: BlockRef| r2 != *r && old(self).tracks(r2) ==> final(self).tracks(r2),
            final(self).inflight@.len() <= old(self).inflight@.len(),
    {
        remove_ref(&mut self.missing, r);
        remove_ref(&mut self.inflight, r);
        proof {
            assert forall|p: int, q: int|
                0 <= p < self.missing@.len() && 0 <= q < self.inflight@.len()
                implies #[trigger] self.missing@[p] != #[trigger] self.inflight@[q] by {
                assert(old(self).missing@.contains(self.missing@[p]));
                assert(old(self).inflight@.contains(self.inflight@[q]));
                let pm = choose|pm: int|
                    0 <= pm < old(self).missing@.len() && old(self).missing@[pm]
                        == self.missing@[p];
                let qi = choose|qi: int|
                    0 <= qi < old(self).inflight@.len() && old(self).inflight@[qi]
                        == self.inflight@[q];
            };
        }
    }

    /// A fetch failed: requeue the reference so it is retried against
    /// another peer; nothing tracked is lost.
    pub fn on_fetch_failed(&mut self, r: &BlockRef)
        requires
            old(self).wf(),
        ensures
            final(self).wf(),
            final(self).max_inflight == old(self).max_inflight,
            !final(self).inflight@.contains(*r),
            forall|r2: BlockRef| final(self).tracks(r2) <==> old(self).tracks(r2),
            final(self).inflight@.len() <= old(self).inflight@.len(),
    {
        let was_inflight = contains_ref_vec(&self.inflight, r);
        if !was_inflight {
            return;
        }
        proof {
            // by disjointness the reference is not queued as missing
            assert(!self.missing@.contains(*r)) by {
                if self.missing@.contains(*r) {
                    let p = choose|p: int|
                        0 <= p < self.missing@.len() && self.missing@[p] == *r;
                    let q = choose|q: int|
                        0 <= q < self.inflight@.len() && self.inflight@[q] == *r;
                }
            };
        }
        let ghost pre = *self;
        remove_ref(&mut self.inflight, r);
        let ghost mid = *self;
        self.missing.push(*r);
        proof {
            assert(self.missing@ == mid.missing@.push(*r));
            assert(self.missing@.last() == *r);
            // distinctness of the queue: the reference was not queued
            assert forall|p: int, q: int| 0 <= p < q < self.missing@.len()
                implies #[trigger] self.missing@[p] != #[trigger] self.missing@[q] by {
                if q < mid.missing@.len() {
                    assert(self.missing@[p] == mid.missing@[p]);
                    assert(self.missing@[q] == mid.missing@[q]);
                } else {
                    assert(self.missing@[q] == *r);
                    assert(self.missing@[p] == mid.missing@[p]);
                    if self.missing@[p] == *r {
                        assert(mid.missing@.contains(*r));
                    }
                }
            };
            // disjointness: the reference left the in-flight set
            assert forall|p: int, q: int|
                0 <= p < self.missing@.len() && 0 <= q < self.inflight@.len()
                implies #[trigger] self.missing@[p] != #[trigger] self.inflight@[q] by {
                assert(pre.inflight@.contains(self.inflight@[q]));
                let qi = choose|qi: int|
                    0 <= qi < pre.inflight@.len() && pre.inflight@[qi] == self.inflight@[q];
                if p < mid.missing@.len() {
                    assert(self.missing@[p] == pre.missing@[p]);
                } else {
                    assert(self.missing@[p] == *r);
                    assert(!self.inflight@.contains(*r));
                    if self.inflight@[q] == *r {
                        assert(self.inflight@.contains(*r));
                    }
                }
            };
            // conservation, both directions
            assert forall|r2: BlockRef| self.tracks(r2) implies pre.tracks(r2) by {
                if self.missing@.contains(r2) {
                    let p = choose|p: int|
                        0 <= p < self.missing@.len() && self.missing@[p] == r2;
                    if p < mid.missing@.len() {
                        assert(pre.missing@[p] == r2);
                    } else {
                        assert(r2 == *r);
                        assert(pre.inflight@.contains(*r));
                    }
                } else {
                    assert(self.inflight@.contains(r2));
                }
            };
            assert forall|r2: BlockRef| pre.tracks(r2) implies self.tracks(r2) by {
                if r2 == *r {
                    assert(self.missing@.last() == r2);
                } else {
                    if pre.missing@.contains(r2) {
                        let p = choose|p: int|
                            0 <= p < pre.missing@.len() && pre.missing@[p] == r2;
                        assert(self.missing@[p] == r2);
                    } else {
                        assert(pre.inflight@.contains(r2));
                        assert(self.inflight@.contains(r2));
                    }
                }
            };
        }
    }
}

/// Remove the reference from a duplicate-free list, keeping everything
/// else in order.
fn remove_ref(v: &mut Vec<BlockRef>, r: &BlockRef)
    requires
        forall|p: int, q: int|
            0 <= p < q < old(v)@.len() ==> #[trigger] old(v)@[p] != #[trigger] old(v)@[q],
    ensures
        final(v)@.len() <= old(v)@.len(),
        !final(v)@.contains(*r),
        forall|p: int, q: int|
            0 <= p < q < final(v)@.len() ==> #[trigger] final(v)@[p] != #[trigger] final(v)@[q],
        forall|r2: BlockRef| final(v)@.contains(r2) ==> old(v)@.contains(r2),
        forall|r2: BlockRef| r2 != *r && old(v)@.contains(r2) ==> final(v)@.contains(r2),
{
    let mut out: Vec<BlockRef> = Vec::new();
    let mut i: usize = 0;
    while i < v.len()
        invariant
            0 <= i <= v@.len(),
            v@ == old(v)@,
            forall|p: int, q: int|
                0 <= p < q < old(v)@.len() ==> #[trigger] old(v)@[p] != #[trigger] old(v)@[q],
            out@.len() <= i,
            !out@.contains(*r),
            forall|p: int|
                0 <= p < out@.len() ==> exists|k: int| 0 <= k < i && old(v)@[k] == #[trigger] out@[p],
            forall|k: int|
                0 <= k < i && old(v)@[k] != *r ==> out@.contains(#[trigger] old(v)@[k]),
            forall|p: int, q: int|
                0 <= p < q < out@.len() ==> #[trigger] out@[p] != #[trigger] out@[q],
        decreases v@.len() - i,
    {
        let e = v[i];
        if !(e.author == r.author && e.round == r.round && e.digest == r.digest) {
            let ghost prev = out@;
            proof {
                assert(e == old(v)@[i as int]);
                assert(e != *r);
                // a duplicate push would name two equal entries of the
                // duplicate-free input
                assert(!prev.contains(e)) by {
                    if prev.contains(e) {
                        let p = choose|p: int| 0 <= p < prev.len() && prev[p] == e;
                        let k = choose|k: int| 0 <= k < i && old(v)@[k] == prev[p];
                        assert(old(v)@[k] == old(v)@[i as int]);
                    }
                };
            }
            out.push(e);
            proof {
                assert(out@ == prev.push(e));
                assert(out@.last() == e);
                assert forall|p: int|
                    0 <= p < out@.len() implies exists|k: int|
                        0 <= k < i + 1 && old(v)@[k] == #[trigger] out@[p] by {
                    if p < prev.len() {
                        assert(out@[p] == prev[p]);
                        let k = choose|k: int| 0 <= k < i && old(v)@[k] == prev[p];
                        assert(old(v)@[k] == out@[p]);
                    } else {
                        assert(out@[p] == old(v)@[i as int]);
                    }
                };
                assert forall|k: int|
                    0 <= k < i + 1 && old(v)@[k] != *r
                    implies out@.contains(#[trigger] old(v)@[k]) by {
                    if k < i {
                        let p = choose|p: int| 0 <= p < prev.len() && prev[p] == old(v)@[k];
                        assert(out@[p] == old(v)@[k]);
                    } else {
                        assert(out@.last() == old(v)@[k]);
                    }
                };
                assert(!out@.contains(*r)) by {
                    if out@.contains(*r) {
                        let p = choose|p: int| 0 <= p < out@.len() && out@[p] == *r;
                        if p < prev.len() {
                            assert(prev[p] == *r);
                        }
                    }
                };
                assert forall|p: int, q: int| 0 <= p < q < out@.len()
                    implies #[trigger] out@[p] != #[trigger] out@[q] by {
                    if q < prev.len() {
                        assert(out@[p] == prev[p] && out@[q] == prev[q]);
                    } else {
                        assert(out@[q] == e);
                        assert(out@[p] == prev[p]);
                        if prev[p] == e {
                            assert(prev.contains(e));
                        }
                    }
                };
            }
        } else {
            proof {
                assert(e == old(v)@[i as int]);
                assert(e == *r);
            }
        }
        i += 1;
    }
    proof {
        assert forall|r2: BlockRef| r2 != *r && old(v)@.contains(r2)
            implies out@.contains(r2) by {
            let k = choose|k: int| 0 <= k < old(v)@.len() && old(v)@[k] == r2;
        };
        assert forall|r2: BlockRef| out@.contains(r2) implies old(v)@.contains(r2) by {
            let p = choose|p: int| 0 <= p < out@.len() && out@[p] == r2;
            let k = choose|k: int| 0 <= k < old(v)@.len() && old(v)@[k] == out@[p];
        };
    }
    *v = out;
}

/// Does the list hold this reference?
fn contains_ref_vec(v: &Vec<BlockRef>, r: &BlockRef) -> (out: bool)
    ensures
        out == v@.contains(*r),
{
    let mut i: usize = 0;
    while i < v.len()
        invariant
            0 <= i <= v@.len(),
            forall|k: int| 0 <= k < i ==> v@[k] != *r,
        decreases v@.len() - i,
    {
        if v[i].author == r.author && v[i].round == r.round && v[i].digest == r.digest {
            assert(v@[i as int] == *r);
            return true;
        }
        i += 1;
    }
    false
}

} // verus!

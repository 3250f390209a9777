//! BlockManager: gatekeeper that admits verified blocks into the DAG only
//! once causally complete, holding causally incomplete blocks suspended and
//! promoting them (in topological order, transitively) when their missing
//! ancestors arrive.

use vstd::prelude::*;
use crate::types::{check_block_structure, Block, BlockRef};
use crate::dag::DagState;

verus! {

/// A verified but causally incomplete block, with the ancestors it was
/// missing when it was suspended.
#[derive(Clone, Debug)]
pub struct SuspendedBlock {
    pub block: Block,
    pub missing: Vec<BlockRef>,
}

#[derive(Clone, Copy, PartialEq, Eq, Structural, Debug)]
pub enum RejectReason {
    /// Bad signature or malformed structure; permanent.
    InvalidBlock,
    /// A second distinct block from an already-seen (author, round); permanent.
    Equivocation,
    /// Timestamp beyond the skew and maximum-wait bound; permanent.
    FutureTimestamp,
}

#[derive(Clone, Debug)]
pub enum AdmitOutcome {
    /// Admitted into the DAG; carries every reference admitted by this call
    /// (the block itself first, then cascade-unsuspended blocks, in causal
    /// order). Empty when the block was already known (idempotent no-op).
    Accepted(Vec<BlockRef>),
    /// Held until the listed ancestors arrive.
    Suspended(Vec<BlockRef>),
    /// Timestamp is ahead of the local clock by more than the allowed skew
    /// but within the maximum wait: retry after this many milliseconds.
    TryLater(u64),
    Rejected(RejectReason),
}

pub struct BlockManager {
    /// Timestamps up to this far ahead of the local clock are admitted.
    pub max_skew_ms: u64,
    /// Timestamps further ahead than this are rejected outright.
    pub max_drift_ms: u64,
    pub suspended: Vec<SuspendedBlock>,
}

/// The suspended block still misses at least one ancestor in `d`.
pub open spec fn entry_incomplete(s: SuspendedBlock, d: DagState) -> bool {
    exists|k: int|
        0 <= k < s.block.ancestors@.len() && !d.contains_ref(#[trigger] s.block.ancestors@[k])
}

/// `s` appears among the entries of `sq`.
pub open spec fn seq_has_entry(sq: Seq<SuspendedBlock>, s: SuspendedBlock) -> bool {
    exists|j: int| 0 <= j < sq.len() && #[trigger] sq[j] == s
}

/// `b` is the block of some entry of `sq`.
pub open spec fn seq_has_block(sq: Seq<SuspendedBlock>, b: Block) -> bool {
    exists|j: int| 0 <= j < sq.len() && (#[trigger] sq[j]).block == b
}

impl BlockManager {
    pub open spec fn config_ok(self) -> bool {
        self.max_skew_ms <= self.max_drift_ms
    }

    /// Some suspended entry carries exactly this reference.
    pub open spec fn ref_suspended(self, r: BlockRef) -> bool {
        exists|j: int|
            0 <= j < self.suspended@.len()
                && (#[trigger] self.suspended@[j]).block.spec_reference() == r
    }

    /// A distinct block from the same (author, round) is already seen,
    /// accepted or suspended: admitting `b` would record an equivocation.
    pub open spec fn conflicts(self, d: DagState, b: Block) -> bool {
        ||| exists|i: int|
            0 <= i < d.blocks@.len()
                && (#[trigger] d.blocks@[i]).author == b.author
                && d.blocks@[i].round == b.round
                && d.blocks@[i].spec_reference() != b.spec_reference()
        ||| exists|j: int|
            0 <= j < self.suspended@.len()
                && (#[trigger] self.suspended@[j]).block.author == b.author
                && self.suspended@[j].block.round == b.round
                && self.suspended@[j].block.spec_reference() != b.spec_reference()
    }

    /// Invariant tying the manager to the DAG it guards: every suspended
    /// block is structurally valid, collides with no accepted or suspended
    /// (author, round), and — the fixpoint property — still misses at least
    /// one ancestor, so nothing admissible is ever left suspended.
    pub open spec fn wf_core(self, d: DagState) -> bool {
        &&& self.config_ok()
        &&& forall|j: int|
            0 <= j < self.suspended@.len()
                ==> (#[trigger] self.suspended@[j]).block.structurally_valid(d.committee_size)
        &&& forall|j: int|
            0 <= j < self.suspended@.len()
                ==> !d.has_author_round(
                    (#[trigger] self.suspended@[j]).block.author,
                    self.suspended@[j].block.round,
                )
        &&& forall|i: int, j: int|
            0 <= i < j < self.suspended@.len()
                ==> !((#[trigger] self.suspended@[i]).block.author
                        == (#[trigger] self.suspended@[j]).block.author
                    && self.suspended@[i].block.round == self.suspended@[j].block.round)
    }

    /// The fixpoint property alone: every suspended block misses an ancestor.
    pub open spec fn nothing_admissible_suspended(self, d: DagState) -> bool {
        forall|j: int|
            0 <= j < self.suspended@.len()
                ==> entry_incomplete(#[trigger] self.suspended@[j], d)
    }

    pub open spec fn wf_with(self, d: DagState) -> bool {
        self.wf_core(d) && self.nothing_admissible_suspended(d)
    }

    pub fn new(max_skew_ms: u64, max_drift_ms: u64) -> (m: BlockManager)
        requires
            max_skew_ms <= max_drift_ms,
        ensures
            m.max_skew_ms == max_skew_ms,
            m.max_drift_ms == max_drift_ms,
            m.suspended@.len() == 0,
            forall|d: DagState| m.wf_with(d),
    {
        BlockManager { max_skew_ms, max_drift_ms, suspended: Vec::new() }
    }

    /// Number of blocks currently held suspended (surfaced for operator
    /// visibility; a permanently missing ancestor keeps this positive).
    pub fn suspended_count(&self) -> (n: usize)
        ensures
            n == self.suspended@.len(),
    {
        self.suspended.len()
    }
}

/// Are all of `b`'s ancestors accepted in `d`?
pub fn all_ancestors_in(d: &DagState, b: &Block) -> (out: bool)
    ensures
        out == forall|k: int|
            0 <= k < b.ancestors@.len() ==> d.contains_ref(#[trigger] b.ancestors@[k]),
{
    let mut k: usize = 0;
    while k < b.ancestors.len()
        invariant
            0 <= k <= b.ancestors@.len(),
            forall|t: int| 0 <= t < k ==> d.contains_ref(#[trigger] b.ancestors@[t]),
        decreases b.ancestors@.len() - k,
    {
        if !d.contains(&b.ancestors[k]) {
            return false;
        }
        k += 1;
    }
    true
}

/// The ancestors of `b` that `d` does not hold, in ancestor order.
pub fn compute_missing(d: &DagState, b: &Block) -> (out: Vec<BlockRef>)
    ensures
        forall|t: int|
            0 <= t < out@.len()
                ==> !d.contains_ref(#[trigger] out@[t])
                    && exists|k: int| 0 <= k < b.ancestors@.len() && b.ancestors@[k] == out@[t],
        forall|k: int|
            0 <= k < b.ancestors@.len() && !d.contains_ref(#[trigger] b.ancestors@[k])
                ==> out@.contains(b.ancestors@[k]),
        (out@.len() == 0) == (forall|k: int|
            0 <= k < b.ancestors@.len() ==> d.contains_ref(#[trigger] b.ancestors@[k])),
{
    let mut out: Vec<BlockRef> = Vec::new();
    let mut k: usize = 0;
    while k < b.ancestors.len()
        invariant
            0 <= k <= b.ancestors@.len(),
            forall|t: int|
                0 <= t < out@.len()
                    ==> !d.contains_ref(#[trigger] out@[t])
                        && exists|k2: int| 0 <= k2 < b.ancestors@.len() && b.ancestors@[k2] == out@[t],
            forall|k2: int|
                0 <= k2 < k && !d.contains_ref(#[trigger] b.ancestors@[k2])
                    ==> out@.contains(b.ancestors@[k2]),
        decreases b.ancestors@.len() - k,
    {
        if !d.contains(&b.ancestors[k]) {
            let ghost prev = out@;
            out.push(b.ancestors[k]);
            proof {
                assert(out@.last() == b.ancestors@[k as int]);
                assert forall|k2: int|
                    0 <= k2 < k + 1 && !d.contains_ref(#[trigger] b.ancestors@[k2])
                    implies out@.contains(b.ancestors@[k2]) by {
                    if k2 < k {
                        let t = choose|t: int| 0 <= t < prev.len() && prev[t] == b.ancestors@[k2];
                        assert(out@[t] == b.ancestors@[k2]);
                    } else {
                        assert(out@[out@.len() - 1] == b.ancestors@[k2]);
                    }
                };
            }
        }
        k += 1;
    }
    if out.len() == 0 {
        proof {
            assert forall|k2: int|
                0 <= k2 < b.ancestors@.len() implies d.contains_ref(#[trigger] b.ancestors@[k2]) by {
                if !d.contains_ref(b.ancestors@[k2]) {
                    assert(out@.contains(b.ancestors@[k2]));
                }
            };
        }
    } else {
        proof {
            assert(!d.contains_ref(out@[0]));
            let k2 = choose|k2: int| 0 <= k2 < b.ancestors@.len() && b.ancestors@[k2] == out@[0];
            assert(!(forall|k3: int|
                0 <= k3 < b.ancestors@.len() ==> d.contains_ref(#[trigger] b.ancestors@[k3])));
        }
    }
    out
}

impl BlockManager {
    /// Index of some suspended block all of whose ancestors are now
    /// accepted, if any.
    fn find_ready(&self, d: &DagState) -> (out: Option<usize>)
        ensures
            match out {
                Some(j) => 0 <= j < self.suspended@.len()
                    && forall|k: int|
                        0 <= k < self.suspended@[j as int].block.ancestors@.len()
                            ==> d.contains_ref(#[trigger] self.suspended@[j as int].block.ancestors@[k]),
                None => self.nothing_admissible_suspended(*d),
            },
    {
        let mut j: usize = 0;
        while j < self.suspended.len()
            invariant
                0 <= j <= self.suspended@.len(),
                forall|j2: int|
                    0 <= j2 < j ==> entry_incomplete(#[trigger] self.suspended@[j2], *d),
            decreases self.suspended@.len() - j,
        {
            let entry = &self.suspended[j];
            let missing = compute_missing(d, &entry.block);
            if missing.len() == 0 {
                assert(*entry == self.suspended@[j as int]);
                return Some(j);
            }
            proof {
                assert(!d.contains_ref(missing@[0]));
                let k = choose|k: int|
                    0 <= k < entry.block.ancestors@.len() && entry.block.ancestors@[k] == missing@[0];
                assert(!d.contains_ref(self.suspended@[j as int].block.ancestors@[k]));
                assert(entry_incomplete(self.suspended@[j as int], *d));
            }
            j += 1;
        }
        None
    }

    /// Admit a causally complete block into the DAG and promote, in
    /// topological order, every suspended block this transitively resolves.
    /// Returns the admitted references in admission order, `b` first.
    pub(crate) fn accept_and_unsuspend(&mut self, d: &mut DagState, b: Block) -> (admitted: Vec<
        BlockRef,
    >)
        requires
            old(self).wf_with(*old(d)),
            old(d).wf(),
            b.structurally_valid(old(d).committee_size),
            forall|k: int|
                0 <= k < b.ancestors@.len() ==> old(d).contains_ref(#[trigger] b.ancestors@[k]),
            !old(d).has_author_round(b.author, b.round),
            forall|j: int|
                0 <= j < old(self).suspended@.len()
                    ==> !((#[trigger] old(self).suspended@[j]).block.author == b.author
                        && old(self).suspended@[j].block.round == b.round),
        ensures
            final(self).wf_with(*final(d)),
            final(d).wf(),
            final(d).committee_size == old(d).committee_size,
            final(self).max_skew_ms == old(self).max_skew_ms,
            final(self).max_drift_ms == old(self).max_drift_ms,
            forall|r: BlockRef| old(d).contains_ref(r) ==> final(d).contains_ref(r),
            final(d).contains_ref(b.spec_reference()),
            admitted@.len() >= 1,
            admitted@[0] == b.spec_reference(),
            forall|t: int|
                0 <= t < admitted@.len()
                    ==> final(d).contains_ref(#[trigger] admitted@[t])
                        && !old(d).contains_ref(admitted@[t]),
            old(d).blocks@.len() < final(d).blocks@.len(),
            forall|i: int|
                0 <= i < old(d).blocks@.len() ==> final(d).blocks@[i] == old(d).blocks@[i],
            forall|i: int|
                old(d).blocks@.len() <= i < final(d).blocks@.len()
                    ==> #[trigger] final(d).blocks@[i] == b
                        || seq_has_block(old(self).suspended@, final(d).blocks@[i]),
            forall|j: int|
                0 <= j < final(self).suspended@.len()
                    ==> seq_has_entry(old(self).suspended@, #[trigger] final(self).suspended@[j]),
            // completeness: no suspended block is dropped — each either
            // stays suspended or was admitted into the DAG
            forall|j: int|
                0 <= j < old(self).suspended@.len()
                    ==> seq_has_entry(
                        final(self).suspended@,
                        #[trigger] old(self).suspended@[j],
                    ) || final(d).contains_ref(old(self).suspended@[j].block.spec_reference()),
    {
        let r0 = b.reference();
        proof {
            assert forall|i: int|
                0 <= i < d.blocks@.len() && (#[trigger] d.blocks@[i]).author == b.author
                    && d.blocks@[i].round == b.round
                implies d.blocks@[i].spec_reference() == b.spec_reference() by {
                assert(d.has_author_round(b.author, b.round));
            };
            assert(!old(d).contains_ref(b.spec_reference())) by {
                if old(d).contains_ref(b.spec_reference()) {
                    let i = choose|i: int|
                        0 <= i < old(d).blocks@.len()
                            && (#[trigger] old(d).blocks@[i]).spec_reference() == b.spec_reference();
                    assert(old(d).has_author_round(b.author, b.round));
                }
            };
        }
        d.insert(b);
        let mut admitted: Vec<BlockRef> = Vec::new();
        admitted.push(r0);
        proof {
            assert forall|j: int| 0 <= j < self.suspended@.len()
                implies seq_has_entry(old(self).suspended@, #[trigger] self.suspended@[j]) by {
                assert(old(self).suspended@[j] == self.suspended@[j]);
            };
            assert forall|j: int| 0 <= j < old(self).suspended@.len()
                implies seq_has_entry(self.suspended@, #[trigger] old(self).suspended@[j]) by {
                assert(self.suspended@[j] == old(self).suspended@[j]);
            };
        }
        loop
            invariant
                d.wf(),
                d.committee_size == old(d).committee_size,
                self.wf_core(*d),
                self.max_skew_ms == old(self).max_skew_ms,
                self.max_drift_ms == old(self).max_drift_ms,
                forall|r: BlockRef| old(d).contains_ref(r) ==> d.contains_ref(r),
                d.contains_ref(b.spec_reference()),
                admitted@.len() >= 1,
                admitted@[0] == b.spec_reference(),
                forall|t: int|
                    0 <= t < admitted@.len()
                        ==> d.contains_ref(#[trigger] admitted@[t])
                            && !old(d).contains_ref(admitted@[t]),
                old(d).blocks@.len() < d.blocks@.len(),
                forall|i: int|
                    0 <= i < old(d).blocks@.len() ==> d.blocks@[i] == old(d).blocks@[i],
                forall|i: int|
                    old(d).blocks@.len() <= i < d.blocks@.len()
                        ==> #[trigger] d.blocks@[i] == b
                            || seq_has_block(old(self).suspended@, d.blocks@[i]),
                forall|j: int|
                    0 <= j < self.suspended@.len()
                        ==> seq_has_entry(old(self).suspended@, #[trigger] self.suspended@[j]),
                forall|j: int|
                    0 <= j < old(self).suspended@.len()
                        ==> seq_has_entry(self.suspended@, #[trigger] old(self).suspended@[j])
                            || d.contains_ref(old(self).suspended@[j].block.spec_reference()),
            ensures
                self.nothing_admissible_suspended(*d),
                forall|j: int|
                    0 <= j < old(self).suspended@.len()
                        ==> seq_has_entry(self.suspended@, #[trigger] old(self).suspended@[j])
                            || d.contains_ref(old(self).suspended@[j].block.spec_reference()),
            decreases self.suspended@.len(),
        {
            let ready = self.find_ready(d);
            match ready {
                None => {
                    break;
                },
                Some(j) => {
                    let ghost prev_susp = self.suspended@;
                    let ghost prev_dag = d.blocks@;
                    let entry = self.suspended.remove(j);
                    proof {
                        assert(self.suspended@ == prev_susp.remove(j as int));
                        prev_susp.remove_ensures(j as int);
                        assert(entry == prev_susp[j as int]);
                        assert forall|j2: int| 0 <= j2 < self.suspended@.len()
                            implies seq_has_entry(old(self).suspended@, #[trigger] self.suspended@[j2]) by {
                            if j2 < j {
                                assert(self.suspended@[j2] == prev_susp[j2]);
                                assert(seq_has_entry(old(self).suspended@, prev_susp[j2]));
                            } else {
                                assert(self.suspended@[j2] == prev_susp[j2 + 1]);
                                assert(seq_has_entry(old(self).suspended@, prev_susp[j2 + 1]));
                            }
                        };
                        // no stored block shares (author, round) with the promoted one
                        assert forall|i: int|
                            0 <= i < d.blocks@.len()
                                && (#[trigger] d.blocks@[i]).author == entry.block.author
                                && d.blocks@[i].round == entry.block.round
                            implies d.blocks@[i].spec_reference() == entry.block.spec_reference() by {
                            assert(d.has_author_round(entry.block.author, entry.block.round));
                        };
                        assert(!d.contains_ref(entry.block.spec_reference())) by {
                            if d.contains_ref(entry.block.spec_reference()) {
                                let i = choose|i: int|
                                    0 <= i < d.blocks@.len()
                                        && (#[trigger] d.blocks@[i]).spec_reference()
                                            == entry.block.spec_reference();
                                assert(d.has_author_round(entry.block.author, entry.block.round));
                            }
                        };
                    }
                    let ghost pre_insert = *d;
                    let ghost prev_adm = admitted@;
                    let rr = entry.block.reference();
                    d.insert(entry.block);
                    admitted.push(rr);
                    proof {
                        assert(d.blocks@ == prev_dag.push(prev_susp[j as int].block));
                        // provenance of the promoted block
                        assert(seq_has_entry(old(self).suspended@, prev_susp[j as int]));
                        let j3 = choose|j3: int|
                            0 <= j3 < old(self).suspended@.len()
                                && #[trigger] old(self).suspended@[j3] == prev_susp[j as int];
                        assert(old(self).suspended@[j3].block == prev_susp[j as int].block);
                        assert(seq_has_block(old(self).suspended@, prev_susp[j as int].block));
                        // wf_core is preserved: the promoted (author, round) left
                        // the suspended list, and the others are distinct from it
                        assert forall|j2: int| 0 <= j2 < self.suspended@.len()
                            implies (#[trigger] self.suspended@[j2]).block.structurally_valid(
                                d.committee_size,
                            ) && !d.has_author_round(
                                self.suspended@[j2].block.author,
                                self.suspended@[j2].block.round,
                            ) by {
                            let orig2: int = if j2 < j { j2 } else { j2 + 1 };
                            assert(self.suspended@[j2] == prev_susp[orig2]);
                            if d.has_author_round(self.suspended@[j2].block.author, self.suspended@[j2].block.round) {
                                let i = choose|i: int|
                                    0 <= i < d.blocks@.len()
                                        && (#[trigger] d.blocks@[i]).author == self.suspended@[j2].block.author
                                        && d.blocks@[i].round == self.suspended@[j2].block.round;
                                if i < prev_dag.len() {
                                    assert(pre_insert.has_author_round(
                                        self.suspended@[j2].block.author,
                                        self.suspended@[j2].block.round,
                                    ));
                                } else {
                                    // the newly inserted block is the promoted entry,
                                    // whose (author, round) differs from every remaining one
                                    assert(d.blocks@[i] == prev_susp[j as int].block);
                                    assert(prev_susp[orig2].block.author != prev_susp[j as int].block.author
                                        || prev_susp[orig2].block.round != prev_susp[j as int].block.round);
                                }
                            }
                        };
                        assert forall|i2: int, j2: int| 0 <= i2 < j2 < self.suspended@.len()
                            implies !((#[trigger] self.suspended@[i2]).block.author
                                    == (#[trigger] self.suspended@[j2]).block.author
                                && self.suspended@[i2].block.round == self.suspended@[j2].block.round) by {
                            let oi: int = if i2 < j { i2 } else { i2 + 1 };
                            let oj: int = if j2 < j { j2 } else { j2 + 1 };
                            assert(self.suspended@[i2] == prev_susp[oi]);
                            assert(self.suspended@[j2] == prev_susp[oj]);
                        };
                        assert forall|t: int|
                            0 <= t < admitted@.len()
                            implies d.contains_ref(#[trigger] admitted@[t])
                                && !old(d).contains_ref(admitted@[t]) by {
                            if t < admitted@.len() - 1 {
                                assert(admitted@[t] == prev_adm[t]);
                                assert(pre_insert.contains_ref(admitted@[t]));
                            } else {
                                assert(admitted@[t] == prev_susp[j as int].block.spec_reference());
                                assert(!pre_insert.contains_ref(admitted@[t]));
                                if old(d).contains_ref(admitted@[t]) {
                                    assert(pre_insert.contains_ref(admitted@[t]));
                                }
                            }
                        };
                        assert forall|i: int|
                            old(d).blocks@.len() <= i < d.blocks@.len()
                            implies #[trigger] d.blocks@[i] == b
                                || seq_has_block(old(self).suspended@, d.blocks@[i]) by {
                            if i < prev_dag.len() {
                                assert(d.blocks@[i] == prev_dag[i]);
                            } else {
                                assert(d.blocks@[i] == prev_susp[j as int].block);
                            }
                        };
                        // completeness: each old suspended entry is still
                        // suspended or now admitted
                        assert forall|j2: int|
                            0 <= j2 < old(self).suspended@.len()
                            implies seq_has_entry(
                                self.suspended@,
                                #[trigger] old(self).suspended@[j2],
                            ) || d.contains_ref(
                                old(self).suspended@[j2].block.spec_reference(),
                            ) by {
                            let e = old(self).suspended@[j2];
                            if pre_insert.contains_ref(e.block.spec_reference()) {
                                assert(d.contains_ref(e.block.spec_reference()));
                            } else if seq_has_entry(prev_susp, e) {
                                let j3 = choose|j3: int|
                                    0 <= j3 < prev_susp.len() && #[trigger] prev_susp[j3] == e;
                                if j3 == j {
                                    assert(e.block == prev_susp[j as int].block);
                                    assert(d.contains_ref(e.block.spec_reference()));
                                } else if j3 < j {
                                    assert(self.suspended@[j3] == prev_susp[j3]);
                                    assert(seq_has_entry(self.suspended@, e));
                                } else {
                                    assert(self.suspended@[j3 - 1] == prev_susp[j3]);
                                    assert(seq_has_entry(self.suspended@, e));
                                }
                            }
                        };
                    }
                },
            }
        }
        admitted
    }
}

/// Copy a list of references.
fn copy_refs(v: &Vec<BlockRef>) -> (out: Vec<BlockRef>)
    ensures
        out@ == v@,
{
    let mut out: Vec<BlockRef> = Vec::new();
    let mut i: usize = 0;
    while i < v.len()
        invariant
            0 <= i <= v@.len(),
            out@ == v@.take(i as int),
        decreases v@.len() - i,
    {
        out.push(v[i]);
        proof {
            assert(out@ =~= v@.take(i + 1));
        }
        i += 1;
    }
    proof {
        assert(out@ =~= v@);
    }
    out
}

impl BlockManager {
    /// Does some suspended block equivocate with `b`?
    fn suspended_conflict(&self, b: &Block) -> (out: bool)
        ensures
            out == exists|j: int|
                0 <= j < self.suspended@.len()
                    && (#[trigger] self.suspended@[j]).block.author == b.author
                    && self.suspended@[j].block.round == b.round
                    && self.suspended@[j].block.spec_reference() != b.spec_reference(),
    {
        let mut j: usize = 0;
        while j < self.suspended.len()
            invariant
                0 <= j <= self.suspended@.len(),
                forall|j2: int|
                    0 <= j2 < j
                        ==> !((#[trigger] self.suspended@[j2]).block.author == b.author
                            && self.suspended@[j2].block.round == b.round
                            && self.suspended@[j2].block.spec_reference() != b.spec_reference()),
            decreases self.suspended@.len() - j,
        {
            let s = &self.suspended[j];
            if s.block.author == b.author && s.block.round == b.round && s.block.digest != b.digest {
                assert(self.suspended@[j as int].block.spec_reference() != b.spec_reference());
                return true;
            }
            proof {
                if self.suspended@[j as int].block.author == b.author
                    && self.suspended@[j as int].block.round == b.round {
                    assert(self.suspended@[j as int].block.spec_reference() == b.spec_reference());
                }
            }
            j += 1;
        }
        false
    }

    /// Is some suspended block from this author at this round?
    pub fn suspended_collides(&self, a: u64, r: u64) -> (out: bool)
        ensures
            out == exists|j: int|
                0 <= j < self.suspended@.len()
                    && (#[trigger] self.suspended@[j]).block.author == a
                    && self.suspended@[j].block.round == r,
    {
        let mut j: usize = 0;
        while j < self.suspended.len()
            invariant
                0 <= j <= self.suspended@.len(),
                forall|j2: int|
                    0 <= j2 < j
                        ==> !((#[trigger] self.suspended@[j2]).block.author == a
                            && self.suspended@[j2].block.round == r),
            decreases self.suspended@.len() - j,
        {
            let s = &self.suspended[j];
            if s.block.author == a && s.block.round == r {
                return true;
            }
            j += 1;
        }
        false
    }

    /// Index of the suspended entry carrying exactly this reference, if any.
    fn find_suspended(&self, r: &BlockRef) -> (out: Option<usize>)
        ensures
            match out {
                Some(j) => 0 <= j < self.suspended@.len()
                    && self.suspended@[j as int].block.spec_reference() == *r,
                None => !self.ref_suspended(*r),
            },
    {
        let mut j: usize = 0;
        while j < self.suspended.len()
            invariant
                0 <= j <= self.suspended@.len(),
                forall|j2: int|
                    0 <= j2 < j
                        ==> (#[trigger] self.suspended@[j2]).block.spec_reference() != *r,
            decreases self.suspended@.len() - j,
        {
            let s = &self.suspended[j];
            if s.block.author == r.author && s.block.round == r.round && s.block.digest == r.digest {
                assert(self.suspended@[j as int].block.spec_reference() == *r);
                return Some(j);
            }
            j += 1;
        }
        None
    }

    /// Admit a verified block: reject invalid, equivocating or far-future
    /// blocks, delay near-future ones, suspend causally incomplete ones,
    /// and otherwise accept it together with every suspended block this
    /// transitively resolves. Validation and safety failures never escape
    /// as panics: every disposition is an explicit outcome.
    pub fn try_admit(&mut self, d: &mut DagState, b: Block, sig_valid: bool, now_ms: u64) -> (out:
        AdmitOutcome)
        requires
            old(self).wf_with(*old(d)),
            old(d).wf(),
        ensures
            final(d).wf(),
            final(self).wf_with(*final(d)),
            final(d).committee_size == old(d).committee_size,
            final(self).max_skew_ms == old(self).max_skew_ms,
            final(self).max_drift_ms == old(self).max_drift_ms,
            forall|r: BlockRef| old(d).contains_ref(r) ==> final(d).contains_ref(r),
            match out {
                AdmitOutcome::Rejected(reason) => final(d).blocks@ == old(d).blocks@
                    && final(self).suspended@ == old(self).suspended@
                    && match reason {
                    RejectReason::InvalidBlock => !(sig_valid && b.structurally_valid(
                        old(d).committee_size,
                    )),
                    RejectReason::FutureTimestamp => sig_valid && b.structurally_valid(
                        old(d).committee_size,
                    ) && b.timestamp_ms > now_ms + old(self).max_drift_ms,
                    RejectReason::Equivocation => sig_valid && b.structurally_valid(
                        old(d).committee_size,
                    ) && b.timestamp_ms <= now_ms + old(self).max_skew_ms && old(self).conflicts(
                        *old(d),
                        b,
                    ),
                },
                AdmitOutcome::TryLater(wait_ms) => final(d).blocks@ == old(d).blocks@
                    && final(self).suspended@ == old(self).suspended@
                    && sig_valid && b.structurally_valid(old(d).committee_size)
                    && b.timestamp_ms > now_ms + old(self).max_skew_ms
                    && b.timestamp_ms <= now_ms + old(self).max_drift_ms
                    && wait_ms == b.timestamp_ms - now_ms - old(self).max_skew_ms,
                AdmitOutcome::Accepted(list) => sig_valid && b.structurally_valid(
                    old(d).committee_size,
                ) && b.timestamp_ms <= now_ms + old(self).max_skew_ms && !old(self).conflicts(
                    *old(d),
                    b,
                ) && if old(d).contains_ref(b.spec_reference()) {
                    // idempotent no-op on an already-known reference
                    final(d).blocks@ == old(d).blocks@
                        && final(self).suspended@ == old(self).suspended@
                        && list@.len() == 0
                } else {
                    &&& forall|k: int|
                        0 <= k < b.ancestors@.len() ==> old(d).contains_ref(
                            #[trigger] b.ancestors@[k],
                        )
                    &&& final(d).contains_ref(b.spec_reference())
                    &&& list@.len() >= 1
                    &&& list@[0] == b.spec_reference()
                    &&& forall|t: int|
                        0 <= t < list@.len() ==> final(d).contains_ref(#[trigger] list@[t])
                            && !old(d).contains_ref(list@[t])
                    &&& forall|i: int|
                        0 <= i < old(d).blocks@.len() ==> final(d).blocks@[i] == old(d).blocks@[i]
                    &&& forall|i: int|
                        old(d).blocks@.len() <= i < final(d).blocks@.len()
                            ==> #[trigger] final(d).blocks@[i] == b
                                || seq_has_block(old(self).suspended@, final(d).blocks@[i])
                    &&& forall|j: int|
                        0 <= j < final(self).suspended@.len() ==> seq_has_entry(
                            old(self).suspended@,
                            #[trigger] final(self).suspended@[j],
                        )
                    // completeness: no suspended block is dropped — each
                    // either stays suspended or was admitted into the DAG
                    &&& forall|j: int|
                        0 <= j < old(self).suspended@.len() ==> seq_has_entry(
                            final(self).suspended@,
                            #[trigger] old(self).suspended@[j],
                        ) || final(d).contains_ref(
                            old(self).suspended@[j].block.spec_reference(),
                        )
                },
                AdmitOutcome::Suspended(m) => sig_valid && b.structurally_valid(
                    old(d).committee_size,
                ) && b.timestamp_ms <= now_ms + old(self).max_skew_ms && !old(self).conflicts(
                    *old(d),
                    b,
                ) && !old(d).contains_ref(b.spec_reference())
                    && final(d).blocks@ == old(d).blocks@
                    && m@.len() >= 1
                    && (forall|t: int| 0 <= t < m@.len() ==> !final(d).contains_ref(#[trigger] m@[t]))
                    && if old(self).ref_suspended(b.spec_reference()) {
                    // idempotent repeat of a suspended block
                    final(self).suspended@ == old(self).suspended@
                } else {
                    &&& forall|t: int|
                        0 <= t < m@.len() ==> exists|k: int|
                            0 <= k < b.ancestors@.len() && b.ancestors@[k] == #[trigger] m@[t]
                    &&& forall|k: int|
                        0 <= k < b.ancestors@.len() && !old(d).contains_ref(
                            #[trigger] b.ancestors@[k],
                        ) ==> m@.contains(b.ancestors@[k])
                    &&& final(self).suspended@.len() == old(self).suspended@.len() + 1
                    &&& forall|j: int|
                        0 <= j < old(self).suspended@.len()
                            ==> #[trigger] final(self).suspended@[j] == old(self).suspended@[j]
                    &&& final(self).suspended@.last().block == b
                },
            },
    {
        let n = d.committee_size;
        if !sig_valid || !check_block_structure(&b, n) {
            return AdmitOutcome::Rejected(RejectReason::InvalidBlock);
        }
        if b.timestamp_ms > now_ms {
            let ahead = b.timestamp_ms - now_ms;
            if ahead > self.max_drift_ms {
                return AdmitOutcome::Rejected(RejectReason::FutureTimestamp);
            }
            if ahead > self.max_skew_ms {
                return AdmitOutcome::TryLater(ahead - self.max_skew_ms);
            }
        }
        let r0 = b.reference();
        if d.conflicts_with(&r0) || self.suspended_conflict(&b) {
            return AdmitOutcome::Rejected(RejectReason::Equivocation);
        }
        if d.contains(&r0) {
            return AdmitOutcome::Accepted(Vec::new());
        }
        match self.find_suspended(&r0) {
            Some(j) => {
                // the same block is already suspended: recompute what it is
                // still missing, without changing any state
                let m = compute_missing(d, &self.suspended[j].block);
                proof {
                    assert(entry_incomplete(self.suspended@[j as int], *d));
                    let k = choose|k: int|
                        0 <= k < self.suspended@[j as int].block.ancestors@.len()
                            && !d.contains_ref(
                            #[trigger] self.suspended@[j as int].block.ancestors@[k],
                        );
                    assert(m@.contains(self.suspended@[j as int].block.ancestors@[k]));
                }
                return AdmitOutcome::Suspended(m);
            },
            None => {},
        }
        let missing = compute_missing(d, &b);
        if missing.len() > 0 {
            let out = copy_refs(&missing);
            proof {
                // the new entry collides with no accepted or suspended
                // (author, round): both were just checked
                assert forall|i: int|
                    0 <= i < d.blocks@.len() implies !((#[trigger] d.blocks@[i]).author == b.author
                        && d.blocks@[i].round == b.round) by {
                    if d.blocks@[i].author == b.author && d.blocks@[i].round == b.round {
                        if d.blocks@[i].spec_reference() == b.spec_reference() {
                            assert(d.contains_ref(b.spec_reference()));
                        }
                    }
                };
            }
            let ghost prev_susp = self.suspended@;
            self.suspended.push(SuspendedBlock { block: b, missing });
            proof {
                assert(self.suspended@.last().block == b);
                assert forall|j: int| 0 <= j < self.suspended@.len()
                    implies entry_incomplete(#[trigger] self.suspended@[j], *d) by {
                    if j < prev_susp.len() {
                        assert(self.suspended@[j] == prev_susp[j]);
                        assert(entry_incomplete(prev_susp[j], *d));
                    } else {
                        assert(self.suspended@[j].block == b);
                        let k = choose|k: int|
                            0 <= k < b.ancestors@.len() && b.ancestors@[k] == out@[0];
                        assert(!d.contains_ref(self.suspended@[j].block.ancestors@[k]));
                    }
                };
            }
            return AdmitOutcome::Suspended(out);
        }
        proof {
            assert(!d.has_author_round(b.author, b.round)) by {
                if d.has_author_round(b.author, b.round) {
                    let i = choose|i: int|
                        0 <= i < d.blocks@.len() && (#[trigger] d.blocks@[i]).author == b.author
                            && d.blocks@[i].round == b.round;
                    if d.blocks@[i].spec_reference() == b.spec_reference() {
                        assert(d.contains_ref(b.spec_reference()));
                    }
                }
            };
        }
        let list = self.accept_and_unsuspend(d, b);
        AdmitOutcome::Accepted(list)
    }
}

} // verus!

//! Core: the single-writer consensus authority. It owns the DAG and the
//! block manager, advances the threshold clock on quorums, proposes blocks,
//! elects round leaders by a fixed reproducible rule, and runs the
//! direct/indirect commit rule that linearizes the DAG into a contiguous,
//! pairwise-disjoint sequence of commits.

use vstd::prelude::*;
use crate::types::{AuthorityIndex, Block, BlockRef, Commit, Round};
use crate::dag::{count_at_round, lemma_count_at_round_witness, DagState};
use crate::block_manager::{AdmitOutcome, BlockManager};
use crate::linearizer::{collect_sub_dag, lemma_push_contains, refs_contain, refs_distinct};

verus! {

/// Votes needed for a quorum: 2f+1 out of n = 3f+1 members, tolerating f
/// Byzantine authorities.
pub open spec fn quorum_threshold(n: u64) -> int {
    2 * (((n - 1) as int) / 3) + 1
}

pub fn quorum(n: u64) -> (q: u64)
    requires
        n >= 1,
    ensures
        q == quorum_threshold(n),
        q >= 1,
{
    let f = (n - 1) / 3;
    proof {
        assert(f <= (n - 1) as int) by {
            vstd::arithmetic::div_mod::lemma_div_is_ordered_by_denominator(
                (n - 1) as int,
                1,
                3,
            );
        };
    }
    2 * f + 1
}

/// The round's leader: a deterministic, committee-reproducible round-robin
/// rule, so every honest node converges on the same candidate.
pub open spec fn leader_spec(round: Round, n: u64) -> AuthorityIndex
    recommends
        n >= 1,
{
    round % n
}

pub fn leader_of(round: Round, n: u64) -> (a: AuthorityIndex)
    requires
        n >= 1,
    ensures
        a == leader_spec(round, n),
        a < n,
{
    round % n
}

/// Number of blocks at round `r` in `s` that cite `lref` as an ancestor:
/// the votes supporting a leader at round `r - 1`.
pub open spec fn count_votes(s: Seq<Block>, lref: BlockRef, r: Round) -> nat
    decreases s.len(),
{
    if s.len() == 0 {
        0
    } else {
        count_votes(s.drop_last(), lref, r) + if s.last().round == r
            && s.last().ancestors@.contains(lref) {
            1nat
        } else {
            0nat
        }
    }
}

/// Count the round-`r` blocks citing `lref` as an ancestor.
pub fn tally_votes(d: &DagState, lref: &BlockRef, r: Round) -> (c: u64)
    ensures
        c == count_votes(d.blocks@, *lref, r),
{
    let mut i: usize = 0;
    let mut c: u64 = 0;
    while i < d.blocks.len()
        invariant
            0 <= i <= d.blocks@.len(),
            c <= i,
            c == count_votes(d.blocks@.take(i as int), *lref, r),
        decreases d.blocks@.len() - i,
    {
        proof {
            assert(d.blocks@.take(i + 1).drop_last() =~= d.blocks@.take(i as int));
            assert(d.blocks@.take(i + 1).last() == d.blocks@[i as int]);
        }
        if d.blocks[i].round == r && refs_contain(&d.blocks[i].ancestors, lref) {
            c += 1;
        }
        i += 1;
    }
    proof {
        assert(d.blocks@.take(d.blocks@.len() as int) =~= d.blocks@);
    }
    c
}

/// No reference appears in both sequences.
pub open spec fn refs_disjoint(a: Seq<BlockRef>, b: Seq<BlockRef>) -> bool {
    forall|p: int, q: int|
        0 <= p < a.len() && 0 <= q < b.len() ==> #[trigger] a[p] != #[trigger] b[q]
}

/// What the DAG records after a proposal: the old blocks unchanged, every
/// new block either the proposal itself or a promoted suspended block, and
/// the proposal present, citing per `cites_highest` against the pre-state.
/// Kept opaque; `lemma_proposal_records` establishes it.
#[verifier::opaque]
pub open spec fn proposal_records(pre: Core, post: Core, reference: BlockRef, limit: Round) -> bool {
    &&& forall|i: int|
        0 <= i < pre.dag.blocks@.len() ==> #[trigger] post.dag.blocks@[i] == pre.dag.blocks@[i]
    &&& forall|i: int|
        pre.dag.blocks@.len() <= i < post.dag.blocks@.len()
            ==> (#[trigger] post.dag.blocks@[i]).spec_reference() == reference
                || crate::block_manager::seq_has_block(
                pre.block_manager.suspended@,
                post.dag.blocks@[i],
            )
    &&& exists|i: int|
        0 <= i < post.dag.blocks@.len() && (#[trigger] post.dag.blocks@[i]).spec_reference()
            == reference && cites_highest(pre.dag, limit, post.dag.blocks@[i].ancestors@)
}

pub proof fn lemma_proposal_records(
    pre: Core,
    post: Core,
    reference: BlockRef,
    limit: Round,
    block: Block,
)
    requires
        block.spec_reference() == reference,
        cites_highest(pre.dag, limit, block.ancestors@),
        post.dag.contains_ref(reference),
        forall|i: int|
            0 <= i < pre.dag.blocks@.len()
                ==> #[trigger] post.dag.blocks@[i] == pre.dag.blocks@[i],
        forall|i: int|
            pre.dag.blocks@.len() <= i < post.dag.blocks@.len()
                ==> #[trigger] post.dag.blocks@[i] == block
                    || crate::block_manager::seq_has_block(
                    pre.block_manager.suspended@,
                    post.dag.blocks@[i],
                ),
        forall|i: int|
            0 <= i < post.dag.blocks@.len()
                && (#[trigger] post.dag.blocks@[i]).spec_reference() == reference
                ==> post.dag.blocks@[i] == block,
    ensures
        proposal_records(pre, post, reference, limit),
{
    reveal(proposal_records);
    let i0 = choose|i: int|
        0 <= i < post.dag.blocks@.len() && (#[trigger] post.dag.blocks@[i]).spec_reference()
            == reference;
    assert(post.dag.blocks@[i0] == block);
    assert(cites_highest(pre.dag, limit, post.dag.blocks@[i0].ancestors@));
}

/// A proposal produced by Core: the reference of the newly accepted local
/// block (the block itself is in the DAG), marked when it was forced by the
/// leader timeout rather than backed by a full quorum of prior-round blocks.
#[derive(Clone, Copy, PartialEq, Eq, Structural, Debug)]
pub struct Proposal {
    pub reference: BlockRef,
    pub forced: bool,
}

pub struct Core {
    pub own_index: AuthorityIndex,
    pub dag: DagState,
    pub block_manager: BlockManager,
    /// The threshold clock: the round this authority currently works in.
    pub current_round: Round,
    /// The full linearized history produced so far, in commit order.
    pub commits: Vec<Commit>,
    /// Union of all committed sub-DAGs, the "already ordered" set.
    pub committed: Vec<BlockRef>,
    /// Round of the last committed leader.
    pub last_leader_round: Round,
}

/// The ancestor-selection rule: `anc` cites, for every authority with an
/// accepted block strictly below `limit`, that authority's highest such
/// block, and nothing else. Kept opaque so that contracts can carry it as
/// one fact; `gather_highest_ancestors` establishes it.
#[verifier::opaque]
pub open spec fn cites_highest(d: DagState, limit: Round, anc: Seq<BlockRef>) -> bool {
    &&& forall|k: int|
        0 <= k < anc.len()
            ==> d.contains_ref(#[trigger] anc[k]) && anc[k].round < limit && anc[k].author
                < d.committee_size
    &&& forall|k: int, i: int|
        0 <= k < anc.len() && 0 <= i < d.blocks@.len()
            && (#[trigger] d.blocks@[i]).author == (#[trigger] anc[k]).author
            && d.blocks@[i].round < limit ==> d.blocks@[i].round <= anc[k].round
    &&& forall|i: int|
        0 <= i < d.blocks@.len() && (#[trigger] d.blocks@[i]).round < limit
            ==> exists|k: int| 0 <= k < anc.len() && (#[trigger] anc[k]).author
                == d.blocks@[i].author
}

/// The highest accepted block of each authority strictly below `limit`,
/// one reference per authority that has any, authors ascending.
pub fn gather_highest_ancestors(d: &DagState, limit: Round) -> (anc: Vec<BlockRef>)
    requires
        d.wf(),
    ensures
        cites_highest(*d, limit, anc@),
        forall|k: int|
            0 <= k < anc@.len()
                ==> d.contains_ref(#[trigger] anc@[k]) && anc@[k].round < limit
                    && anc@[k].author < d.committee_size,
        forall|p2: int, q2: int|
            0 <= p2 < q2 < anc@.len()
                ==> (#[trigger] anc@[p2]).author < (#[trigger] anc@[q2]).author,
        forall|k: int, i: int|
            0 <= k < anc@.len() && 0 <= i < d.blocks@.len()
                && (#[trigger] d.blocks@[i]).author == (#[trigger] anc@[k]).author
                && d.blocks@[i].round < limit
                ==> d.blocks@[i].round <= anc@[k].round,
        forall|i: int|
            0 <= i < d.blocks@.len() && (#[trigger] d.blocks@[i]).round < limit
                ==> exists|k: int|
                    0 <= k < anc@.len() && (#[trigger] anc@[k]).author == d.blocks@[i].author,
{
    let n = d.committee_size;
    let mut ancestors: Vec<BlockRef> = Vec::new();
    let mut a: u64 = 0;
    while a < n
        invariant
            d.wf(),
            n == d.committee_size,
            a <= n,
            forall|k: int|
                0 <= k < ancestors@.len()
                    ==> d.contains_ref(#[trigger] ancestors@[k]) && ancestors@[k].round < limit
                        && ancestors@[k].author < a,
            forall|p2: int, q2: int|
                0 <= p2 < q2 < ancestors@.len()
                    ==> (#[trigger] ancestors@[p2]).author < (#[trigger] ancestors@[q2]).author,
            forall|k: int, i: int|
                0 <= k < ancestors@.len() && 0 <= i < d.blocks@.len()
                    && (#[trigger] d.blocks@[i]).author == (#[trigger] ancestors@[k]).author
                    && d.blocks@[i].round < limit
                    ==> d.blocks@[i].round <= ancestors@[k].round,
            forall|i: int|
                0 <= i < d.blocks@.len() && (#[trigger] d.blocks@[i]).author < a
                    && d.blocks@[i].round < limit
                    ==> exists|k: int|
                        0 <= k < ancestors@.len()
                            && (#[trigger] ancestors@[k]).author == d.blocks@[i].author,
        decreases n - a,
    {
        match d.highest_below(a, limit) {
            Some(rf) => {
                let ghost prev = ancestors@;
                ancestors.push(rf);
                proof {
                    assert(ancestors@.last() == rf);
                    assert forall|i: int|
                        0 <= i < d.blocks@.len() && (#[trigger] d.blocks@[i]).author < a + 1
                            && d.blocks@[i].round < limit
                        implies exists|k: int|
                            0 <= k < ancestors@.len()
                                && (#[trigger] ancestors@[k]).author == d.blocks@[i].author by {
                        if d.blocks@[i].author < a {
                            let k = choose|k: int|
                                0 <= k < prev.len()
                                    && (#[trigger] prev[k]).author == d.blocks@[i].author;
                            assert(ancestors@[k].author == d.blocks@[i].author);
                        } else {
                            assert(ancestors@[ancestors@.len() - 1].author == d.blocks@[i].author);
                        }
                    };
                }
            },
            None => {},
        }
        a += 1;
    }
    proof {
        assert forall|i: int|
            0 <= i < d.blocks@.len() && (#[trigger] d.blocks@[i]).round < limit
            implies exists|k: int|
                0 <= k < ancestors@.len() && (#[trigger] ancestors@[k]).author == d.blocks@[i].author by {
            assert(d.blocks@[i].structurally_valid(d.committee_size));
            assert(d.blocks@[i].author < n);
        };
        assert(cites_highest(*d, limit, ancestors@)) by {
            reveal(cites_highest);
        };
    }
    ancestors
}

/// The largest round among the references, if any.
pub fn max_round_of_refs(v: &Vec<BlockRef>) -> (out: Option<u64>)
    ensures
        match out {
            Some(m) => v@.len() > 0
                && (forall|t: int| 0 <= t < v@.len() ==> (#[trigger] v@[t]).round <= m)
                && (exists|t: int| 0 <= t < v@.len() && (#[trigger] v@[t]).round == m),
            None => v@.len() == 0,
        },
{
    if v.len() == 0 {
        return None;
    }
    let mut m: u64 = v[0].round;
    let mut k: usize = 1;
    while k < v.len()
        invariant
            1 <= k <= v@.len(),
            forall|t: int| 0 <= t < k ==> (#[trigger] v@[t]).round <= m,
            exists|t: int| 0 <= t < k && (#[trigger] v@[t]).round == m,
        decreases v@.len() - k,
    {
        if v[k].round > m {
            m = v[k].round;
        }
        k += 1;
    }
    Some(m)
}


impl Core {
    /// The commit-sequence invariant: indices are contiguous from 1,
    /// sub-DAGs are non-empty, hold their leader, consist of accepted
    /// uncommitted-at-the-time references, and are pairwise disjoint;
    /// `committed` is their union.
    pub open spec fn commits_wf(self) -> bool {
        &&& forall|i: int|
            0 <= i < self.commits@.len() ==> (#[trigger] self.commits@[i]).index == i + 1
        &&& forall|i: int|
            0 <= i < self.commits@.len()
                ==> (#[trigger] self.commits@[i]).sub_dag@.len() >= 1
                    && self.commits@[i].sub_dag@.contains(self.commits@[i].leader)
        &&& forall|i: int, t: int|
            0 <= i < self.commits@.len() && 0 <= t < self.commits@[i].sub_dag@.len()
                ==> self.committed@.contains(#[trigger] self.commits@[i].sub_dag@[t])
                    && self.dag.contains_ref(self.commits@[i].sub_dag@[t])
        &&& forall|i: int, j: int|
            0 <= i < j < self.commits@.len()
                ==> refs_disjoint(
                    (#[trigger] self.commits@[i]).sub_dag@,
                    (#[trigger] self.commits@[j]).sub_dag@,
                )
    }

    /// Commit bookkeeping: at most one commit per decided leader round,
    /// and only rounds the clock has passed are decided. Established by
    /// `new` and preserved by every operation.
    pub open spec fn commit_bookkeeping(self) -> bool {
        self.commits@.len() <= self.last_leader_round && self.last_leader_round
            < self.current_round
    }

    pub open spec fn wf(self) -> bool {
        &&& self.dag.wf()
        &&& self.block_manager.wf_with(self.dag)
        &&& self.own_index < self.dag.committee_size
        &&& self.current_round >= 1
        &&& self.commits_wf()
    }

    pub fn new(committee_size: u64, own_index: AuthorityIndex, max_skew_ms: u64, max_drift_ms: u64) -> (c: Core)
        requires
            committee_size >= 1,
            own_index < committee_size,
            max_skew_ms <= max_drift_ms,
        ensures
            c.wf(),
            c.dag.committee_size == committee_size,
            c.own_index == own_index,
            c.current_round == 1,
            c.commits@.len() == 0,
            c.committed@.len() == 0,
            c.block_manager.suspended@.len() == 0,
    {
        Core {
            own_index,
            dag: DagState::new(committee_size),
            block_manager: BlockManager::new(max_skew_ms, max_drift_ms),
            current_round: 1,
            commits: Vec::new(),
            committed: Vec::new(),
            last_leader_round: 0,
        }
    }


    /// Accept a locally built block into the DAG (promoting anything it
    /// unsuspends) and let the clock catch up.
    fn insert_own_block(&mut self, block: Block) -> (reference: BlockRef)
        requires
            old(self).wf(),
            block.structurally_valid(old(self).dag.committee_size),
            forall|k: int|
                0 <= k < block.ancestors@.len()
                    ==> old(self).dag.contains_ref(#[trigger] block.ancestors@[k]),
            !old(self).dag.has_author_round(block.author, block.round),
            forall|j: int|
                0 <= j < old(self).block_manager.suspended@.len()
                    ==> !((#[trigger] old(self).block_manager.suspended@[j]).block.author
                            == block.author
                        && old(self).block_manager.suspended@[j].block.round == block.round),
        ensures
            final(self).wf(),
            reference == block.spec_reference(),
            final(self).dag.contains_ref(reference),
            !old(self).dag.contains_ref(reference),
            final(self).own_index == old(self).own_index,
            final(self).dag.committee_size == old(self).dag.committee_size,
            final(self).commits@ == old(self).commits@,
            final(self).committed@ == old(self).committed@,
            final(self).last_leader_round == old(self).last_leader_round,
            final(self).current_round >= old(self).current_round,
            forall|r: BlockRef| old(self).dag.contains_ref(r) ==> final(self).dag.contains_ref(r),
            forall|i: int|
                0 <= i < final(self).dag.blocks@.len()
                    && (#[trigger] final(self).dag.blocks@[i]).spec_reference() == reference
                    ==> final(self).dag.blocks@[i] == block,
            // the DAG gained exactly the block plus unsuspended cascades
            old(self).dag.blocks@.len() < final(self).dag.blocks@.len(),
            forall|i: int|
                0 <= i < old(self).dag.blocks@.len()
                    ==> #[trigger] final(self).dag.blocks@[i] == old(self).dag.blocks@[i],
            forall|i: int|
                old(self).dag.blocks@.len() <= i < final(self).dag.blocks@.len()
                    ==> #[trigger] final(self).dag.blocks@[i] == block
                        || crate::block_manager::seq_has_block(
                        old(self).block_manager.suspended@,
                        final(self).dag.blocks@[i],
                    ),
    {
        let reference = block.reference();
        let ghost gb = block;
        let ghost pre = *self;
        let _admitted = self.block_manager.accept_and_unsuspend(&mut self.dag, block);
        proof {
            // the only stored block with this reference is the proposal: no
            // old block and no promoted suspended block shares its
            // (author, round)
            assert forall|i: int|
                0 <= i < self.dag.blocks@.len()
                    && (#[trigger] self.dag.blocks@[i]).spec_reference() == reference
                implies self.dag.blocks@[i] == gb by {
                if i < pre.dag.blocks@.len() {
                    assert(pre.dag.blocks@[i].spec_reference() == reference);
                    assert(pre.dag.contains_ref(reference));
                    assert(pre.dag.has_author_round(gb.author, gb.round));
                } else {
                    if self.dag.blocks@[i] != gb {
                        assert(crate::block_manager::seq_has_block(
                            pre.block_manager.suspended@,
                            self.dag.blocks@[i],
                        ));
                        let j = choose|j: int|
                            0 <= j < pre.block_manager.suspended@.len()
                                && (#[trigger] pre.block_manager.suspended@[j]).block
                                    == self.dag.blocks@[i];
                        assert(!(pre.block_manager.suspended@[j].block.author == gb.author
                            && pre.block_manager.suspended@[j].block.round == gb.round));
                    }
                }
            };
        }
        self.try_advance_round();
        reference
    }

    /// Advance the threshold clock: move to the next round as long as a
    /// quorum of authorities have accepted blocks at the current one.
    pub fn try_advance_round(&mut self)
        requires
            old(self).wf(),
        ensures
            final(self).wf(),
            *final(self) == (Core { current_round: final(self).current_round, ..*old(self) }),
            final(self).current_round >= old(self).current_round,
            // every skipped round had a quorum
            forall|r: Round|
                old(self).current_round <= r < final(self).current_round
                    ==> count_at_round(final(self).dag.blocks@, r) >= quorum_threshold(
                        final(self).dag.committee_size,
                    ),
            // and the clock rests on a round that does not (or the clock is
            // saturated)
            final(self).current_round == u64::MAX || count_at_round(
                final(self).dag.blocks@,
                final(self).current_round,
            ) < quorum_threshold(final(self).dag.committee_size),
    {
        let q = quorum(self.dag.committee_size);
        while self.current_round < u64::MAX
            invariant
                self.wf(),
                q == quorum_threshold(self.dag.committee_size),
                *self == (Core { current_round: self.current_round, ..*old(self) }),
                self.current_round >= old(self).current_round,
                forall|r: Round|
                    old(self).current_round <= r < self.current_round
                        ==> count_at_round(self.dag.blocks@, r) >= quorum_threshold(
                            self.dag.committee_size,
                        ),
            ensures
                self.current_round == u64::MAX || count_at_round(self.dag.blocks@, self.current_round)
                    < quorum_threshold(self.dag.committee_size),
            decreases u64::MAX - self.current_round,
        {
            let cnt = self.dag.authorities_at_round(self.current_round);
            if cnt < q {
                break;
            }
            self.current_round = self.current_round + 1;
        }
    }

    /// Admit an externally received block (already signature-checked by the
    /// cryptographic collaborator, whose verdict is `sig_valid`), then let
    /// the threshold clock catch up. See `BlockManager::try_admit` for the
    /// full admission contract.
    pub fn add_block(&mut self, b: Block, sig_valid: bool, now_ms: u64) -> (out: AdmitOutcome)
        requires
            old(self).wf(),
        ensures
            final(self).wf(),
            final(self).dag.committee_size == old(self).dag.committee_size,
            final(self).own_index == old(self).own_index,
            final(self).commits@ == old(self).commits@,
            final(self).committed@ == old(self).committed@,
            final(self).last_leader_round == old(self).last_leader_round,
            // the threshold clock never moves backwards, and rests on a
            // round without a quorum (unless saturated)
            final(self).current_round >= old(self).current_round,
            final(self).current_round == u64::MAX || count_at_round(
                final(self).dag.blocks@,
                final(self).current_round,
            ) < quorum_threshold(final(self).dag.committee_size),
            forall|r: BlockRef|
                old(self).dag.contains_ref(r) ==> final(self).dag.contains_ref(r),
            match out {
                AdmitOutcome::Accepted(list) => forall|t: int|
                    0 <= t < list@.len() ==> final(self).dag.contains_ref(#[trigger] list@[t]),
                AdmitOutcome::Rejected(_) => final(self).dag.blocks@ == old(self).dag.blocks@
                    && final(self).block_manager.suspended@ == old(self).block_manager.suspended@,
                AdmitOutcome::TryLater(_) => final(self).dag.blocks@ == old(self).dag.blocks@
                    && final(self).block_manager.suspended@ == old(self).block_manager.suspended@,
                AdmitOutcome::Suspended(m) => final(self).dag.blocks@ == old(self).dag.blocks@
                    && m@.len() >= 1,
            },
    {
        let out = self.block_manager.try_admit(&mut self.dag, b, sig_valid, now_ms);
        self.try_advance_round();
        out
    }

    /// Assemble a new block for the current round, citing the highest
    /// accepted block of every authority below it; a quorum of blocks at
    /// the previous round must back it. Returns `None` when there is no
    /// quorum or this authority already has a block at the target round.
    /// The digest and signature come from the cryptographic collaborator.
    #[verifier::rlimit(100)]
    #[verifier::spinoff_prover]
    pub fn try_propose(
        &mut self,
        transactions: Vec<Vec<u8>>,
        timestamp_ms: u64,
        digest: u64,
        signature: u64,
    ) -> (out: Option<Proposal>)
        requires
            old(self).wf(),
            old(self).current_round < u64::MAX,
        ensures
            final(self).wf(),
            final(self).current_round >= old(self).current_round,
            final(self).own_index == old(self).own_index,
            final(self).dag.committee_size == old(self).dag.committee_size,
            final(self).commits@ == old(self).commits@,
            final(self).committed@ == old(self).committed@,
            final(self).last_leader_round == old(self).last_leader_round,
            forall|r: BlockRef| old(self).dag.contains_ref(r) ==> final(self).dag.contains_ref(r),
            match out {
                None => final(self).dag.blocks@ == old(self).dag.blocks@,
                Some(p) => {
                    &&& p.reference.author == old(self).own_index
                    &&& final(self).dag.contains_ref(p.reference)
                    &&& !old(self).dag.contains_ref(p.reference)
                    &&& !p.forced
                    &&& p.reference.round == old(self).current_round
                    &&& count_at_round(
                        old(self).dag.blocks@,
                        (old(self).current_round - 1) as u64,
                    ) >= quorum_threshold(old(self).dag.committee_size)
                    // the DAG gained exactly the proposal plus unsuspended
                    // cascades, and the proposal cites the highest accepted
                    // block of every authority below the clock round
                    &&& proposal_records(
                        *old(self),
                        *final(self),
                        p.reference,
                        old(self).current_round,
                    )
                },
            },
            // success is owed: with a quorum behind the previous round and
            // no own block (accepted or suspended) at the clock round, the
            // proposal is made
            (count_at_round(old(self).dag.blocks@, (old(self).current_round - 1) as u64)
                >= quorum_threshold(old(self).dag.committee_size)
                && !old(self).dag.has_author_round(old(self).own_index, old(self).current_round)
                && !(exists|j: int|
                0 <= j < old(self).block_manager.suspended@.len()
                    && (#[trigger] old(self).block_manager.suspended@[j]).block.author
                        == old(self).own_index
                    && old(self).block_manager.suspended@[j].block.round
                        == old(self).current_round)) ==> out is Some,
    {
        let n = self.dag.committee_size;
        let r_target = self.current_round;
        let q = quorum(n);
        let ancestors = gather_highest_ancestors(&self.dag, r_target);
        // a normal proposal needs a quorum of prior-round blocks
        let cnt = self.dag.authorities_at_round(r_target - 1);
        if cnt < q {
            return None;
        }
        let round = r_target;
        proof {
            // some authority has a block exactly at the previous round
            lemma_count_at_round_witness(self.dag.blocks@, (r_target - 1) as u64);
        }
        if self.own_conflict(round) {
            return None;
        }
        let block = Block {
            author: self.own_index,
            round,
            timestamp_ms,
            ancestors,
            transactions,
            digest,
            signature,
        };
        proof {
            assert(block.structurally_valid(self.dag.committee_size)) by {
                let i = choose|i: int|
                    0 <= i < self.dag.blocks@.len()
                        && (#[trigger] self.dag.blocks@[i]).round == r_target - 1;
                assert(self.dag.blocks@[i].round < r_target);
                let k = choose|k: int|
                    0 <= k < block.ancestors@.len()
                        && (#[trigger] block.ancestors@[k]).author == self.dag.blocks@[i].author;
                assert(block.ancestors@[k].round >= self.dag.blocks@[i].round);
                assert(block.ancestors@[k].round == r_target - 1);
            };
        }
        let ghost gb = block;
        let ghost pre = *self;
        let reference = self.insert_own_block(block);
        proof {
            assert(gb.ancestors@ == ancestors@);
            lemma_proposal_records(pre, *self, reference, pre.current_round, gb);
        }
        Some(Proposal { reference, forced: false })
    }

    /// The leader timeout fired without a quorum: propose anyway, citing
    /// whatever ancestor set is available, one round past the highest block
    /// this authority has seen. The proposal is marked forced. Returns
    /// `None` when this authority already has a block at that round.
    #[verifier::rlimit(100)]
    #[verifier::spinoff_prover]
    pub fn force_propose(
        &mut self,
        transactions: Vec<Vec<u8>>,
        timestamp_ms: u64,
        digest: u64,
        signature: u64,
    ) -> (out: Option<Proposal>)
        requires
            old(self).wf(),
            old(self).current_round < u64::MAX,
        ensures
            final(self).wf(),
            final(self).current_round >= old(self).current_round,
            final(self).own_index == old(self).own_index,
            final(self).dag.committee_size == old(self).dag.committee_size,
            final(self).commits@ == old(self).commits@,
            final(self).committed@ == old(self).committed@,
            final(self).last_leader_round == old(self).last_leader_round,
            forall|r: BlockRef| old(self).dag.contains_ref(r) ==> final(self).dag.contains_ref(r),
            match out {
                None => final(self).dag.blocks@ == old(self).dag.blocks@,
                Some(p) => {
                    &&& p.reference.author == old(self).own_index
                    &&& final(self).dag.contains_ref(p.reference)
                    &&& !old(self).dag.contains_ref(p.reference)
                    &&& p.forced
                    // one past everything seen so far
                    &&& forall|i: int|
                        0 <= i < old(self).dag.blocks@.len()
                            && (#[trigger] old(self).dag.blocks@[i]).round < u64::MAX
                            ==> old(self).dag.blocks@[i].round < p.reference.round
                    &&& proposal_records(*old(self), *final(self), p.reference, u64::MAX as u64)
                },
            },
    {
        let n = self.dag.committee_size;
        let ancestors = gather_highest_ancestors(&self.dag, u64::MAX);
        proof {
            // genesis is always present, so some ancestor is cited
            assert(self.dag.contains_ref(crate::dag::genesis_ref(0)));
            let gi = choose|gi: int|
                0 <= gi < self.dag.blocks@.len()
                    && (#[trigger] self.dag.blocks@[gi]).spec_reference()
                        == crate::dag::genesis_ref(0);
            assert(self.dag.blocks@[gi].round < u64::MAX);
        }
        let m: u64;
        match max_round_of_refs(&ancestors) {
            Some(mm) => {
                m = mm;
            },
            None => {
                // cannot happen with genesis present; proposing nothing is
                // always safe
                proof {
                    assert(false);
                }
                return None;
            },
        }
        if m == u64::MAX {
            return None;
        }
        let round = m + 1;
        proof {
            // nothing seen sits at or above the forced round
            assert forall|i: int|
                0 <= i < self.dag.blocks@.len()
                    && (#[trigger] self.dag.blocks@[i]).round < u64::MAX
                implies self.dag.blocks@[i].round < round by {
                let k = choose|k: int|
                    0 <= k < ancestors@.len()
                        && (#[trigger] ancestors@[k]).author == self.dag.blocks@[i].author;
                assert(self.dag.blocks@[i].round <= ancestors@[k].round);
            };
        }
        if self.own_conflict(round) {
            return None;
        }
        let block = Block {
            author: self.own_index,
            round,
            timestamp_ms,
            ancestors,
            transactions,
            digest,
            signature,
        };
        proof {
            assert(block.structurally_valid(self.dag.committee_size)) by {
                let t = choose|t: int|
                    0 <= t < block.ancestors@.len()
                        && (#[trigger] block.ancestors@[t]).round == m;
            };
        }
        let ghost gb = block;
        let ghost pre = *self;
        let reference = self.insert_own_block(block);
        proof {
            assert(gb.ancestors@ == ancestors@);
            lemma_proposal_records(pre, *self, reference, u64::MAX as u64, gb);
        }
        Some(Proposal { reference, forced: true })
    }

    /// Would a block of ours at this round equivocate with anything already
    /// accepted or suspended?
    fn own_conflict(&self, round: u64) -> (out: bool)
        ensures
            out == (self.dag.has_author_round(self.own_index, round) || exists|j: int|
                0 <= j < self.block_manager.suspended@.len()
                    && (#[trigger] self.block_manager.suspended@[j]).block.author
                        == self.own_index
                    && self.block_manager.suspended@[j].block.round == round),
    {
        match self.dag.get_ref_by(self.own_index, round) {
            Some(_) => true,
            None => self.block_manager.suspended_collides(self.own_index, round),
        }
    }

}

/// Append every element of `src` to `dst`.
fn append_refs(dst: &mut Vec<BlockRef>, src: &Vec<BlockRef>)
    ensures
        final(dst)@ == old(dst)@ + src@,
{
    let mut i: usize = 0;
    while i < src.len()
        invariant
            0 <= i <= src@.len(),
            dst@ == old(dst)@ + src@.take(i as int),
        decreases src@.len() - i,
    {
        dst.push(src[i]);
        proof {
            assert(dst@ =~= old(dst)@ + src@.take(i + 1));
        }
        i += 1;
    }
    proof {
        assert(src@.take(src@.len() as int) =~= src@);
    }
}

impl Core {
    /// Earliest round after the last committed leader whose leader block is
    /// accepted and directly supported by a quorum of next-round votes.
    fn find_direct_leader(&self, q: u64) -> (out: Option<BlockRef>)
        requires
            self.wf(),
            self.last_leader_round < self.current_round,
            q == quorum_threshold(self.dag.committee_size),
        ensures
            match out {
                Some(lref) => self.dag.contains_ref(lref)
                    && self.last_leader_round < lref.round < self.current_round
                    && lref.author == leader_spec(lref.round, self.dag.committee_size)
                    && !self.committed@.contains(lref)
                    && count_votes(self.dag.blocks@, lref, (lref.round + 1) as u64) >= q,
                None => true,
            },
    {
        let n = self.dag.committee_size;
        let mut r: u64 = self.last_leader_round + 1;
        while r < self.current_round
            invariant
                self.wf(),
                n == self.dag.committee_size,
                q == quorum_threshold(n),
                self.last_leader_round < r <= self.current_round,
            decreases self.current_round - r,
        {
            let a = leader_of(r, n);
            match self.dag.get_ref_by(a, r) {
                Some(lref) => {
                    if !refs_contain(&self.committed, &lref) {
                        let votes = tally_votes(&self.dag, &lref, r + 1);
                        if votes >= q {
                            return Some(lref);
                        }
                    }
                },
                None => {},
            }
            r += 1;
        }
        None
    }

    /// Materialize and record the commit of one leader: collect its
    /// uncommitted causal cone in deterministic order, append it to the
    /// committed set, and append a new commit with the next index.
    fn commit_leader(&mut self, lref: BlockRef)
        requires
            old(self).wf(),
            old(self).dag.contains_ref(lref),
            !old(self).committed@.contains(lref),
            lref.round < u64::MAX,
            old(self).commits@.len() < u64::MAX,
        ensures
            final(self).wf(),
            final(self).dag == old(self).dag,
            final(self).block_manager == old(self).block_manager,
            final(self).own_index == old(self).own_index,
            final(self).current_round == old(self).current_round,
            final(self).last_leader_round == old(self).last_leader_round,
            final(self).commits@.len() == old(self).commits@.len() + 1,
            forall|i: int|
                0 <= i < old(self).commits@.len()
                    ==> final(self).commits@[i] == old(self).commits@[i],
            final(self).commits@.last().index == old(self).commits@.len() + 1,
            final(self).commits@.last().leader == lref,
            final(self).commits@.last().sub_dag@.contains(lref),
    {
        let sub = collect_sub_dag(&self.dag, &self.committed, lref);
        let ts: u64 = match self.dag.get(&lref) {
            Some(b) => b.timestamp_ms,
            None => 0,
        };
        let index = self.commits.len() as u64 + 1;
        let ghost old_committed = self.committed@;
        let ghost old_commits = self.commits@;
        append_refs(&mut self.committed, &sub);
        let c = Commit { index, leader: lref, sub_dag: sub, timestamp_ms: ts };
        let ghost gc = c;
        self.commits.push(c);
        proof {
            assert(self.commits@ == old_commits.push(gc));
            assert(self.commits@.last() == gc);
            assert(self.committed@ == old_committed + gc.sub_dag@);
            // old committed references stay committed
            assert forall|r: BlockRef| old_committed.contains(r)
                implies self.committed@.contains(r) by {
                let i = choose|i: int| 0 <= i < old_committed.len() && old_committed[i] == r;
                assert(self.committed@[i] == r);
            };
            // the new sub-DAG is committed now
            assert forall|t: int| 0 <= t < gc.sub_dag@.len()
                implies self.committed@.contains(#[trigger] gc.sub_dag@[t]) by {
                assert(self.committed@[old_committed.len() + t] == gc.sub_dag@[t]);
            };
            // membership and disjointness of the commit sequence
            assert forall|i: int, t: int|
                0 <= i < self.commits@.len() && 0 <= t < self.commits@[i].sub_dag@.len()
                implies self.committed@.contains(#[trigger] self.commits@[i].sub_dag@[t])
                    && self.dag.contains_ref(self.commits@[i].sub_dag@[t]) by {
                if i < old_commits.len() {
                    assert(self.commits@[i] == old_commits[i]);
                    assert(old_committed.contains(old_commits[i].sub_dag@[t]));
                }
            };
            assert forall|i: int, j: int| 0 <= i < j < self.commits@.len()
                implies refs_disjoint(
                    (#[trigger] self.commits@[i]).sub_dag@,
                    (#[trigger] self.commits@[j]).sub_dag@,
                ) by {
                if j < old_commits.len() {
                    assert(self.commits@[i] == old_commits[i]);
                    assert(self.commits@[j] == old_commits[j]);
                    assert(refs_disjoint(old_commits[i].sub_dag@, old_commits[j].sub_dag@));
                } else {
                    // the fresh sub-DAG avoids everything already committed,
                    // which covers every earlier sub-DAG
                    assert(self.commits@[i] == old_commits[i]);
                    assert(self.commits@[j] == gc);
                    assert forall|p: int, q2: int|
                        0 <= p < old_commits[i].sub_dag@.len() && 0 <= q2 < gc.sub_dag@.len()
                        implies #[trigger] old_commits[i].sub_dag@[p]
                            != #[trigger] gc.sub_dag@[q2] by {
                        assert(old_committed.contains(old_commits[i].sub_dag@[p]));
                        assert(!old_committed.contains(gc.sub_dag@[q2]));
                    };
                }
            };
        }
    }

    /// Run the commit rule to completion. Leaders are decided in ascending
    /// round order: the earliest round with direct quorum support is
    /// committed directly, and each skipped round's leader before it is
    /// committed indirectly exactly when it lies in the causal history of
    /// that directly committed leader. Produces zero or more commits, only
    /// ever appending: a commit, once made, is never revised.
    pub fn try_commit(&mut self) -> (produced: usize)
        requires
            old(self).wf(),
            old(self).commit_bookkeeping(),
        ensures
            final(self).commit_bookkeeping(),
            final(self).wf(),
            // the last decided leader round never decreases
            final(self).last_leader_round >= old(self).last_leader_round,
            final(self).dag == old(self).dag,
            final(self).block_manager == old(self).block_manager,
            final(self).own_index == old(self).own_index,
            final(self).current_round == old(self).current_round,
            final(self).commits@.len() == old(self).commits@.len() + produced,
            forall|i: int|
                0 <= i < old(self).commits@.len()
                    ==> final(self).commits@[i] == old(self).commits@[i],
    {
        let n = self.dag.committee_size;
        let q = quorum(n);
        let start_len = self.commits.len();
        loop
            invariant
                self.wf(),
                self.commit_bookkeeping(),
                n == self.dag.committee_size,
                q == quorum_threshold(n),
                self.dag == old(self).dag,
                self.block_manager == old(self).block_manager,
                self.own_index == old(self).own_index,
                self.current_round == old(self).current_round,
                start_len == old(self).commits@.len(),
                self.commits@.len() >= start_len,
                self.last_leader_round >= old(self).last_leader_round,
                forall|i: int|
                    0 <= i < old(self).commits@.len()
                        ==> self.commits@[i] == old(self).commits@[i],
            decreases self.current_round - self.last_leader_round,
        {
            let found = self.find_direct_leader(q);
            match found {
                None => {
                    break;
                },
                Some(lref_d) => {
                    let rd = lref_d.round;
                    // the direct leader's cone decides the skipped rounds
                    let cone = collect_sub_dag(&self.dag, &self.committed, lref_d);
                    let ghost entry_last = self.last_leader_round;
                    let mut r2: u64 = self.last_leader_round + 1;
                    while r2 <= rd
                        invariant
                            self.wf(),
                            n == self.dag.committee_size,
                            entry_last == self.last_leader_round,
                            entry_last < r2 <= rd + 1,
                            rd < self.current_round,
                            self.commits@.len() <= r2 - 1,
                            self.dag == old(self).dag,
                            self.block_manager == old(self).block_manager,
                            self.own_index == old(self).own_index,
                            self.current_round == old(self).current_round,
                            start_len == old(self).commits@.len(),
                            self.commits@.len() >= start_len,
                            forall|i: int|
                                0 <= i < old(self).commits@.len()
                                    ==> self.commits@[i] == old(self).commits@[i],
                        decreases rd + 1 - r2,
                    {
                        let a2 = leader_of(r2, n);
                        match self.dag.get_ref_by(a2, r2) {
                            Some(lref2) => {
                                let on_path: bool = if r2 == rd {
                                    true
                                } else {
                                    refs_contain(&cone, &lref2)
                                };
                                if on_path && !refs_contain(&self.committed, &lref2) {
                                    self.commit_leader(lref2);
                                }
                            },
                            None => {},
                        }
                        r2 += 1;
                    }
                    self.last_leader_round = rd;
                },
            }
        }
        self.commits.len() - start_len
    }
}

/// Law: the commit indices Core produces are contiguous starting at 1, and
/// the sub-DAGs of distinct commits are pairwise disjoint.
pub proof fn lemma_commits_contiguous_and_disjoint(c: Core)
    requires
        c.wf(),
    ensures
        forall|i: int| 0 <= i < c.commits@.len() ==> (#[trigger] c.commits@[i]).index == i + 1,
        forall|i: int, j: int|
            0 <= i < j < c.commits@.len()
                ==> refs_disjoint(
                    (#[trigger] c.commits@[i]).sub_dag@,
                    (#[trigger] c.commits@[j]).sub_dag@,
                ),
{
}

} // verus!

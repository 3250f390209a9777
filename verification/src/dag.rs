//! DagState: the authoritative in-memory view of accepted blocks.
//!
//! Every block stored here is structurally valid, causally complete (all
//! its ancestors are stored too), and no authority has two distinct blocks
//! at the same round. Insertion is idempotent.

use vstd::prelude::*;
use crate::types::{AuthorityIndex, Block, BlockRef, Round};

verus! {

pub struct DagState {
    pub committee_size: u64,
    pub blocks: Vec<Block>,
}

/// The reference of the genesis block of authority `a`.
pub open spec fn genesis_ref(a: AuthorityIndex) -> BlockRef {
    BlockRef { author: a, round: 0, digest: 0 }
}

/// Number of blocks at round `r` in `s`; with no equivocation this is the
/// number of distinct authorities represented at round `r`.
pub open spec fn count_at_round(s: Seq<Block>, r: Round) -> nat
    decreases s.len(),
{
    if s.len() == 0 {
        0
    } else {
        count_at_round(s.drop_last(), r) + if s.last().round == r { 1nat } else { 0nat }
    }
}

pub proof fn lemma_count_at_round_witness(s: Seq<Block>, r: Round)
    requires
        count_at_round(s, r) > 0,
    ensures
        exists|i: int| 0 <= i < s.len() && (#[trigger] s[i]).round == r,
    decreases s.len(),
{
    if s.len() > 0 {
        if s.last().round == r {
            assert(s[s.len() - 1].round == r);
        } else {
            lemma_count_at_round_witness(s.drop_last(), r);
            let i = choose|i: int| 0 <= i < s.drop_last().len() && (#[trigger] s.drop_last()[i]).round == r;
            assert(s[i].round == r);
        }
    }
}

impl DagState {
    /// A reference is known iff some stored block carries it.
    pub open spec fn contains_ref(self, r: BlockRef) -> bool {
        exists|i: int| 0 <= i < self.blocks@.len() && (#[trigger] self.blocks@[i]).spec_reference() == r
    }

    /// Some stored block has this author and round.
    pub open spec fn has_author_round(self, a: AuthorityIndex, r: Round) -> bool {
        exists|i: int|
            0 <= i < self.blocks@.len()
                && (#[trigger] self.blocks@[i]).author == a
                && self.blocks@[i].round == r
    }

    /// Well-formedness: every stored block is structurally valid and
    /// causally complete, no (author, round) pair repeats, and the genesis
    /// block of every committee member is present.
    pub open spec fn wf(self) -> bool {
        &&& self.committee_size >= 1
        &&& forall|i: int|
            0 <= i < self.blocks@.len()
                ==> (#[trigger] self.blocks@[i]).structurally_valid(self.committee_size)
        &&& forall|i: int, j: int|
            0 <= i < j < self.blocks@.len()
                ==> !((#[trigger] self.blocks@[i]).author == (#[trigger] self.blocks@[j]).author
                    && self.blocks@[i].round == self.blocks@[j].round)
        &&& forall|i: int, k: int|
            0 <= i < self.blocks@.len() && 0 <= k < self.blocks@[i].ancestors@.len()
                ==> self.contains_ref(#[trigger] self.blocks@[i].ancestors@[k])
        &&& forall|a: AuthorityIndex| a < self.committee_size ==> self.contains_ref(#[trigger] genesis_ref(a))
    }

    /// A fresh DAG holding exactly the committee's genesis blocks.
    pub fn new(committee_size: u64) -> (d: DagState)
        requires
            committee_size >= 1,
        ensures
            d.wf(),
            d.committee_size == committee_size,
            d.blocks@.len() == committee_size,
            forall|i: int|
                0 <= i < d.blocks@.len()
                    ==> (#[trigger] d.blocks@[i]).spec_reference() == genesis_ref(i as AuthorityIndex)
                        && d.blocks@[i].round == 0,
    {
        let mut blocks: Vec<Block> = Vec::new();
        let mut a: u64 = 0;
        while a < committee_size
            invariant
                0 <= a <= committee_size,
                blocks@.len() == a,
                forall|i: int|
                    0 <= i < a
                        ==> (#[trigger] blocks@[i]).spec_reference() == genesis_ref(i as AuthorityIndex)
                            && blocks@[i] == (Block {
                                author: i as u64,
                                round: 0,
                                timestamp_ms: 0,
                                ancestors: blocks@[i].ancestors,
                                transactions: blocks@[i].transactions,
                                digest: 0,
                                signature: 0,
                            })
                            && blocks@[i].ancestors@.len() == 0,
            decreases committee_size - a,
        {
            let g = Block {
                author: a,
                round: 0,
                timestamp_ms: 0,
                ancestors: Vec::new(),
                transactions: Vec::new(),
                digest: 0,
                signature: 0,
            };
            blocks.push(g);
            a += 1;
        }
        let d = DagState { committee_size, blocks };
        assert forall|a2: AuthorityIndex| a2 < committee_size implies d.contains_ref(#[trigger] genesis_ref(a2)) by {
            assert(d.blocks@[a2 as int].spec_reference() == genesis_ref(a2));
        };
        d
    }

    /// Pure lookup: is this reference known?
    pub fn contains(&self, r: &BlockRef) -> (out: bool)
        ensures
            out == self.contains_ref(*r),
    {
        let mut i: usize = 0;
        while i < self.blocks.len()
            invariant
                0 <= i <= self.blocks@.len(),
                forall|k: int| 0 <= k < i ==> (#[trigger] self.blocks@[k]).spec_reference() != *r,
            decreases self.blocks@.len() - i,
        {
            let b = &self.blocks[i];
            if b.author == r.author && b.round == r.round && b.digest == r.digest {
                assert(self.blocks@[i as int].spec_reference() == *r);
                return true;
            }
            i += 1;
        }
        false
    }

    /// Pure lookup of the block behind a reference.
    pub fn get(&self, r: &BlockRef) -> (out: Option<&Block>)
        ensures
            match out {
                Some(b) => self.contains_ref(*r) && b.spec_reference() == *r
                    && exists|i: int| 0 <= i < self.blocks@.len() && *b == #[trigger] self.blocks@[i],
                None => !self.contains_ref(*r),
            },
    {
        let mut i: usize = 0;
        while i < self.blocks.len()
            invariant
                0 <= i <= self.blocks@.len(),
                forall|k: int| 0 <= k < i ==> (#[trigger] self.blocks@[k]).spec_reference() != *r,
            decreases self.blocks@.len() - i,
        {
            let b = &self.blocks[i];
            if b.author == r.author && b.round == r.round && b.digest == r.digest {
                assert(self.blocks@[i as int].spec_reference() == *r);
                return Some(b);
            }
            i += 1;
        }
        None
    }

    /// Does some stored block equivocate with (conflict at the same author
    /// and round while differing from) the given reference?
    pub fn conflicts_with(&self, r: &BlockRef) -> (out: bool)
        ensures
            out == exists|i: int|
                0 <= i < self.blocks@.len()
                    && (#[trigger] self.blocks@[i]).author == r.author
                    && self.blocks@[i].round == r.round
                    && self.blocks@[i].spec_reference() != *r,
    {
        let mut i: usize = 0;
        while i < self.blocks.len()
            invariant
                0 <= i <= self.blocks@.len(),
                forall|k: int|
                    0 <= k < i
                        ==> !((#[trigger] self.blocks@[k]).author == r.author
                            && self.blocks@[k].round == r.round
                            && self.blocks@[k].spec_reference() != *r),
            decreases self.blocks@.len() - i,
        {
            let b = &self.blocks[i];
            if b.author == r.author && b.round == r.round && b.digest != r.digest {
                assert(self.blocks@[i as int].spec_reference() != *r);
                return true;
            }
            i += 1;
        }
        false
    }

    /// Insert an accepted block. Idempotent: a known reference is a no-op.
    pub fn insert(&mut self, b: Block)
        requires
            old(self).wf(),
            b.structurally_valid(old(self).committee_size),
            forall|k: int|
                0 <= k < b.ancestors@.len() ==> old(self).contains_ref(#[trigger] b.ancestors@[k]),
            // no equivocation: any stored block at (author, round) is this very block
            forall|i: int|
                0 <= i < old(self).blocks@.len()
                    && (#[trigger] old(self).blocks@[i]).author == b.author
                    && old(self).blocks@[i].round == b.round
                    ==> old(self).blocks@[i].spec_reference() == b.spec_reference(),
        ensures
            final(self).wf(),
            final(self).committee_size == old(self).committee_size,
            final(self).contains_ref(b.spec_reference()),
            if old(self).contains_ref(b.spec_reference()) {
                final(self).blocks@ == old(self).blocks@
            } else {
                final(self).blocks@ == old(self).blocks@.push(b)
            },
            forall|r: BlockRef|
                final(self).contains_ref(r)
                    <==> (old(self).contains_ref(r) || r == b.spec_reference()),
    {
        let r = b.reference();
        if self.contains(&r) {
            assert forall|rr: BlockRef|
                final(self).contains_ref(rr)
                    <==> (old(self).contains_ref(rr) || rr == b.spec_reference()) by {};
            return;
        }
        proof {
            // the new block would equivocate with any same-(author, round) block,
            // so none exists
            assert forall|i: int|
                0 <= i < self.blocks@.len() implies
                !((#[trigger] self.blocks@[i]).author == b.author && self.blocks@[i].round == b.round) by {
                if self.blocks@[i].author == b.author && self.blocks@[i].round == b.round {
                    assert(self.blocks@[i].spec_reference() == b.spec_reference());
                    assert(self.contains_ref(b.spec_reference()));
                }
            }
        }
        let ghost prev = self.blocks@;
        self.blocks.push(b);
        proof {
            assert(self.blocks@ == prev.push(b));
            assert(self.blocks@[prev.len() as int] == b);
            assert forall|rr: BlockRef| old(self).contains_ref(rr) implies self.contains_ref(rr) by {
                let i = choose|i: int| 0 <= i < prev.len() && (#[trigger] prev[i]).spec_reference() == rr;
                assert(self.blocks@[i].spec_reference() == rr);
            };
            assert(self.contains_ref(b.spec_reference()));
            assert forall|rr: BlockRef| self.contains_ref(rr)
                implies (old(self).contains_ref(rr) || rr == b.spec_reference()) by {
                let i = choose|i: int|
                    0 <= i < self.blocks@.len() && (#[trigger] self.blocks@[i]).spec_reference() == rr;
                if i < prev.len() {
                    assert(prev[i].spec_reference() == rr);
                }
            };
            assert forall|i: int, k: int|
                0 <= i < self.blocks@.len() && 0 <= k < self.blocks@[i].ancestors@.len()
                implies self.contains_ref(#[trigger] self.blocks@[i].ancestors@[k]) by {
                if i < prev.len() {
                    assert(old(self).contains_ref(self.blocks@[i].ancestors@[k]));
                } else {
                    assert(self.blocks@[i] == b);
                    assert(old(self).contains_ref(b.ancestors@[k]));
                }
            };
        }
    }

    /// Number of blocks at round `r` (one per authority, by `wf`).
    pub fn authorities_at_round(&self, r: Round) -> (out: u64)
        ensures
            out == count_at_round(self.blocks@, r),
    {
        let mut i: usize = 0;
        let mut c: u64 = 0;
        while i < self.blocks.len()
            invariant
                0 <= i <= self.blocks@.len(),
                c == count_at_round(self.blocks@.take(i as int), r),
                c <= i,
            decreases self.blocks@.len() - i,
        {
            proof {
                assert(self.blocks@.take(i + 1).drop_last() =~= self.blocks@.take(i as int));
                assert(self.blocks@.take(i + 1).last() == self.blocks@[i as int]);
            }
            if self.blocks[i].round == r {
                c += 1;
            }
            i += 1;
        }
        proof {
            assert(self.blocks@.take(self.blocks@.len() as int) =~= self.blocks@);
        }
        c
    }

    /// The reference of authority `a`'s block at round `r`, if accepted.
    pub fn get_ref_by(&self, a: AuthorityIndex, r: Round) -> (out: Option<BlockRef>)
        ensures
            match out {
                Some(rf) => self.contains_ref(rf) && rf.author == a && rf.round == r,
                None => !self.has_author_round(a, r),
            },
    {
        let mut i: usize = 0;
        while i < self.blocks.len()
            invariant
                0 <= i <= self.blocks@.len(),
                forall|k: int|
                    0 <= k < i
                        ==> !((#[trigger] self.blocks@[k]).author == a && self.blocks@[k].round == r),
            decreases self.blocks@.len() - i,
        {
            let b = &self.blocks[i];
            if b.author == a && b.round == r {
                assert(self.blocks@[i as int].spec_reference().author == a);
                return Some(b.reference());
            }
            i += 1;
        }
        None
    }

    /// The highest-round block of authority `a` strictly below round
    /// `limit`, if any.
    pub fn highest_below(&self, a: AuthorityIndex, limit: Round) -> (out: Option<BlockRef>)
        ensures
            match out {
                Some(r) => self.contains_ref(r) && r.author == a && r.round < limit
                    && forall|i: int|
                        0 <= i < self.blocks@.len()
                            && (#[trigger] self.blocks@[i]).author == a
                            && self.blocks@[i].round < limit
                            ==> self.blocks@[i].round <= r.round,
                None => forall|i: int|
                    0 <= i < self.blocks@.len()
                        ==> !((#[trigger] self.blocks@[i]).author == a && self.blocks@[i].round < limit),
            },
    {
        let mut best: Option<BlockRef> = None;
        let mut i: usize = 0;
        while i < self.blocks.len()
            invariant
                0 <= i <= self.blocks@.len(),
                match best {
                    Some(r) => self.contains_ref(r) && r.author == a && r.round < limit
                        && forall|k: int|
                            0 <= k < i
                                && (#[trigger] self.blocks@[k]).author == a
                                && self.blocks@[k].round < limit
                                ==> self.blocks@[k].round <= r.round,
                    None => forall|k: int|
                        0 <= k < i
                            ==> !((#[trigger] self.blocks@[k]).author == a && self.blocks@[k].round < limit),
                },
            decreases self.blocks@.len() - i,
        {
            let b = &self.blocks[i];
            if b.author == a && b.round < limit {
                let keep: bool = match &best {
                    Some(r) => b.round > r.round,
                    None => true,
                };
                if keep {
                    assert(self.blocks@[i as int].spec_reference().author == a);
                    best = Some(b.reference());
                }
            }
            i += 1;
        }
        best
    }
}

/// Law: every block the DAG has accepted obeys the round rule — its round
/// is one greater than its maximum ancestor round, and 0 when it has no
/// ancestors.
pub proof fn lemma_accepted_blocks_obey_round_rule(d: DagState)
    requires
        d.wf(),
    ensures
        forall|i: int|
            0 <= i < d.blocks@.len() ==> (#[trigger] d.blocks@[i]).round_consistent(),
{
}

/// Law: no authority has two distinct accepted blocks at the same round;
/// equivocating blocks are never stored.
pub proof fn lemma_no_accepted_equivocation(d: DagState)
    requires
        d.wf(),
    ensures
        forall|i: int, j: int|
            0 <= i < d.blocks@.len() && 0 <= j < d.blocks@.len() && i != j
                ==> !((#[trigger] d.blocks@[i]).author == (#[trigger] d.blocks@[j]).author
                    && d.blocks@[i].round == d.blocks@[j].round),
{
}

} // verus!

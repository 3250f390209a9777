//! Data model of the consensus core: block references, blocks, commits,
//! and the structural-validity predicate every admitted block satisfies.

use vstd::prelude::*;

verus! {

/// Stable identifier of a validator within the fixed committee for an epoch.
pub type AuthorityIndex = u64;

/// Discrete step of block production; a block's round exceeds all its
/// ancestors' rounds by exactly one (genesis blocks sit at round 0).
pub type Round = u64;

/// Content-addressed, globally unique pointer to a block; the DAG's edges
/// are made of these, never of owning references.
#[derive(Clone, Copy, PartialEq, Eq, Structural, Debug, Hash)]
pub struct BlockRef {
    pub author: AuthorityIndex,
    pub round: Round,
    pub digest: u64,
}

/// A signed block. The digest is the content address computed by the
/// (out-of-scope) cryptographic collaborator when the block is verified;
/// the signature is likewise opaque to this crate.
#[derive(Clone, Debug)]
pub struct Block {
    pub author: AuthorityIndex,
    pub round: Round,
    pub timestamp_ms: u64,
    pub ancestors: Vec<BlockRef>,
    pub transactions: Vec<Vec<u8>>,
    pub digest: u64,
    pub signature: u64,
}

/// One element of the linearized history: a leader block together with the
/// ordered, not-previously-committed part of its causal history.
#[derive(Clone, Debug)]
pub struct Commit {
    /// Monotonically increasing, starting at 1, no gaps.
    pub index: u64,
    pub leader: BlockRef,
    /// Ordered by round, then author; pairwise disjoint across commits.
    pub sub_dag: Vec<BlockRef>,
    pub timestamp_ms: u64,
}

impl Block {
    /// The content-addressed pointer to this block.
    pub open spec fn spec_reference(self) -> BlockRef {
        BlockRef { author: self.author, round: self.round, digest: self.digest }
    }

    pub fn reference(&self) -> (r: BlockRef)
        ensures
            r == self.spec_reference(),
    {
        BlockRef { author: self.author, round: self.round, digest: self.digest }
    }

    /// Ancestors name pairwise distinct authorities.
    pub open spec fn distinct_ancestor_authors(self) -> bool {
        forall|i: int, j: int|
            0 <= i < j < self.ancestors@.len()
                ==> (#[trigger] self.ancestors@[i]).author != (#[trigger] self.ancestors@[j]).author
    }

    /// The round rule: a block with no ancestors sits at round 0; otherwise
    /// its round is one greater than the maximum ancestor round, i.e. every
    /// ancestor is strictly below it and some ancestor is exactly one below.
    pub open spec fn round_consistent(self) -> bool {
        if self.ancestors@.len() == 0 {
            self.round == 0
        } else {
            (forall|i: int|
                0 <= i < self.ancestors@.len()
                    ==> (#[trigger] self.ancestors@[i]).round < self.round)
            && (exists|i: int|
                0 <= i < self.ancestors@.len()
                    && (#[trigger] self.ancestors@[i]).round == self.round - 1)
        }
    }

    /// Structural validity against a committee of `n` authorities: the
    /// author and every ancestor's author are committee members, ancestor
    /// authors are pairwise distinct, and the round rule holds.
    pub open spec fn structurally_valid(self, n: u64) -> bool {
        &&& self.author < n
        &&& forall|i: int|
            0 <= i < self.ancestors@.len() ==> (#[trigger] self.ancestors@[i]).author < n
        &&& self.distinct_ancestor_authors()
        &&& self.round_consistent()
    }
}

/// Decides `structurally_valid` for a block.
pub fn check_block_structure(b: &Block, n: u64) -> (r: bool)
    ensures
        r == b.structurally_valid(n),
{
    if b.author >= n {
        return false;
    }
    if b.ancestors.len() == 0 {
        return b.round == 0;
    }
    if b.round == 0 {
        // a non-genesis block needs ancestors strictly below its round
        assert(!b.round_consistent());
        return false;
    }
    let mut i: usize = 0;
    let mut saw_prev_round: bool = false;
    while i < b.ancestors.len()
        invariant
            0 <= i <= b.ancestors@.len(),
            b.round > 0,
            forall|k: int| 0 <= k < i ==> (#[trigger] b.ancestors@[k]).author < n,
            forall|k: int| 0 <= k < i ==> (#[trigger] b.ancestors@[k]).round < b.round,
            saw_prev_round <==> exists|k: int|
                0 <= k < i && (#[trigger] b.ancestors@[k]).round == b.round - 1,
        decreases b.ancestors@.len() - i,
    {
        let a = b.ancestors[i];
        if a.author >= n {
            return false;
        }
        if a.round >= b.round {
            return false;
        }
        if a.round == b.round - 1 {
            saw_prev_round = true;
        }
        i += 1;
    }
    if !saw_prev_round {
        return false;
    }
    let mut p: usize = 0;
    while p < b.ancestors.len()
        invariant
            0 <= p <= b.ancestors@.len(),
            forall|x: int, y: int|
                0 <= x < y < b.ancestors@.len() && x < p
                    ==> (#[trigger] b.ancestors@[x]).author != (#[trigger] b.ancestors@[y]).author,
        decreases b.ancestors@.len() - p,
    {
        let mut q: usize = p + 1;
        while q < b.ancestors.len()
            invariant
                0 <= p < q <= b.ancestors@.len(),
                forall|y: int|
                    p < y < q ==> b.ancestors@[p as int].author != (#[trigger] b.ancestors@[y]).author,
                forall|x: int, y: int|
                    0 <= x < y < b.ancestors@.len() && x < p
                        ==> (#[trigger] b.ancestors@[x]).author != (#[trigger] b.ancestors@[y]).author,
            decreases b.ancestors@.len() - q,
        {
            if b.ancestors[p].author == b.ancestors[q].author {
                return false;
            }
            q += 1;
        }
        p += 1;
    }
    true
}

} // verus!

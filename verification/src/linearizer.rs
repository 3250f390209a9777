//! Materializing a commit's sub-DAG: starting at a leader, walk all
//! not-yet-committed causal ancestors and order them by a fixed
//! deterministic rule (round ascending, then author), so that every honest
//! node computes the identical ordering for the same commit index.

use vstd::prelude::*;
use crate::types::{Block, BlockRef};
use crate::dag::DagState;

verus! {

/// Does the list hold this reference? (exec mirror of `Seq::contains`)
pub fn refs_contain(v: &Vec<BlockRef>, r: &BlockRef) -> (out: bool)
    ensures
        out == v@.contains(*r),
{
    let mut i: usize = 0;
    while i < v.len()
        invariant
            0 <= i <= v@.len(),
            forall|k: int| 0 <= k < i ==> v@[k] != *r,
        decreases v@.len() - i,
    {
        if v[i].author == r.author && v[i].round == r.round && v[i].digest == r.digest {
            assert(v@[i as int] == *r);
            return true;
        }
        i += 1;
    }
    false
}

pub proof fn lemma_push_contains(s: Seq<BlockRef>, x: BlockRef)
    ensures
        forall|y: BlockRef| s.contains(y) ==> #[trigger] s.push(x).contains(y),
        s.push(x).contains(x),
        forall|y: BlockRef| #[trigger] s.push(x).contains(y) ==> s.contains(y) || y == x,
{
    assert forall|y: BlockRef| s.contains(y) implies #[trigger] s.push(x).contains(y) by {
        let i = choose|i: int| 0 <= i < s.len() && s[i] == y;
        assert(s.push(x)[i] == y);
    };
    assert(s.push(x)[s.len() as int] == x);
    assert forall|y: BlockRef| #[trigger] s.push(x).contains(y) implies s.contains(y) || y == x by {
        let i = choose|i: int| 0 <= i < s.push(x).len() && s.push(x)[i] == y;
        if i < s.len() {
            assert(s[i] == y);
        }
    };
}

/// In a well-formed DAG two stored references with the same author and
/// round are the same reference.
pub proof fn lemma_unique_author_round(d: DagState, r1: BlockRef, r2: BlockRef)
    requires
        d.wf(),
        d.contains_ref(r1),
        d.contains_ref(r2),
        r1.author == r2.author,
        r1.round == r2.round,
    ensures
        r1 == r2,
{
    let i = choose|i: int| 0 <= i < d.blocks@.len() && (#[trigger] d.blocks@[i]).spec_reference() == r1;
    let j = choose|j: int| 0 <= j < d.blocks@.len() && (#[trigger] d.blocks@[j]).spec_reference() == r2;
    if i != j {
        assert(d.blocks@[i].author == d.blocks@[j].author && d.blocks@[i].round == d.blocks@[j].round);
    }
}

/// Every ancestor of every block of `s` (all of whose members are stored in
/// `d`) is itself in `s` or already committed.
pub open spec fn closed_under_ancestors(d: DagState, committed: Seq<BlockRef>, s: Seq<BlockRef>) -> bool {
    forall|i: int, k: int|
        0 <= i < d.blocks@.len() && s.contains((#[trigger] d.blocks@[i]).spec_reference())
            && 0 <= k < d.blocks@[i].ancestors@.len()
            ==> committed.contains(#[trigger] d.blocks@[i].ancestors@[k])
                || s.contains(d.blocks@[i].ancestors@[k])
}

/// `r` appears among the ancestors of some block whose reference is in `s`.
pub open spec fn is_ancestor_of_member(d: DagState, s: Seq<BlockRef>, r: BlockRef) -> bool {
    exists|i: int, k: int|
        0 <= i < d.blocks@.len() && s.contains(d.blocks@[i].spec_reference())
            && 0 <= k < d.blocks@[i].ancestors@.len()
            && #[trigger] d.blocks@[i].ancestors@[k] == r
}

/// Strict (round, author) lexicographic order: the canonical sub-DAG order.
pub open spec fn refs_ordered(s: Seq<BlockRef>) -> bool {
    forall|p: int, q: int|
        0 <= p < q < s.len()
            ==> ((#[trigger] s[p]).round < (#[trigger] s[q]).round
                || (s[p].round == s[q].round && s[p].author < s[q].author))
}

pub open spec fn refs_distinct(s: Seq<BlockRef>) -> bool {
    forall|p: int, q: int| 0 <= p < q < s.len() ==> #[trigger] s[p] != #[trigger] s[q]
}

/// Walk the not-yet-committed causal history of `leader` in `d`, and return
/// it ordered by round ascending then author ascending. The result holds
/// the leader, only uncommitted stored references, no duplicates, and is
/// closed under uncommitted ancestors — so it is exactly the uncommitted
/// part of the leader's causal cone.
#[verifier::rlimit(100)]
#[verifier::spinoff_prover]
pub fn collect_sub_dag(d: &DagState, committed: &Vec<BlockRef>, leader: BlockRef) -> (out: Vec<
    BlockRef,
>)
    requires
        d.wf(),
        d.contains_ref(leader),
        !committed@.contains(leader),
        leader.round < u64::MAX,
    ensures
        out@.contains(leader),
        forall|t: int|
            0 <= t < out@.len()
                ==> d.contains_ref(#[trigger] out@[t]) && !committed@.contains(out@[t]),
        refs_distinct(out@),
        refs_ordered(out@),
        closed_under_ancestors(*d, committed@, out@),
        forall|t: int|
            0 <= t < out@.len()
                ==> #[trigger] out@[t] == leader || is_ancestor_of_member(*d, out@, out@[t]),
        forall|t: int| 0 <= t < out@.len() ==> (#[trigger] out@[t]).round <= leader.round,
    {
    let mut acc: Vec<BlockRef> = Vec::new();
    acc.push(leader);
    proof {
        assert(acc@[0] == leader);
    }
    let mut rr: u64 = leader.round;
    while rr > 0
        invariant
            d.wf(),
            !committed@.contains(leader),
            acc@.contains(leader),
            rr <= leader.round,
            forall|t: int|
                0 <= t < acc@.len()
                    ==> d.contains_ref(#[trigger] acc@[t]) && !committed@.contains(acc@[t]),
            refs_distinct(acc@),
            forall|t: int| 0 <= t < acc@.len() ==> (#[trigger] acc@[t]).round <= leader.round,
            forall|t: int|
                0 <= t < acc@.len()
                    ==> #[trigger] acc@[t] == leader || is_ancestor_of_member(*d, acc@, acc@[t]),
            // everything above the current round is fully processed
            forall|i: int, k: int|
                0 <= i < d.blocks@.len() && acc@.contains((#[trigger] d.blocks@[i]).spec_reference())
                    && d.blocks@[i].round > rr && 0 <= k < d.blocks@[i].ancestors@.len()
                    ==> committed@.contains(#[trigger] d.blocks@[i].ancestors@[k])
                        || acc@.contains(d.blocks@[i].ancestors@[k]),
        decreases rr,
    {
        let len0 = acc.len();
        let mut idx: usize = 0;
        while idx < len0
            invariant
                d.wf(),
                !committed@.contains(leader),
                acc@.contains(leader),
                0 < rr <= leader.round,
                0 <= idx <= len0 <= acc@.len(),
                forall|t: int|
                    0 <= t < acc@.len()
                        ==> d.contains_ref(#[trigger] acc@[t]) && !committed@.contains(acc@[t]),
                refs_distinct(acc@),
                forall|t: int| 0 <= t < acc@.len() ==> (#[trigger] acc@[t]).round <= leader.round,
                forall|t: int|
                    0 <= t < acc@.len()
                        ==> #[trigger] acc@[t] == leader || is_ancestor_of_member(*d, acc@, acc@[t]),
                // newly appended members sit strictly below the current round
                forall|t: int| len0 <= t < acc@.len() ==> (#[trigger] acc@[t]).round < rr,
                // processed: everything above rr, and the round-rr members
                // already visited
                forall|i: int, k: int|
                    0 <= i < d.blocks@.len()
                        && acc@.contains((#[trigger] d.blocks@[i]).spec_reference())
                        && (d.blocks@[i].round > rr || (d.blocks@[i].round == rr
                            && exists|t: int|
                                0 <= t < idx
                                    && acc@[t] == d.blocks@[i].spec_reference()))
                        && 0 <= k < d.blocks@[i].ancestors@.len()
                        ==> committed@.contains(#[trigger] d.blocks@[i].ancestors@[k])
                            || acc@.contains(d.blocks@[i].ancestors@[k]),
            decreases len0 - idx,
        {
            let r = acc[idx];
            if r.round == rr {
                let blk_opt = d.get(&r);
                match blk_opt {
                    None => {
                        proof {
                            assert(d.contains_ref(acc@[idx as int]));
                            assert(false);
                        }
                    },
                    Some(blk) => {
                        let ghost blk_i = choose|i: int|
                            0 <= i < d.blocks@.len() && *blk == #[trigger] d.blocks@[i];
                        let mut k: usize = 0;
                        while k < blk.ancestors.len()
                            invariant
                                d.wf(),
                                !committed@.contains(leader),
                                acc@.contains(leader),
                                0 < rr <= leader.round,
                                0 <= idx < len0 <= acc@.len(),
                                0 <= k <= blk.ancestors@.len(),
                                0 <= blk_i < d.blocks@.len(),
                                *blk == d.blocks@[blk_i],
                                blk.spec_reference() == acc@[idx as int],
                                acc@[idx as int].round == rr,
                                blk.round == rr,
                                forall|t: int|
                                    0 <= t < acc@.len()
                                        ==> d.contains_ref(#[trigger] acc@[t])
                                            && !committed@.contains(acc@[t]),
                                refs_distinct(acc@),
                                forall|t: int|
                                    0 <= t < acc@.len() ==> (#[trigger] acc@[t]).round <= leader.round,
                                forall|t: int|
                                    0 <= t < acc@.len()
                                        ==> #[trigger] acc@[t] == leader
                                            || is_ancestor_of_member(*d, acc@, acc@[t]),
                                forall|t: int| len0 <= t < acc@.len() ==> (#[trigger] acc@[t]).round < rr,
                                // ancestors of the current block visited so far
                                forall|k2: int|
                                    0 <= k2 < k
                                        ==> committed@.contains(#[trigger] blk.ancestors@[k2])
                                            || acc@.contains(blk.ancestors@[k2]),
                                forall|i: int, k2: int|
                                    0 <= i < d.blocks@.len()
                                        && acc@.contains((#[trigger] d.blocks@[i]).spec_reference())
                                        && (d.blocks@[i].round > rr || (d.blocks@[i].round == rr
                                            && exists|t: int|
                                                0 <= t < idx
                                                    && acc@[t] == d.blocks@[i].spec_reference()))
                                        && 0 <= k2 < d.blocks@[i].ancestors@.len()
                                        ==> committed@.contains(#[trigger] d.blocks@[i].ancestors@[k2])
                                            || acc@.contains(d.blocks@[i].ancestors@[k2]),
                            decreases blk.ancestors@.len() - k,
                        {
                            let a = blk.ancestors[k];
                            if !refs_contain(committed, &a) && !refs_contain(&acc, &a) {
                                let ghost prev = acc@;
                                acc.push(a);
                                proof {
                                    lemma_push_contains(prev, a);
                                    assert(d.blocks@[blk_i].structurally_valid(d.committee_size));
                                    assert(d.blocks@[blk_i].ancestors@[k as int] == a);
                                    assert(a.round < rr);
                                    assert(d.contains_ref(a));
                                    assert forall|t: int|
                                        0 <= t < acc@.len()
                                        implies #[trigger] acc@[t] == leader
                                            || is_ancestor_of_member(*d, acc@, acc@[t]) by {
                                        if t < prev.len() {
                                            assert(acc@[t] == prev[t]);
                                            if prev[t] != leader {
                                                let (i2, k2): (int, int) = choose|i2: int, k2: int|
                                                    0 <= i2 < d.blocks@.len()
                                                        && prev.contains(d.blocks@[i2].spec_reference())
                                                        && 0 <= k2 < d.blocks@[i2].ancestors@.len()
                                                        && #[trigger] d.blocks@[i2].ancestors@[k2]
                                                            == prev[t];
                                                assert(acc@.contains(d.blocks@[i2].spec_reference()));
                                                assert(is_ancestor_of_member(*d, acc@, acc@[t]));
                                            }
                                        } else {
                                            assert(acc@[t] == a);
                                            assert(acc@.contains(d.blocks@[blk_i].spec_reference()));
                                            assert(is_ancestor_of_member(*d, acc@, a));
                                        }
                                    };
                                }
                            }
                            k += 1;
                        }
                        proof {
                            // the current member is now fully processed
                            assert forall|i: int, k2: int|
                                0 <= i < d.blocks@.len()
                                    && acc@.contains((#[trigger] d.blocks@[i]).spec_reference())
                                    && (d.blocks@[i].round > rr || (d.blocks@[i].round == rr
                                        && exists|t: int|
                                            0 <= t < idx + 1
                                                && acc@[t] == d.blocks@[i].spec_reference()))
                                    && 0 <= k2 < d.blocks@[i].ancestors@.len()
                                implies committed@.contains(#[trigger] d.blocks@[i].ancestors@[k2])
                                    || acc@.contains(d.blocks@[i].ancestors@[k2]) by {
                                if d.blocks@[i].round == rr && !(exists|t: int|
                                    0 <= t < idx && acc@[t] == d.blocks@[i].spec_reference()) {
                                    let t = choose|t: int|
                                        0 <= t < idx + 1 && acc@[t] == d.blocks@[i].spec_reference();
                                    assert(t == idx);
                                    assert(d.blocks@[i].spec_reference() == acc@[idx as int]);
                                    // same reference, same stored block
                                    assert(d.blocks@[i] == d.blocks@[blk_i]) by {
                                        if i != blk_i {
                                            assert(d.blocks@[i].author == d.blocks@[blk_i].author
                                                && d.blocks@[i].round == d.blocks@[blk_i].round);
                                        }
                                    };
                                }
                            };
                        }
                    },
                }
            }
            idx += 1;
        }
        rr -= 1;
        proof {
            assert forall|i: int, k: int|
                0 <= i < d.blocks@.len() && acc@.contains((#[trigger] d.blocks@[i]).spec_reference())
                    && d.blocks@[i].round > rr && 0 <= k < d.blocks@[i].ancestors@.len()
                implies committed@.contains(#[trigger] d.blocks@[i].ancestors@[k])
                    || acc@.contains(d.blocks@[i].ancestors@[k]) by {
                if d.blocks@[i].round == rr + 1 {
                    let t = choose|t: int|
                        0 <= t < acc@.len() && acc@[t] == d.blocks@[i].spec_reference();
                    assert(acc@[t].round == rr + 1);
                    assert(t < len0);
                }
            };
        }
    }
    proof {
        // round-0 members are genesis-shaped: no ancestors at all
        assert(closed_under_ancestors(*d, committed@, acc@)) by {
            assert forall|i: int, k: int|
                0 <= i < d.blocks@.len() && acc@.contains((#[trigger] d.blocks@[i]).spec_reference())
                    && 0 <= k < d.blocks@[i].ancestors@.len()
                implies committed@.contains(#[trigger] d.blocks@[i].ancestors@[k])
                    || acc@.contains(d.blocks@[i].ancestors@[k]) by {
                if d.blocks@[i].round == 0 {
                    assert(d.blocks@[i].structurally_valid(d.committee_size));
                    assert(d.blocks@[i].ancestors@.len() == 0);
                }
            };
        };
    }
    let out = order_by_round_author(d, &acc, leader);
    proof {
        assert forall|t: int|
            0 <= t < out@.len()
            implies d.contains_ref(#[trigger] out@[t]) && !committed@.contains(out@[t])
                && out@[t].round <= leader.round by {
            assert(out@.contains(out@[t]));
            assert(acc@.contains(out@[t]));
            let t2 = choose|t2: int| 0 <= t2 < acc@.len() && acc@[t2] == out@[t];
        };
        assert(closed_under_ancestors(*d, committed@, out@)) by {
            assert forall|i: int, k: int|
                0 <= i < d.blocks@.len()
                    && out@.contains((#[trigger] d.blocks@[i]).spec_reference())
                    && 0 <= k < d.blocks@[i].ancestors@.len()
                implies committed@.contains(#[trigger] d.blocks@[i].ancestors@[k])
                    || out@.contains(d.blocks@[i].ancestors@[k]) by {
                assert(acc@.contains(d.blocks@[i].spec_reference()));
            };
        };
        assert forall|t: int|
            0 <= t < out@.len()
            implies #[trigger] out@[t] == leader || is_ancestor_of_member(*d, out@, out@[t]) by {
            assert(out@.contains(out@[t]));
            assert(acc@.contains(out@[t]));
            let t2 = choose|t2: int| 0 <= t2 < acc@.len() && acc@[t2] == out@[t];
            if acc@[t2] != leader {
                let (i2, k2): (int, int) = choose|i2: int, k2: int|
                    0 <= i2 < d.blocks@.len() && acc@.contains(d.blocks@[i2].spec_reference())
                        && 0 <= k2 < d.blocks@[i2].ancestors@.len()
                        && #[trigger] d.blocks@[i2].ancestors@[k2] == acc@[t2];
                assert(out@.contains(d.blocks@[i2].spec_reference()));
                assert(is_ancestor_of_member(*d, out@, out@[t]));
            }
        };
    }
    out
}

/// Index of a member with this round and author, if one exists.
fn find_at(acc: &Vec<BlockRef>, r2: u64, a: u64) -> (out: Option<usize>)
    ensures
        match out {
            Some(t) => 0 <= t < acc@.len() && acc@[t as int].round == r2
                && acc@[t as int].author == a,
            None => forall|t2: int|
                0 <= t2 < acc@.len()
                    ==> !((#[trigger] acc@[t2]).round == r2 && acc@[t2].author == a),
        },
{
    let mut t: usize = 0;
    while t < acc.len()
        invariant
            0 <= t <= acc@.len(),
            forall|t2: int|
                0 <= t2 < t ==> !((#[trigger] acc@[t2]).round == r2 && acc@[t2].author == a),
        decreases acc@.len() - t,
    {
        if acc[t].round == r2 && acc[t].author == a {
            return Some(t);
        }
        t += 1;
    }
    None
}

/// Emit the collected cone in (round, author) ascending order.
fn order_by_round_author(d: &DagState, acc: &Vec<BlockRef>, leader: BlockRef) -> (out: Vec<BlockRef>)
    requires
        d.wf(),
        acc@.contains(leader),
        leader.round < u64::MAX,
        forall|t: int| 0 <= t < acc@.len() ==> d.contains_ref(#[trigger] acc@[t]),
        refs_distinct(acc@),
        forall|t: int| 0 <= t < acc@.len() ==> (#[trigger] acc@[t]).round <= leader.round,
    ensures
        forall|r: BlockRef| acc@.contains(r) <==> out@.contains(r),
        refs_distinct(out@),
        refs_ordered(out@),
        out@.len() == acc@.len(),
{
    let mut out: Vec<BlockRef> = Vec::new();
    let mut r2: u64 = 0;
    // one round past the leader's, so the leader's own round is included
    while r2 <= leader.round
        invariant
            d.wf(),
            forall|t: int| 0 <= t < acc@.len() ==> d.contains_ref(#[trigger] acc@[t]),
            refs_distinct(acc@),
            r2 <= leader.round + 1,
            leader.round < u64::MAX,
            // out holds exactly the members with round < r2
            forall|t: int| 0 <= t < out@.len() ==> acc@.contains(#[trigger] out@[t]),
            forall|t: int| 0 <= t < out@.len() ==> (#[trigger] out@[t]).round < r2,
            forall|t: int|
                0 <= t < acc@.len() && (#[trigger] acc@[t]).round < r2 ==> out@.contains(acc@[t]),
            refs_distinct(out@),
            refs_ordered(out@),
        decreases leader.round + 1 - r2,
    {
        let mut a: u64 = 0;
        let n = d.committee_size;
        while a < n
            invariant
                d.wf(),
                n == d.committee_size,
                forall|t: int| 0 <= t < acc@.len() ==> d.contains_ref(#[trigger] acc@[t]),
                refs_distinct(acc@),
                r2 <= leader.round + 1,
                a <= n,
                forall|t: int| 0 <= t < out@.len() ==> acc@.contains(#[trigger] out@[t]),
                forall|t: int|
                    0 <= t < out@.len()
                        ==> (#[trigger] out@[t]).round < r2
                            || (out@[t].round == r2 && out@[t].author < a),
                forall|t: int|
                    0 <= t < acc@.len() && (#[trigger] acc@[t]).round < r2 ==> out@.contains(acc@[t]),
                forall|t: int|
                    0 <= t < acc@.len() && (#[trigger] acc@[t]).round == r2 && acc@[t].author < a
                        ==> out@.contains(acc@[t]),
                refs_distinct(out@),
                refs_ordered(out@),
            decreases n - a,
        {
            let found = find_at(acc, r2, a);
            if let Some(t) = found {
                let e = acc[t];
                proof {
                    assert(e == acc@[t as int]);
                    assert(e.round == r2 && e.author == a);
                    assert(!out@.contains(e)) by {
                        if out@.contains(e) {
                            let p = choose|p: int| 0 <= p < out@.len() && out@[p] == e;
                            assert(out@[p].round < r2 || out@[p].author < a);
                        }
                    };
                    let ghost prev = out@;
                    assert forall|t2: int|
                        0 <= t2 < acc@.len() && (#[trigger] acc@[t2]).round == r2
                            && acc@[t2].author == a implies acc@[t2] == e by {
                        lemma_unique_author_round(*d, acc@[t2], e);
                    };
                }
                let ghost prev = out@;
                out.push(e);
                proof {
                    lemma_push_contains(prev, e);
                    assert forall|t2: int|
                        0 <= t2 < acc@.len() && (#[trigger] acc@[t2]).round == r2
                            && acc@[t2].author < a + 1 implies out@.contains(acc@[t2]) by {
                        if acc@[t2].author < a {
                            assert(prev.contains(acc@[t2]));
                        } else {
                            lemma_unique_author_round(*d, acc@[t2], e);
                            assert(out@.contains(e));
                        }
                    };
                }
            } else {
                proof {
                    assert forall|t2: int|
                        0 <= t2 < acc@.len() && (#[trigger] acc@[t2]).round == r2
                            && acc@[t2].author < a + 1 implies out@.contains(acc@[t2]) by {
                        if acc@[t2].author == a {
                            assert(false);
                        }
                    };
                }
            }
            a += 1;
        }
        proof {
            assert forall|t: int|
                0 <= t < acc@.len() && (#[trigger] acc@[t]).round < r2 + 1
                implies out@.contains(acc@[t]) by {
                if acc@[t].round == r2 {
                    // every committee member's slot was scanned; authors of
                    // stored blocks lie below the committee size
                    let i = choose|i: int|
                        0 <= i < d.blocks@.len()
                            && (#[trigger] d.blocks@[i]).spec_reference() == acc@[t];
                    assert(d.blocks@[i].structurally_valid(d.committee_size));
                    assert(acc@[t].author < d.committee_size);
                }
            };
        }
        r2 += 1;
    }
    proof {
        assert forall|r: BlockRef| acc@.contains(r) implies out@.contains(r) by {
            let t = choose|t: int| 0 <= t < acc@.len() && acc@[t] == r;
            assert(acc@[t].round <= leader.round);
        };
        assert forall|r: BlockRef| out@.contains(r) implies acc@.contains(r) by {
            let t = choose|t: int| 0 <= t < out@.len() && out@[t] == r;
        };
        // a bijection between distinct sequences with the same members
        // preserves length
        lemma_same_members_same_len(acc@, out@);
    }
    out
}

/// Two duplicate-free sequences with the same members have the same length.
pub proof fn lemma_same_members_same_len(a: Seq<BlockRef>, b: Seq<BlockRef>)
    requires
        refs_distinct(a),
        refs_distinct(b),
        forall|r: BlockRef| a.contains(r) <==> b.contains(r),
    ensures
        a.len() == b.len(),
    decreases a.len(),
{
    if a.len() == 0 {
        if b.len() > 0 {
            assert(b.contains(b[0]));
        }
    } else {
        let x = a.last();
        assert(a.contains(x));
        let bi = choose|bi: int| 0 <= bi < b.len() && b[bi] == x;
        let a2 = a.drop_last();
        let b2 = b.remove(bi);
        b.remove_ensures(bi);
        assert(refs_distinct(a2)) by {
            assert(forall|p: int, q: int|
                0 <= p < q < a2.len() ==> #[trigger] a2[p] == a[p] && #[trigger] a2[q] == a[q]);
        };
        assert(refs_distinct(b2)) by {
            assert forall|p: int, q: int| 0 <= p < q < b2.len() implies #[trigger] b2[p]
                != #[trigger] b2[q] by {
                let p2: int = if p < bi { p } else { p + 1 };
                let q2: int = if q < bi { q } else { q + 1 };
                assert(b2[p] == b[p2] && b2[q] == b[q2]);
            };
        };
        assert forall|r: BlockRef| a2.contains(r) implies b2.contains(r) by {
            let i = choose|i: int| 0 <= i < a2.len() && a2[i] == r;
            assert(a[i] == r);
            assert(r != x);
            assert(b.contains(r));
            let j = choose|j: int| 0 <= j < b.len() && b[j] == r;
            assert(j != bi);
            if j < bi {
                assert(b2[j] == r);
            } else {
                assert(b2[j - 1] == r);
            }
        };
        assert forall|r: BlockRef| b2.contains(r) implies a2.contains(r) by {
            let i = choose|i: int| 0 <= i < b2.len() && b2[i] == r;
            let i2: int = if i < bi { i } else { i + 1 };
            assert(b[i2] == r);
            assert(r != x) by {
                if r == x {
                    assert(b[bi] == x);
                }
            };
            assert(a.contains(r));
            let j = choose|j: int| 0 <= j < a.len() && a[j] == r;
            assert(j != a.len() - 1);
            assert(a2[j] == r);
        };
        lemma_same_members_same_len(a2, b2);
    }
}

} // verus!

use consensus_core::block_manager::{AdmitOutcome, RejectReason};
use consensus_core::commit_syncer::CommitSyncer;
use consensus_core::consensus::Core;
use consensus_core::types::{Block, BlockRef};

fn genesis_refs(n: u64) -> Vec<BlockRef> {
    (0..n).map(|a| BlockRef { author: a, round: 0, digest: 0 }).collect()
}

fn block(author: u64, round: u64, digest: u64, ancestors: Vec<BlockRef>) -> Block {
    Block {
        author,
        round,
        timestamp_ms: 0,
        ancestors,
        transactions: Vec::new(),
        digest,
        signature: 1,
    }
}

#[test]
fn round_one_quorum_advances_clock() {
    let mut core = Core::new(4, 0, 1000, 10000);
    assert_eq!(core.current_round, 1);
    for a in 0..4 {
        let b = block(a, 1, 100 + a, genesis_refs(4));
        match core.add_block(b, true, 0) {
            AdmitOutcome::Accepted(list) => assert_eq!(list.len(), 1),
            other => panic!("expected acceptance, got {:?}", other),
        }
    }
    assert_eq!(core.current_round, 2);
}

#[test]
fn partial_round_does_not_advance_clock() {
    let mut core = Core::new(4, 0, 1000, 10000);
    for a in 1..3 {
        let b = block(a, 1, 100 + a, genesis_refs(4));
        core.add_block(b, true, 0);
    }
    assert_eq!(core.current_round, 1);
}

#[test]
fn forced_proposal_cites_available_ancestors() {
    let mut core = Core::new(4, 0, 1000, 10000);
    let r1: Vec<BlockRef> = (1..3)
        .map(|a| {
            let b = block(a, 1, 100 + a, genesis_refs(4));
            core.add_block(b, true, 0);
            BlockRef { author: a, round: 1, digest: 100 + a }
        })
        .collect();
    // only 2 of 4 round-1 blocks arrived: no quorum, clock still at 1
    assert_eq!(core.current_round, 1);
    let p = core.force_propose(Vec::new(), 5, 777, 1).expect("forced proposal");
    assert!(p.forced);
    assert_eq!(p.reference.round, 2);
    let blk = core.dag.get(&p.reference).expect("stored").clone();
    for r in &r1 {
        assert!(blk.ancestors.contains(r));
    }
    assert_eq!(blk.ancestors.len(), 4); // two round-1 blocks, two genesis
}

#[test]
fn equivocation_rejected() {
    let mut core = Core::new(4, 0, 1000, 10000);
    let b1 = block(1, 1, 100, genesis_refs(4));
    let b2 = block(1, 1, 999, genesis_refs(4));
    assert!(matches!(core.add_block(b1, true, 0), AdmitOutcome::Accepted(_)));
    assert!(matches!(
        core.add_block(b2, true, 0),
        AdmitOutcome::Rejected(RejectReason::Equivocation)
    ));
}

#[test]
fn invalid_block_rejected() {
    let mut core = Core::new(4, 0, 1000, 10000);
    // bad signature verdict
    let b = block(1, 1, 100, genesis_refs(4));
    assert!(matches!(
        core.add_block(b, false, 0),
        AdmitOutcome::Rejected(RejectReason::InvalidBlock)
    ));
    // malformed round
    let b = block(1, 5, 100, genesis_refs(4));
    assert!(matches!(
        core.add_block(b, true, 0),
        AdmitOutcome::Rejected(RejectReason::InvalidBlock)
    ));
}

#[test]
fn future_timestamp_delayed_then_rejected() {
    let mut core = Core::new(4, 0, 1000, 10000);
    let mut b = block(1, 1, 100, genesis_refs(4));
    b.timestamp_ms = 5000;
    match core.add_block(b, true, 0) {
        AdmitOutcome::TryLater(wait) => assert_eq!(wait, 4000),
        other => panic!("expected delay, got {:?}", other),
    }
    let mut b = block(1, 1, 100, genesis_refs(4));
    b.timestamp_ms = 50000;
    assert!(matches!(
        core.add_block(b, true, 0),
        AdmitOutcome::Rejected(RejectReason::FutureTimestamp)
    ));
}

#[test]
fn suspended_block_unsuspends_when_ancestor_arrives() {
    let mut core = Core::new(4, 0, 1000, 10000);
    for a in 0..4 {
        core.add_block(block(a, 1, 100 + a, genesis_refs(4)), true, 0);
    }
    // a round-2 block citing a round-1 ancestor never seen locally
    let unseen = BlockRef { author: 3, round: 1, digest: 555 };
    let mut ancs = vec![
        BlockRef { author: 0, round: 1, digest: 100 },
        BlockRef { author: 1, round: 1, digest: 101 },
    ];
    ancs.push(unseen);
    let b = block(2, 2, 200, ancs);
    match core.add_block(b, true, 0) {
        AdmitOutcome::Suspended(missing) => assert_eq!(missing, vec![unseen]),
        other => panic!("expected suspension, got {:?}", other),
    }
    assert_eq!(core.block_manager.suspended_count(), 1);
    // equivocation check: digest 555 conflicts with author 3's accepted
    // round-1 block, so rebuild the scenario with a fresh author slot
    let mut core = Core::new(4, 0, 1000, 10000);
    for a in 0..3 {
        core.add_block(block(a, 1, 100 + a, genesis_refs(4)), true, 0);
    }
    let unseen = BlockRef { author: 3, round: 1, digest: 555 };
    let b = block(2, 2, 200, vec![
        BlockRef { author: 0, round: 1, digest: 100 },
        unseen,
    ]);
    assert!(matches!(core.add_block(b, true, 0), AdmitOutcome::Suspended(_)));
    // the missing ancestor arrives (e.g. fetched by the synchronizer)
    let anc = block(3, 1, 555, genesis_refs(4));
    match core.add_block(anc, true, 0) {
        AdmitOutcome::Accepted(list) => {
            assert_eq!(list.len(), 2);
            assert_eq!(list[1], BlockRef { author: 2, round: 2, digest: 200 });
        }
        other => panic!("expected cascade, got {:?}", other),
    }
    assert_eq!(core.block_manager.suspended_count(), 0);
    // round == 1 + max ancestor round for the unsuspended block
    let stored = core
        .dag
        .get(&BlockRef { author: 2, round: 2, digest: 200 })
        .expect("admitted");
    let max_anc = stored.ancestors.iter().map(|a| a.round).max().unwrap();
    assert_eq!(stored.round, 1 + max_anc);
}

#[test]
fn admission_is_idempotent() {
    let mut core = Core::new(4, 0, 1000, 10000);
    let b = block(1, 1, 100, genesis_refs(4));
    assert!(matches!(core.add_block(b.clone(), true, 0), AdmitOutcome::Accepted(_)));
    let before = core.dag.blocks.len();
    match core.add_block(b, true, 0) {
        AdmitOutcome::Accepted(list) => assert!(list.is_empty()),
        other => panic!("expected idempotent acceptance, got {:?}", other),
    }
    assert_eq!(core.dag.blocks.len(), before);
}

#[test]
fn commits_are_contiguous_from_one() {
    let mut core = Core::new(4, 0, 1000, 10000);
    // rounds 1..=4 fully connected: leaders of early rounds gain quorum votes
    let mut prev = genesis_refs(4);
    for round in 1..=4u64 {
        let mut this_round = Vec::new();
        for a in 0..4 {
            let d = round * 10 + a;
            core.add_block(block(a, round, d, prev.clone()), true, 0);
            this_round.push(BlockRef { author: a, round, digest: d });
        }
        prev = this_round;
    }
    let produced = core.try_commit();
    assert!(produced >= 1);
    for (i, c) in core.commits.iter().enumerate() {
        assert_eq!(c.index as usize, i + 1);
        assert!(c.sub_dag.contains(&c.leader));
    }
    // pairwise disjoint sub-DAGs
    for i in 0..core.commits.len() {
        for j in (i + 1)..core.commits.len() {
            for x in &core.commits[i].sub_dag {
                assert!(!core.commits[j].sub_dag.contains(x));
            }
        }
    }
}

#[test]
fn commit_syncer_applies_in_index_order() {
    // local commit index 10, network at 40: ranges are fetched in chunks
    // and applied strictly as 11, 12, ..., 40
    let mut s = CommitSyncer::new(10, 10, 4);
    s.observe_network_index(40);
    s.schedule_chunks();
    let reqs = s.next_requests();
    assert_eq!(reqs.len(), 3);
    let mk = |i: u64| consensus_core::types::Commit {
        index: i,
        leader: BlockRef { author: 0, round: i, digest: i },
        sub_dag: vec![BlockRef { author: 0, round: i, digest: i }],
        timestamp_ms: 0,
    };
    // chunks return out of network-arrival order
    let mut order: Vec<(u64, u64)> = reqs.clone();
    order.reverse();
    for (lo, hi) in order {
        let commits: Vec<_> = (lo..=hi).map(mk).collect();
        s.on_commits_fetched(lo, hi, commits);
    }
    let mut seen = Vec::new();
    while let Some(c) = s.pop_ready() {
        seen.push(c.index);
    }
    assert_eq!(seen, (11..=40).collect::<Vec<u64>>());
}

#[test]
fn streamer_tracks_consecutive_heights() {
    let mut st = consensus_core::streamer::FirehoseStreamer::new(7);
    assert_eq!(st.current_block_height, 7);
    st.start();
    st.block_emitted();
    st.block_emitted();
    assert_eq!(st.current_block_height, 9);
}

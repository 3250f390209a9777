//! The streaming cursor over finalized history: tracks the next block
//! height owed to the downstream consumer. The surrounding runtime does
//! the fetching and printing; the cursor guarantees the emitted heights
//! are consecutive.

use vstd::prelude::*;

verus! {

pub struct FirehoseStreamer {
    /// Height of the next block to emit downstream.
    pub current_block_height: u64,
    /// Whether the upstream handler has been connected yet.
    pub started: bool,
}

impl FirehoseStreamer {
    pub fn new(starting_block: u64) -> (s: FirehoseStreamer)
        ensures
            s.current_block_height == starting_block,
            !s.is_started(),
    {
        FirehoseStreamer { current_block_height: starting_block, started: false }
    }

    pub open spec fn is_started(self) -> bool {
        self.started
    }

    /// Mark the upstream handler as connected; emission may begin.
    pub fn start(&mut self)
        ensures
            final(self).is_started(),
            final(self).current_block_height == old(self).current_block_height,
    {
        self.started = true;
    }

    /// One block was emitted downstream: move to the next height, so the
    /// emitted sequence of heights is consecutive.
    pub fn block_emitted(&mut self)
        requires
            old(self).is_started(),
            old(self).current_block_height < u64::MAX,
        ensures
            final(self).current_block_height == old(self).current_block_height + 1,
            final(self).is_started(),
    {
        self.current_block_height = self.current_block_height + 1;
    }
}

} // verus!

//! How metric lines are gathered into payloads.

use vstd::prelude::*;

verus! {

/// Payloads without their length prefixes: those that are complete, in order, and the one that is
/// still being filled.
#[verifier::ext_equal]
pub struct Queue {
    pub closed: Seq<Seq<u8>>,
    pub open: Seq<u8>,
}

impl Queue {
    /// The queue that holds nothing.
    pub open spec fn nothing() -> Queue {
        Queue { closed: Seq::empty(), open: Seq::empty() }
    }

    /// Whether every payload is within `limit` bytes, and no complete payload is empty.
    pub open spec fn within(self, limit: nat) -> bool {
        &&& forall|i: int|
            0 <= i < self.closed.len() ==> 0 < (#[trigger] self.closed[i]).len() <= limit
        &&& self.open.len() <= limit
    }

    /// The queue after its open payload is completed. An empty payload is never completed.
    pub open spec fn finalized(self) -> Queue {
        if self.open.len() == 0 {
            self
        } else {
            Queue { closed: self.closed.push(self.open), open: Seq::empty() }
        }
    }

    /// The queue after `line` is added: to the open payload if that stays within `limit` bytes, to
    /// a new payload otherwise.
    pub open spec fn added(self, line: Seq<u8>, limit: nat) -> Queue {
        let queue = if self.open.len() + line.len() > limit {
            self.finalized()
        } else {
            self
        };
        Queue { closed: queue.closed, open: queue.open + line }
    }

    /// The queue after each of `lines` is added in turn.
    pub open spec fn added_all(self, lines: Seq<Seq<u8>>, limit: nat) -> Queue
        decreases lines.len(),
    {
        if lines.len() == 0 {
            self
        } else {
            self.added_all(lines.drop_last(), limit).added(lines.last(), limit)
        }
    }
}

/// Adding lines that are within the limit keeps every payload within it.
pub proof fn lemma_added_all_within(queue: Queue, lines: Seq<Seq<u8>>, limit: nat)
    requires
        queue.within(limit),
        forall|i: int| 0 <= i < lines.len() ==> (#[trigger] lines[i]).len() <= limit,
    ensures
        queue.added_all(lines, limit).within(limit),
    decreases lines.len(),
{
    if lines.len() > 0 {
        lemma_added_all_within(queue, lines.drop_last(), limit);
        assert(lines.last().len() <= limit);
    }
}

} // verus!

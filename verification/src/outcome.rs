//! What became of the points handed to a write.

use vstd::prelude::*;

verus! {

/// The counts that a [`WriteResult`] stands for.
pub struct Tally {
    pub payloads_written: nat,
    pub points_dropped: nat,
}

/// The outcome of one write: how many metric lines were written, and how many points were dropped.
pub struct WriteResult {
    payloads_written: u64,
    points_dropped: u64,
}

impl View for WriteResult {
    type V = Tally;

    closed spec fn view(&self) -> Tally {
        Tally {
            payloads_written: self.payloads_written as nat,
            points_dropped: self.points_dropped as nat,
        }
    }
}

impl WriteResult {
    /// The outcome of a write of which every point was written.
    pub(crate) fn success(payloads_written: u64) -> (result: Self)
        ensures
            result@ == (Tally { payloads_written: payloads_written as nat, points_dropped: 0 }),
    {
        WriteResult { payloads_written, points_dropped: 0 }
    }

    /// The outcome of a write of which no point was written.
    pub(crate) fn failure(points_dropped: u64) -> (result: Self)
        ensures
            result@ == (Tally { payloads_written: 0, points_dropped: points_dropped as nat }),
    {
        WriteResult { payloads_written: 0, points_dropped }
    }

    /// The outcome of a write that has not started.
    pub(crate) fn new() -> (result: Self)
        ensures
            result@ == (Tally { payloads_written: 0, points_dropped: 0 }),
    {
        WriteResult { payloads_written: 0, points_dropped: 0 }
    }

    /// Counts one more metric line.
    pub(crate) fn increment_payloads_written(&mut self)
        requires
            old(self)@.payloads_written < u64::MAX,
        ensures
            final(self)@ == (Tally {
                payloads_written: old(self)@.payloads_written + 1,
                ..old(self)@
            }),
    {
        self.payloads_written += 1;
    }

    /// Counts one more dropped point.
    pub(crate) fn increment_points_dropped(&mut self)
        requires
            old(self)@.points_dropped < u64::MAX,
        ensures
            final(self)@ == (Tally { points_dropped: old(self)@.points_dropped + 1, ..old(self)@ }),
    {
        self.points_dropped += 1;
    }

    /// Counts `count` more dropped points.
    pub(crate) fn increment_points_dropped_by(&mut self, count: u64)
        requires
            old(self)@.points_dropped + count <= u64::MAX,
        ensures
            final(self)@ == (Tally {
                points_dropped: old(self)@.points_dropped + count as nat,
                ..old(self)@
            }),
    {
        self.points_dropped += count;
    }

    /// Whether any point was dropped.
    pub fn any_failures(&self) -> (failed: bool)
        ensures
            failed == (self@.points_dropped != 0),
    {
        self.points_dropped != 0
    }

    /// The number of metric lines written.
    pub fn payloads_written(&self) -> (count: u64)
        ensures
            count == self@.payloads_written,
    {
        self.payloads_written
    }

    /// The number of points dropped.
    pub fn points_dropped(&self) -> (count: u64)
        ensures
            count == self@.points_dropped,
    {
        self.points_dropped
    }
}

} // verus!

use vstd::prelude::*;

verus! {

/// Per-tick clock for the server: counts frames and decides which of
/// them carry a full snapshot rather than a delta against the last
/// reference snapshot.
pub struct NetworkController {
    pub frame: u32,
    pub snapshot_frequency: u32,
}

impl NetworkController {
    /// A controller is usable only with a non-zero snapshot cadence.
    pub open spec fn wf(&self) -> bool {
        self.snapshot_frequency > 0
    }

    pub fn new(snapshot_frequency: u32) -> (r: Self)
        requires
            snapshot_frequency > 0,
        ensures
            r.frame == 0,
            r.snapshot_frequency == snapshot_frequency,
            r.wf(),
    {
        NetworkController { frame: 0, snapshot_frequency }
    }

    /// Advance the clock by one frame.
    pub fn tick(&mut self)
        requires
            old(self).frame < u32::MAX,
        ensures
            final(self).frame == old(self).frame + 1,
            final(self).snapshot_frequency == old(self).snapshot_frequency,
    {
        self.frame = self.frame + 1;
    }

    /// A snapshot frame is one whose number is a multiple of the
    /// snapshot frequency; every other frame carries a delta.
    pub fn is_snapshot_frame(&self) -> (r: bool)
        requires
            self.wf(),
        ensures
            r == (self.frame % self.snapshot_frequency == 0),
    {
        self.frame % self.snapshot_frequency == 0
    }
}

} // verus!

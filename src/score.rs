use vstd::prelude::*;

verus! {

/// The running score and the best score reached so far.
#[derive(Clone, Copy, Debug, PartialEq, Eq, Structural)]
pub struct Score {
    pub current: u32,
    pub best: u32,
}

/// `current + delta`, held at the largest `u32`.
pub open spec fn saturated(current: u32, delta: u32) -> u32 {
    if current + delta > u32::MAX {
        u32::MAX
    } else {
        (current + delta) as u32
    }
}

impl Score {
    pub open spec fn wf(self) -> bool {
        self.best >= self.current
    }

    pub fn new() -> (r: Score)
        ensures
            r.current == 0,
            r.best == 0,
    {
        Score { current: 0, best: 0 }
    }

    /// Adds `delta` to the running score and raises the best score to it.
    pub fn apply(&mut self, delta: u32)
        ensures
            final(self).current == saturated(old(self).current, delta),
            final(self).best == if old(self).best >= final(self).current {
                old(self).best
            } else {
                final(self).current
            },
            final(self).best >= old(self).best,
            final(self).wf(),
    {
        self.current = self.current.saturating_add(delta);
        if self.current > self.best {
            self.best = self.current;
        }
    }

    /// Starts the running score over; the best score stays.
    pub fn reset(&mut self)
        ensures
            final(self).current == 0,
            final(self).best == old(self).best,
    {
        self.current = 0;
    }
}

} // verus!

//! The decisions of one ray march.
//!
//! A march starts in `Marching`. At each step the caller evaluates the
//! distance field at the current point and reports two facts: whether the
//! distance is under the hit threshold, and whether the distance travelled so
//! far is past the trace limit. A hit ends the march in `Hit`; otherwise a
//! march past the limit, or one that has used up its steps, ends in `Miss`;
//! otherwise it advances one step. Both ends are final.

use vstd::prelude::*;

verus! {

#[derive(Clone, Copy, Debug, PartialEq, Eq, Structural)]
pub enum Phase {
    Marching,
    Hit,
    Miss,
}

#[derive(Clone, Copy, Debug, PartialEq, Eq, Structural)]
pub struct March {
    /// Steps taken so far.
    pub steps: i32,
    /// Most steps the march may take.
    pub max_steps: i32,
    pub phase: Phase,
}

impl March {
    pub open spec fn wf(self) -> bool {
        &&& 0 <= self.steps <= self.max_steps
        &&& self.phase == Phase::Marching ==> self.steps < self.max_steps
    }

    /// A march that may take up to `max_steps` steps; with none it has
    /// already missed.
    pub fn new(max_steps: i32) -> (m: March)
        requires
            max_steps >= 0,
        ensures
            m.wf(),
            m.steps == 0,
            m.max_steps == max_steps,
            m.phase == (if max_steps > 0 {
                Phase::Marching
            } else {
                Phase::Miss
            }),
    {
        March { steps: 0, max_steps, phase: if max_steps > 0 { Phase::Marching } else { Phase::Miss } }
    }

    /// Takes in what the field reported at the current point: `hit` when the
    /// distance is under the hit threshold, `beyond` when the distance
    /// travelled is past the trace limit.
    pub fn observe(&mut self, hit: bool, beyond: bool)
        requires
            old(self).wf(),
            old(self).phase == Phase::Marching,
        ensures
            final(self).wf(),
            final(self).max_steps == old(self).max_steps,
            hit ==> final(self).phase == Phase::Hit && final(self).steps == old(self).steps,
            !hit && beyond ==> final(self).phase == Phase::Miss && final(self).steps == old(
                self,
            ).steps,
            !hit && !beyond ==> final(self).steps == old(self).steps + 1 && final(self).phase == (
            if old(self).steps + 1 < old(self).max_steps {
                Phase::Marching
            } else {
                Phase::Miss
            }),
    {
        if hit {
            self.phase = Phase::Hit;
        } else if beyond {
            self.phase = Phase::Miss;
        } else {
            self.steps = self.steps + 1;
            if self.steps >= self.max_steps {
                self.phase = Phase::Miss;
            }
        }
    }

    /// Whether the march has ended, in a hit or a miss.
    pub fn is_done(&self) -> (done: bool)
        ensures
            done == (self.phase != Phase::Marching),
    {
        match self.phase {
            Phase::Marching => false,
            _ => true,
        }
    }
}

} // verus!

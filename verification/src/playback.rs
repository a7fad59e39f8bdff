//! The Playback Controller: a cursor over a solution's steps, with saturating
//! next/prev navigation and an overlay mode that shows every step at once.

use vstd::prelude::*;

verus! {

/// Where playback stands: every step at once, or one step alone.
#[derive(Clone, Copy, Debug, PartialEq, Eq, Structural)]
pub enum Cursor {
    /// Render every step's agent positions simultaneously.
    Overlay,
    /// Render only the step with this index.
    Step(usize),
}

/// A cursor never points at or past the step count.
pub open spec fn cursor_ok(c: Cursor, step_count: int) -> bool {
    match c {
        Cursor::Overlay => true,
        Cursor::Step(k) => k < step_count,
    }
}

/// The playback state: how many steps the current solution has, and the
/// cursor over them.
pub struct Playback {
    pub step_count: usize,
    pub cursor: Cursor,
}

impl Playback {
    pub open spec fn wf(self) -> bool {
        cursor_ok(self.cursor, self.step_count as int)
    }

    /// Where `Next` lands: into the first step from overlay (when there is
    /// one), one step forward otherwise, saturating at the last step.
    pub open spec fn next_cursor(self) -> Cursor {
        match self.cursor {
            Cursor::Overlay => if self.step_count > 0 {
                Cursor::Step(0)
            } else {
                Cursor::Overlay
            },
            Cursor::Step(k) => if k + 1 < self.step_count {
                Cursor::Step((k + 1) as usize)
            } else {
                Cursor::Step(k)
            },
        }
    }

    /// Where `Prev` lands: into the last step from overlay (when there is
    /// one), one step back otherwise, saturating at step zero.
    pub open spec fn prev_cursor(self) -> Cursor {
        match self.cursor {
            Cursor::Overlay => if self.step_count > 0 {
                Cursor::Step((self.step_count - 1) as usize)
            } else {
                Cursor::Overlay
            },
            Cursor::Step(k) => if k > 0 {
                Cursor::Step((k - 1) as usize)
            } else {
                Cursor::Step(0)
            },
        }
    }

    /// The initial state, and the state after a clear: no steps, overlay.
    pub fn new() -> (p: Playback)
        ensures
            p.wf(),
            p.step_count == 0,
            p.cursor == Cursor::Overlay,
    {
        Playback { step_count: 0, cursor: Cursor::Overlay }
    }

    /// Adopt a replaced solution's step count; the cursor returns to overlay.
    pub fn reset(&mut self, step_count: usize)
        ensures
            final(self).wf(),
            final(self).step_count == step_count,
            final(self).cursor == Cursor::Overlay,
    {
        self.step_count = step_count;
        self.cursor = Cursor::Overlay;
    }

    /// Advance one step, saturating at the last step; from overlay, enter the
    /// first step when there is one.
    pub fn next(&mut self)
        requires
            old(self).wf(),
        ensures
            final(self).wf(),
            final(self).step_count == old(self).step_count,
            final(self).cursor == old(self).next_cursor(),
    {
        match self.cursor {
            Cursor::Overlay => {
                if self.step_count > 0 {
                    self.cursor = Cursor::Step(0);
                }
            },
            Cursor::Step(k) => {
                if k + 1 < self.step_count {
                    self.cursor = Cursor::Step(k + 1);
                }
            },
        }
    }

    /// Retreat one step, saturating at step zero; from overlay, enter the
    /// last step when there is one.
    pub fn prev(&mut self)
        requires
            old(self).wf(),
        ensures
            final(self).wf(),
            final(self).step_count == old(self).step_count,
            final(self).cursor == old(self).prev_cursor(),
    {
        match self.cursor {
            Cursor::Overlay => {
                if self.step_count > 0 {
                    self.cursor = Cursor::Step(self.step_count - 1);
                }
            },
            Cursor::Step(k) => {
                if k > 0 {
                    self.cursor = Cursor::Step(k - 1);
                }
            },
        }
    }

    /// Return to overlay mode, from any state whatsoever.
    pub fn show_all(&mut self)
        ensures
            final(self).wf(),
            final(self).step_count == old(self).step_count,
            final(self).cursor == Cursor::Overlay,
    {
        self.cursor = Cursor::Overlay;
    }
}

} // verus!

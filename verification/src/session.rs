//! The viewer session: the three stores and the playback cursor, owned
//! together, with the store-replacement rules the viewer lives by.
//!
//! Every mutation replaces a store wholesale. A failed parse leaves its store
//! untouched; selecting a scenario clears the solution; replacing the solution
//! returns the cursor to overlay; a failed or killed solver run changes
//! nothing.

use vstd::prelude::*;

use crate::grid::map_parse;
use crate::grid::Grid;
use crate::playback::Cursor;
use crate::playback::Playback;
use crate::render::frame_spec;
use crate::render::render;
use crate::render::Rect;
use crate::scenario::parse_scenario;
use crate::scenario::scen_parse;
use crate::scenario::ScenEntry;
use crate::solution::parse_solution;
use crate::solution::sol_parse;
use crate::solution::Solution;
use crate::FormatError;

verus! {

/// How a solver run ended: with an exit code, or killed on timeout.
#[derive(Clone, Copy, Debug, PartialEq, Eq, Structural)]
pub enum SolverOutcome {
    Exited(i32),
    TimedOut,
}

/// Only a clean exit authorizes reading the solver's output; a non-zero exit
/// or a timeout kill leaves the previous solution authoritative.
pub fn authorizes_parse(outcome: SolverOutcome) -> (r: bool)
    ensures
        r <==> outcome == SolverOutcome::Exited(0),
{
    match outcome {
        SolverOutcome::Exited(code) => code == 0,
        SolverOutcome::TimedOut => false,
    }
}

/// One open viewer: the map, the scenario, the solution and the cursor.
pub struct Session {
    pub grid: Grid,
    pub scenario: Vec<ScenEntry>,
    pub solution: Solution,
    pub playback: Playback,
}

impl Session {
    /// Every store well formed, and the cursor bound to the solution's steps.
    pub open spec fn wf(self) -> bool {
        &&& self.grid.wf()
        &&& self.solution.wf()
        &&& self.playback.wf()
        &&& self.playback.step_count == self.solution.steps
    }

    /// A fresh session: no map, no scenario, no solution, overlay.
    pub fn new() -> (s: Session)
        ensures
            s.wf(),
            s.grid.width == 0,
            s.grid.height == 0,
            s.scenario@.len() == 0,
            s.solution.steps == 0,
            s.solution.agents == 0,
            s.playback.cursor == Cursor::Overlay,
    {
        Session {
            grid: Grid::empty(),
            scenario: Vec::new(),
            solution: Solution::empty(),
            playback: Playback::new(),
        }
    }

    /// Load a map text: on success the grid is replaced wholesale, on a
    /// format error nothing changes at all.
    pub fn load_map(&mut self, text: &[u8]) -> (r: Result<(), FormatError>)
        requires
            old(self).wf(),
        ensures
            final(self).wf(),
            match r {
                Ok(_) => {
                    &&& map_parse(text@) == Some(final(self).grid.model())
                    &&& final(self).scenario == old(self).scenario
                    &&& final(self).solution == old(self).solution
                    &&& final(self).playback == old(self).playback
                },
                Err(_) => {
                    &&& map_parse(text@) is None
                    &&& *final(self) == *old(self)
                },
            },
    {
        match crate::grid::parse_map(text) {
            Ok(g) => {
                self.grid = g;
                Ok(())
            },
            Err(e) => Err(e),
        }
    }

    /// Select a scenario text: the solution is cleared and the cursor returns
    /// to overlay in every case; the scenario itself is replaced only when the
    /// text parses, and kept untouched on a format error.
    pub fn select_scenario(&mut self, text: &[u8]) -> (r: Result<(), FormatError>)
        requires
            old(self).wf(),
        ensures
            final(self).wf(),
            final(self).grid == old(self).grid,
            final(self).solution.steps == 0,
            final(self).solution.agents == 0,
            final(self).solution.data@.len() == 0,
            final(self).playback.cursor == Cursor::Overlay,
            match r {
                Ok(_) => scen_parse(text@) == Some(final(self).scenario@),
                Err(_) => {
                    &&& scen_parse(text@) is None
                    &&& final(self).scenario == old(self).scenario
                },
            },
    {
        self.solution = Solution::empty();
        self.playback.reset(0);
        match parse_scenario(text) {
            Ok(entries) => {
                self.scenario = entries;
                Ok(())
            },
            Err(e) => Err(e),
        }
    }

    /// Adopt a solver's output text: on success the solution is replaced and
    /// the cursor returns to overlay; on a format error nothing changes.
    pub fn load_solution(&mut self, text: &[u8]) -> (r: Result<(), FormatError>)
        requires
            old(self).wf(),
        ensures
            final(self).wf(),
            match r {
                Ok(_) => {
                    &&& sol_parse(text@) == Some(final(self).solution.model())
                    &&& final(self).playback.cursor == Cursor::Overlay
                    &&& final(self).grid == old(self).grid
                    &&& final(self).scenario == old(self).scenario
                },
                Err(_) => {
                    &&& sol_parse(text@) is None
                    &&& *final(self) == *old(self)
                },
            },
    {
        match parse_solution(text) {
            Ok(sol) => {
                let steps = sol.steps;
                self.solution = sol;
                self.playback.reset(steps);
                Ok(())
            },
            Err(e) => Err(e),
        }
    }

    /// Digest a finished solver run: only a clean exit reads the output text;
    /// a non-zero exit or a timeout kill leaves every store untouched.
    pub fn solver_finished(&mut self, outcome: SolverOutcome, output: &[u8]) -> (r: Result<
        bool,
        FormatError,
    >)
        requires
            old(self).wf(),
        ensures
            final(self).wf(),
            match r {
                Ok(ran) => {
                    &&& (ran <==> outcome == SolverOutcome::Exited(0))
                    &&& ran ==> {
                        &&& sol_parse(output@) == Some(final(self).solution.model())
                        &&& final(self).playback.cursor == Cursor::Overlay
                        &&& final(self).grid == old(self).grid
                        &&& final(self).scenario == old(self).scenario
                    }
                    &&& !ran ==> *final(self) == *old(self)
                },
                Err(_) => {
                    &&& outcome == SolverOutcome::Exited(0)
                    &&& sol_parse(output@) is None
                    &&& *final(self) == *old(self)
                },
            },
    {
        if authorizes_parse(outcome) {
            match self.load_solution(output) {
                Ok(_) => Ok(true),
                Err(e) => Err(e),
            }
        } else {
            Ok(false)
        }
    }

    /// Clear the whole view: every store back to its sentinel, overlay mode.
    pub fn clear(&mut self)
        ensures
            final(self).wf(),
            final(self).grid.width == 0,
            final(self).grid.height == 0,
            final(self).scenario@.len() == 0,
            final(self).solution.steps == 0,
            final(self).solution.agents == 0,
            final(self).solution.data@.len() == 0,
            final(self).playback.cursor == Cursor::Overlay,
    {
        self.grid = Grid::empty();
        self.scenario = Vec::new();
        self.solution = Solution::empty();
        self.playback.reset(0);
    }

    /// Advance the cursor one step, saturating at the last step.
    pub fn next_step(&mut self)
        requires
            old(self).wf(),
        ensures
            final(self).wf(),
            final(self).grid == old(self).grid,
            final(self).scenario == old(self).scenario,
            final(self).solution == old(self).solution,
            final(self).playback.cursor == old(self).playback.next_cursor(),
    {
        self.playback.next();
    }

    /// Retreat the cursor one step, saturating at step zero.
    pub fn prev_step(&mut self)
        requires
            old(self).wf(),
        ensures
            final(self).wf(),
            final(self).grid == old(self).grid,
            final(self).scenario == old(self).scenario,
            final(self).solution == old(self).solution,
            final(self).playback.cursor == old(self).playback.prev_cursor(),
    {
        self.playback.prev();
    }

    /// Return to overlay mode, whatever the state.
    pub fn show_all(&mut self)
        requires
            old(self).wf(),
        ensures
            final(self).wf(),
            final(self).grid == old(self).grid,
            final(self).scenario == old(self).scenario,
            final(self).solution == old(self).solution,
            final(self).playback.cursor == Cursor::Overlay,
    {
        self.playback.show_all();
    }

    /// Compose the current frame's draw list for the given filter text.
    pub fn render_frame(&self, filter: &[u8]) -> (r: Vec<Rect>)
        requires
            self.wf(),
        ensures
            r@ == frame_spec(
                self.grid.model(),
                self.solution.cells(),
                self.playback.cursor,
                self.scenario@,
                filter@,
            ),
    {
        render(&self.grid, &self.scenario, &self.solution, self.playback.cursor, filter)
    }
}

} // verus!

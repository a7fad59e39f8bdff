//! The Frame Compositor: one frame's draw list, computed from the three
//! stores, the playback cursor and the agent-count filter.
//!
//! Rectangles are emitted in cell coordinates and paint order: the solution
//! trace first, the obstacles over it, the scenario start/goal markers last.
//! Scaling a cell to canvas pixels is the rendering surface's business.

use vstd::prelude::*;

use crate::grid::Grid;
use crate::grid::GridModel;
use crate::playback::cursor_ok;
use crate::playback::Cursor;
use crate::scenario::effective_agent_count;
use crate::scenario::effective_count_spec;
use crate::scenario::ScenEntry;
use crate::solution::Pos;
use crate::solution::Solution;

verus! {

/// The fill color of a rectangle, one per layer (the goal marker has its
/// own).
#[derive(Clone, Copy, Debug, PartialEq, Eq, Structural)]
pub enum Color {
    Trace,
    Obstacle,
    Start,
    Goal,
}

/// One draw command: fill the grid cell at `(x, y)` with `color`.
#[derive(Clone, Copy, Debug, PartialEq, Eq, Structural)]
pub struct Rect {
    pub x: usize,
    pub y: usize,
    pub color: Color,
}

/// The trace rectangles of one step from agent `ag` on, agents in order.
pub open spec fn step_rects(row: Seq<Pos>, ag: int) -> Seq<Rect>
    decreases row.len() - ag,
{
    if 0 <= ag < row.len() {
        seq![Rect { x: row[ag].x, y: row[ag].y, color: Color::Trace }] + step_rects(row, ag + 1)
    } else {
        Seq::empty()
    }
}

/// The trace rectangles of every step from `st` on, steps in order.
pub open spec fn overlay_rects(cells: Seq<Seq<Pos>>, st: int) -> Seq<Rect>
    decreases cells.len() - st,
{
    if 0 <= st < cells.len() {
        step_rects(cells[st], 0) + overlay_rects(cells, st + 1)
    } else {
        Seq::empty()
    }
}

/// The solution layer: every step's agents in overlay mode, one step's agents
/// otherwise.
pub open spec fn trace_layer(cells: Seq<Seq<Pos>>, cursor: Cursor) -> Seq<Rect> {
    match cursor {
        Cursor::Overlay => overlay_rects(cells, 0),
        Cursor::Step(k) => step_rects(cells[k as int], 0),
    }
}

/// The obstacle rectangles of row `r` from column `c` on.
pub open spec fn obstacle_row_rects(row: Seq<bool>, r: int, c: int) -> Seq<Rect>
    decreases row.len() - c,
{
    if 0 <= c < row.len() {
        (if row[c] {
            seq![Rect { x: c as usize, y: r as usize, color: Color::Obstacle }]
        } else {
            Seq::empty()
        }) + obstacle_row_rects(row, r, c + 1)
    } else {
        Seq::empty()
    }
}

/// The obstacle layer from row `r` on, rows in order.
pub open spec fn obstacle_rects(cells: Seq<Seq<bool>>, r: int) -> Seq<Rect>
    decreases cells.len() - r,
{
    if 0 <= r < cells.len() {
        obstacle_row_rects(cells[r], r, 0) + obstacle_rects(cells, r + 1)
    } else {
        Seq::empty()
    }
}

/// The marker rectangles of the scenario entries from `i` up to `n`: for
/// each, its start cell then its goal cell.
pub open spec fn marker_rects(entries: Seq<ScenEntry>, n: int, i: int) -> Seq<Rect>
    decreases n - i,
{
    if 0 <= i < n {
        seq![
            Rect {
                x: entries[i].start_x as usize,
                y: entries[i].start_y as usize,
                color: Color::Start,
            },
            Rect { x: entries[i].goal_x as usize, y: entries[i].goal_y as usize, color: Color::Goal },
        ] + marker_rects(entries, n, i + 1)
    } else {
        Seq::empty()
    }
}

proof fn lemma_step_rects_len(row: Seq<Pos>, ag: int)
    requires
        0 <= ag <= row.len(),
    ensures
        step_rects(row, ag).len() == row.len() - ag,
    decreases row.len() - ag,
{
    if ag < row.len() {
        lemma_step_rects_len(row, ag + 1);
    }
}

proof fn lemma_overlay_rects_len(cells: Seq<Seq<Pos>>, agents: int, st: int)
    requires
        0 <= st <= cells.len(),
        forall|k: int| 0 <= k < cells.len() ==> (#[trigger] cells[k]).len() == agents,
    ensures
        overlay_rects(cells, st).len() == (cells.len() - st) * agents,
    decreases cells.len() - st,
{
    if st < cells.len() {
        lemma_overlay_rects_len(cells, agents, st + 1);
        lemma_step_rects_len(cells[st], 0);
        assert((cells.len() - st) * agents == agents + (cells.len() - st - 1) * agents)
            by (nonlinear_arith);
    } else {
        assert((cells.len() - st) * agents == 0) by (nonlinear_arith)
            requires
                cells.len() - st == 0,
        ;
    }
}

/// How many trace rectangles the solution layer holds: one per agent of the
/// current step, or one per `(step, agent)` pair of the whole table in
/// overlay mode.
pub proof fn lemma_trace_layer_len(cells: Seq<Seq<Pos>>, cursor: Cursor, agents: int)
    requires
        forall|k: int| 0 <= k < cells.len() ==> (#[trigger] cells[k]).len() == agents,
        cursor matches Cursor::Step(k) ==> k < cells.len(),
    ensures
        match cursor {
            Cursor::Overlay => trace_layer(cells, cursor).len() == cells.len() * agents,
            Cursor::Step(_) => trace_layer(cells, cursor).len() == agents,
        },
{
    match cursor {
        Cursor::Overlay => lemma_overlay_rects_len(cells, agents, 0),
        Cursor::Step(k) => lemma_step_rects_len(cells[k as int], 0),
    }
}

/// One frame's draw list: nothing while no map is loaded (zero width);
/// otherwise the solution trace, then the obstacles, then the markers of the
/// first effective-count scenario entries, in paint order.
pub open spec fn frame_spec(
    grid: GridModel,
    sol: Seq<Seq<Pos>>,
    cursor: Cursor,
    entries: Seq<ScenEntry>,
    filter: Seq<u8>,
) -> Seq<Rect> {
    if grid.width == 0 {
        Seq::empty()
    } else {
        trace_layer(sol, cursor) + obstacle_rects(grid.cells, 0) + marker_rects(
            entries,
            effective_count_spec(filter, entries.len() as int),
            0,
        )
    }
}

/// Compose one frame, exactly as `frame_spec` describes.
#[verifier::loop_isolation(false)]
pub fn render(
    grid: &Grid,
    entries: &Vec<ScenEntry>,
    sol: &Solution,
    cursor: Cursor,
    filter: &[u8],
) -> (r: Vec<Rect>)
    requires
        grid.wf(),
        sol.wf(),
        cursor_ok(cursor, sol.steps as int),
    ensures
        r@ == frame_spec(grid.model(), sol.cells(), cursor, entries@, filter@),
{
    let ghost target = frame_spec(grid.model(), sol.cells(), cursor, entries@, filter@);
    let ghost scells = sol.cells();
    let ghost gcells = grid.model().cells;
    let ghost n_spec = effective_count_spec(filter@, entries@.len() as int);
    let mut out: Vec<Rect> = Vec::new();
    if grid.width == 0 {
        proof {
            assert(out@ =~= target);
        }
        return out;
    }
    proof {
        assert(target == trace_layer(scells, cursor) + obstacle_rects(gcells, 0) + marker_rects(
            entries@,
            n_spec,
            0,
        ));
    }
    match cursor {
        Cursor::Overlay => {
            let mut st: usize = 0;
            proof {
                assert(out@ + overlay_rects(scells, 0) =~= trace_layer(scells, cursor));
            }
            while st < sol.steps
                invariant
                    st <= sol.steps,
                    out@ + overlay_rects(scells, st as int) == trace_layer(scells, cursor),
                decreases sol.steps - st,
            {
                let row = &sol.data[st];
                let ghost rowv = row@;
                let mut ag: usize = 0;
                proof {
                    assert(out@ + step_rects(rowv, 0) + overlay_rects(scells, st as int + 1)
                        =~= trace_layer(scells, cursor));
                }
                while ag < row.len()
                    invariant
                        ag <= rowv.len(),
                        row@ == rowv,
                        rowv == scells[st as int],
                        st < sol.steps,
                        out@ + step_rects(rowv, ag as int) + overlay_rects(scells, st as int + 1)
                            == trace_layer(scells, cursor),
                    decreases rowv.len() - ag,
                {
                    let p = row[ag];
                    out.push(Rect { x: p.x, y: p.y, color: Color::Trace });
                    proof {
                        assert(out@ + step_rects(rowv, ag as int + 1) + overlay_rects(
                            scells,
                            st as int + 1,
                        ) =~= trace_layer(scells, cursor));
                    }
                    ag = ag + 1;
                }
                st = st + 1;
            }
            proof {
                assert(out@ =~= trace_layer(scells, cursor));
            }
        },
        Cursor::Step(k) => {
            let row = &sol.data[k];
            let ghost rowv = row@;
            let mut ag: usize = 0;
            proof {
                assert(rowv == scells[k as int]);
                assert(out@ + step_rects(rowv, 0) =~= trace_layer(scells, cursor));
            }
            while ag < row.len()
                invariant
                    ag <= rowv.len(),
                    row@ == rowv,
                    rowv == scells[k as int],
                    k < sol.steps,
                    out@ + step_rects(rowv, ag as int) == trace_layer(scells, cursor),
                decreases rowv.len() - ag,
            {
                let p = row[ag];
                out.push(Rect { x: p.x, y: p.y, color: Color::Trace });
                proof {
                    assert(out@ + step_rects(rowv, ag as int + 1) =~= trace_layer(scells, cursor));
                }
                ag = ag + 1;
            }
            proof {
                assert(out@ =~= trace_layer(scells, cursor));
            }
        },
    }
    let mut r: usize = 0;
    proof {
        assert(out@ + obstacle_rects(gcells, 0) + marker_rects(entries@, n_spec, 0) =~= target);
    }
    while r < grid.height
        invariant
            r <= grid.height,
            out@ + obstacle_rects(gcells, r as int) + marker_rects(entries@, n_spec, 0) == target,
        decreases grid.height - r,
    {
        let row = &grid.occupied[r];
        let ghost rowv = row@;
        let mut c: usize = 0;
        proof {
            assert(out@ + obstacle_row_rects(rowv, r as int, 0) + obstacle_rects(
                gcells,
                r as int + 1,
            ) + marker_rects(entries@, n_spec, 0) =~= target);
        }
        while c < row.len()
            invariant
                c <= rowv.len(),
                row@ == rowv,
                rowv == gcells[r as int],
                r < grid.height,
                out@ + obstacle_row_rects(rowv, r as int, c as int) + obstacle_rects(
                    gcells,
                    r as int + 1,
                ) + marker_rects(entries@, n_spec, 0) == target,
            decreases rowv.len() - c,
        {
            if row[c] {
                out.push(Rect { x: c, y: r, color: Color::Obstacle });
            }
            proof {
                assert(out@ + obstacle_row_rects(rowv, r as int, c as int + 1) + obstacle_rects(
                    gcells,
                    r as int + 1,
                ) + marker_rects(entries@, n_spec, 0) =~= target);
            }
            c = c + 1;
        }
        r = r + 1;
    }
    let n = effective_agent_count(filter, entries.len());
    let mut i: usize = 0;
    proof {
        assert(out@ + marker_rects(entries@, n_spec, 0) =~= target);
    }
    while i < n
        invariant
            i <= n,
            n == n_spec,
            n <= entries@.len(),
            out@ + marker_rects(entries@, n_spec, i as int) == target,
        decreases n - i,
    {
        let e = entries[i];
        out.push(Rect { x: e.start_x as usize, y: e.start_y as usize, color: Color::Start });
        out.push(Rect { x: e.goal_x as usize, y: e.goal_y as usize, color: Color::Goal });
        proof {
            assert(out@ + marker_rects(entries@, n_spec, i as int + 1) =~= target);
        }
        i = i + 1;
    }
    proof {
        assert(out@ =~= target);
    }
    out
}

} // verus!

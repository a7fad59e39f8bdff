//! The session and the compositor: store-replacement rules and the frame's
//! draw list.

use mapf_viewer::playback::Cursor;
use mapf_viewer::render::Color;
use mapf_viewer::render::Rect;
use mapf_viewer::session::Session;
use mapf_viewer::session::SolverOutcome;

const MAP_4X4: &[u8] = b"tag\nheight 4\nwidth 4\n....\n....\n....\n....\n";
const SOL_2X3: &[u8] = b"2 3\n0,0\n1,1\n0,1\n1,2\n0,2\n1,3\n";

#[test]
fn no_map_renders_nothing() {
    let mut s = Session::new();
    s.select_scenario(b"v\n0\tm\t8\t8\t1\t1\t2\t2\t0.0\n").unwrap();
    assert_eq!(s.render_frame(b""), vec![]);
}

#[test]
fn step_mode_draws_one_rect_per_agent() {
    let mut s = Session::new();
    s.load_map(MAP_4X4).unwrap();
    s.load_solution(SOL_2X3).unwrap();
    assert_eq!(s.playback.cursor, Cursor::Overlay);
    let overlay: Vec<Rect> = s.render_frame(b"");
    assert_eq!(overlay.iter().filter(|r| r.color == Color::Trace).count(), 6);
    s.next_step();
    assert_eq!(s.playback.cursor, Cursor::Step(0));
    let frame = s.render_frame(b"");
    let traces: Vec<&Rect> = frame.iter().filter(|r| r.color == Color::Trace).collect();
    assert_eq!(traces.len(), 2);
    assert_eq!(*traces[0], Rect { x: 0, y: 0, color: Color::Trace });
    assert_eq!(*traces[1], Rect { x: 1, y: 1, color: Color::Trace });
}

#[test]
fn frame_paints_trace_obstacles_then_markers() {
    let mut s = Session::new();
    s.load_map(b"tag\nheight 2\nwidth 2\n.@\n..\n").unwrap();
    s.select_scenario(b"v\n0\tm\t2\t2\t0\t0\t1\t1\t1.0\n").unwrap();
    s.load_solution(b"1 1\n0,1\n").unwrap();
    let frame = s.render_frame(b"");
    assert_eq!(
        frame,
        vec![
            Rect { x: 0, y: 1, color: Color::Trace },
            Rect { x: 1, y: 0, color: Color::Obstacle },
            Rect { x: 0, y: 0, color: Color::Start },
            Rect { x: 1, y: 1, color: Color::Goal },
        ]
    );
}

#[test]
fn marker_count_follows_the_filter() {
    let mut s = Session::new();
    s.load_map(MAP_4X4).unwrap();
    let scen = b"v\n0\tm\t4\t4\t0\t0\t1\t1\t0\n0\tm\t4\t4\t2\t2\t3\t3\t0\n0\tm\t4\t4\t1\t0\t0\t1\t0\n";
    s.select_scenario(scen).unwrap();
    let all = s.render_frame(b"");
    assert_eq!(all.iter().filter(|r| r.color == Color::Start).count(), 3);
    let one = s.render_frame(b"1");
    assert_eq!(one.iter().filter(|r| r.color == Color::Start).count(), 1);
    let over = s.render_frame(b"50");
    assert_eq!(over.iter().filter(|r| r.color == Color::Goal).count(), 3);
}

#[test]
fn failed_map_parse_keeps_the_grid() {
    let mut s = Session::new();
    s.load_map(MAP_4X4).unwrap();
    assert!(s.load_map(b"tag\nheight x\nwidth 4\n....\n").is_err());
    assert_eq!(s.grid.height, 4);
    assert_eq!(s.grid.width, 4);
}

#[test]
fn scenario_selection_clears_the_solution() {
    let mut s = Session::new();
    s.load_map(MAP_4X4).unwrap();
    s.load_solution(SOL_2X3).unwrap();
    s.next_step();
    s.select_scenario(b"v\n0\tm\t4\t4\t0\t0\t1\t1\t0\n").unwrap();
    assert_eq!(s.solution.steps, 0);
    assert_eq!(s.solution.agents, 0);
    assert_eq!(s.playback.cursor, Cursor::Overlay);
}

#[test]
fn failed_scenario_parse_keeps_the_entries() {
    let mut s = Session::new();
    s.select_scenario(b"v\n0\tm\t4\t4\t0\t0\t1\t1\t0\n").unwrap();
    assert!(s.select_scenario(b"v\nshort\n").is_err());
    assert_eq!(s.scenario.len(), 1);
}

#[test]
fn failed_or_killed_run_keeps_the_solution() {
    let mut s = Session::new();
    s.load_map(MAP_4X4).unwrap();
    s.load_solution(SOL_2X3).unwrap();
    let ran = s.solver_finished(SolverOutcome::Exited(1), b"1 1\n9,9\n").unwrap();
    assert!(!ran);
    assert_eq!(s.solution.steps, 3);
    let ran = s.solver_finished(SolverOutcome::TimedOut, b"1 1\n9,9\n").unwrap();
    assert!(!ran);
    assert_eq!(s.solution.steps, 3);
    let ran = s.solver_finished(SolverOutcome::Exited(0), b"1 1\n9,9\n").unwrap();
    assert!(ran);
    assert_eq!(s.solution.steps, 1);
    assert_eq!(s.solution.agents, 1);
    assert_eq!(s.playback.cursor, Cursor::Overlay);
}

#[test]
fn clear_resets_every_store() {
    let mut s = Session::new();
    s.load_map(MAP_4X4).unwrap();
    s.select_scenario(b"v\n0\tm\t4\t4\t0\t0\t1\t1\t0\n").unwrap();
    s.load_solution(SOL_2X3).unwrap();
    s.clear();
    assert_eq!(s.grid.width, 0);
    assert_eq!(s.scenario.len(), 0);
    assert_eq!(s.solution.steps, 0);
    assert_eq!(s.playback.cursor, Cursor::Overlay);
    assert_eq!(s.render_frame(b""), vec![]);
}

//! The playback state machine: saturating navigation and the overlay mode.

use mapf_viewer::playback::Cursor;
use mapf_viewer::playback::Playback;
use mapf_viewer::scenario::effective_agent_count;

#[test]
fn next_saturates_at_last_step() {
    let mut p = Playback::new();
    p.reset(5);
    assert_eq!(p.cursor, Cursor::Overlay);
    for _ in 0..6 {
        p.next();
    }
    assert_eq!(p.cursor, Cursor::Step(4));
    p.next();
    assert_eq!(p.cursor, Cursor::Step(4));
}

#[test]
fn prev_saturates_at_step_zero() {
    let mut p = Playback::new();
    p.reset(3);
    p.next();
    assert_eq!(p.cursor, Cursor::Step(0));
    p.prev();
    assert_eq!(p.cursor, Cursor::Step(0));
}

#[test]
fn prev_from_overlay_enters_last_step() {
    let mut p = Playback::new();
    p.reset(4);
    p.prev();
    assert_eq!(p.cursor, Cursor::Step(3));
}

#[test]
fn navigation_is_a_no_op_without_steps() {
    let mut p = Playback::new();
    p.next();
    assert_eq!(p.cursor, Cursor::Overlay);
    p.prev();
    assert_eq!(p.cursor, Cursor::Overlay);
}

#[test]
fn show_all_returns_to_overlay_from_any_state() {
    let mut p = Playback::new();
    p.show_all();
    assert_eq!(p.cursor, Cursor::Overlay);
    p.reset(5);
    p.next();
    p.next();
    p.show_all();
    assert_eq!(p.cursor, Cursor::Overlay);
    p.prev();
    p.show_all();
    assert_eq!(p.cursor, Cursor::Overlay);
}

#[test]
fn effective_filter_clamps_to_entry_count() {
    assert_eq!(effective_agent_count(b"0", 10), 10);
    assert_eq!(effective_agent_count(b"abc", 10), 10);
    assert_eq!(effective_agent_count(b"", 10), 10);
    assert_eq!(effective_agent_count(b"3", 10), 3);
    assert_eq!(effective_agent_count(b"50", 10), 10);
    assert_eq!(effective_agent_count(b"10", 10), 10);
}

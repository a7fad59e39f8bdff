//! The three file formats: parsing, failure cases, and the solution
//! round trip.

use mapf_viewer::grid::parse_map;
use mapf_viewer::num::fmt_usize;
use mapf_viewer::num::parse_usize;
use mapf_viewer::scenario::parse_scenario;
use mapf_viewer::scenario::ScenEntry;
use mapf_viewer::solution::parse_solution;
use mapf_viewer::solution::solution_to_text;
use mapf_viewer::solution::Pos;
use mapf_viewer::text::lines;
use mapf_viewer::text::split_bytes;

#[test]
fn decimal_parse_and_format() {
    assert_eq!(parse_usize(b"0"), Some(0));
    assert_eq!(parse_usize(b"123"), Some(123));
    assert_eq!(parse_usize(b"007"), Some(7));
    assert_eq!(parse_usize(b""), None);
    assert_eq!(parse_usize(b"12a"), None);
    assert_eq!(parse_usize(b"-3"), None);
    assert_eq!(parse_usize(b"99999999999999999999999999"), None);
    assert_eq!(fmt_usize(907), b"907".to_vec());
    assert_eq!(fmt_usize(0), b"0".to_vec());
    assert_eq!(parse_usize(&fmt_usize(usize::MAX)), Some(usize::MAX));
}

#[test]
fn split_and_lines_behave_like_texts() {
    let pieces = split_bytes(b"a,,b", b',');
    assert_eq!(pieces, vec![b"a".to_vec(), b"".to_vec(), b"b".to_vec()]);
    let pieces = split_bytes(b"", b',');
    assert_eq!(pieces, vec![b"".to_vec()]);
    assert_eq!(lines(b""), Vec::<Vec<u8>>::new());
    assert_eq!(lines(b"a\nb\n"), vec![b"a".to_vec(), b"b".to_vec()]);
    assert_eq!(lines(b"a\n\nb"), vec![b"a".to_vec(), b"".to_vec(), b"b".to_vec()]);
}

#[test]
fn map_parses_declared_shape() {
    let g = parse_map(b"type octile\nheight 2\nwidth 3\n.@.\n...\n").unwrap();
    assert_eq!(g.height, 2);
    assert_eq!(g.width, 3);
    assert_eq!(g.occupied.len(), 2);
    assert_eq!(g.occupied[0], vec![false, true, false]);
    assert_eq!(g.occupied[1], vec![false, false, false]);
}

#[test]
fn map_dot_rows_are_free() {
    let g = parse_map(b"tag\nheight 1\nwidth 4\n....\n").unwrap();
    assert_eq!(g.occupied[0], vec![false, false, false, false]);
}

#[test]
fn map_rejects_bad_texts() {
    assert!(parse_map(b"tag\nheight 1\n").is_err());
    assert!(parse_map(b"tag\nheight x\nwidth 2\n..\n").is_err());
    assert!(parse_map(b"tag\nheight 1\nwidth 2\n...\n").is_err());
    assert!(parse_map(b"tag\nheight 2\nwidth 2\n..\n").is_err());
}

#[test]
fn scenario_parses_fields_in_order() {
    let text = b"version 1\n0\tm.map\t64\t64\t1\t2\t3\t4\t5.0\n0\tm.map\t64\t64\t9\t8\t7\t6\t1.0\n";
    let v = parse_scenario(text).unwrap();
    assert_eq!(v.len(), 2);
    assert_eq!(v[0], ScenEntry { start_x: 1, start_y: 2, goal_x: 3, goal_y: 4 });
    assert_eq!(v[1], ScenEntry { start_x: 9, start_y: 8, goal_x: 7, goal_y: 6 });
}

#[test]
fn scenario_header_only_is_empty() {
    assert_eq!(parse_scenario(b"version 1\n").unwrap(), vec![]);
    assert_eq!(parse_scenario(b"").unwrap(), vec![]);
}

#[test]
fn scenario_rejects_bad_lines() {
    assert!(parse_scenario(b"h\na\tb\tc\td\te\tf\tg\n").is_err());
    assert!(parse_scenario(b"h\n0\tm\t64\t64\tx\t2\t3\t4\n").is_err());
}

#[test]
fn solution_parses_row_major() {
    let sol = parse_solution(b"2 3\n0,0\n5,5\n1,0\n5,6\n2,0\n5,7\n").unwrap();
    assert_eq!(sol.agents, 2);
    assert_eq!(sol.steps, 3);
    assert_eq!(sol.data.len(), 3);
    assert_eq!(sol.data[0], vec![Pos { x: 0, y: 0 }, Pos { x: 5, y: 5 }]);
    assert_eq!(sol.data[1], vec![Pos { x: 1, y: 0 }, Pos { x: 5, y: 6 }]);
    assert_eq!(sol.data[2], vec![Pos { x: 2, y: 0 }, Pos { x: 5, y: 7 }]);
}

#[test]
fn solution_short_header_is_empty_table() {
    let sol = parse_solution(b"7\n").unwrap();
    assert_eq!((sol.agents, sol.steps, sol.data.len()), (0, 0, 0));
    let sol = parse_solution(b"").unwrap();
    assert_eq!((sol.agents, sol.steps, sol.data.len()), (0, 0, 0));
}

#[test]
fn solution_ignores_blank_lines() {
    let sol = parse_solution(b"\n\n2 1\n\n1,2\n\n3,4\n\n").unwrap();
    assert_eq!(sol.agents, 2);
    assert_eq!(sol.steps, 1);
    assert_eq!(sol.data[0], vec![Pos { x: 1, y: 2 }, Pos { x: 3, y: 4 }]);
}

#[test]
fn solution_rejects_bad_texts() {
    assert!(parse_solution(b"2 2\n1,1\n2,2\n3,3\n").is_err());
    assert!(parse_solution(b"1 1\n1,2,3\n").is_err());
    assert!(parse_solution(b"1 1\nx,y\n").is_err());
    assert!(parse_solution(b"x y\n1,1\n").is_err());
}

#[test]
fn solution_round_trips_through_text() {
    let sol = parse_solution(b"2 2\n1,2\n3,4\n5,6\n7,8\n").unwrap();
    let text = solution_to_text(&sol);
    assert_eq!(text, b"2 2\n1,2\n3,4\n5,6\n7,8\n".to_vec());
    let again = parse_solution(&text).unwrap();
    assert_eq!(again.agents, sol.agents);
    assert_eq!(again.steps, sol.steps);
    assert_eq!(again.data, sol.data);
}

#[test]
fn empty_solution_round_trips() {
    let sol = parse_solution(b"").unwrap();
    let text = solution_to_text(&sol);
    assert_eq!(text, b"0 0\n".to_vec());
    let again = parse_solution(&text).unwrap();
    assert_eq!((again.agents, again.steps, again.data.len()), (0, 0, 0));
}

#[test]
fn solution_header_extra_fields_are_ignored() {
    let sol = parse_solution(b"1 2 extra\n4,5\n6,7\n").unwrap();
    assert_eq!((sol.agents, sol.steps), (1, 2));
    assert_eq!(sol.data[1], vec![Pos { x: 6, y: 7 }]);
}

#[test]
fn map_header_may_be_the_bare_number() {
    let g = parse_map(b"tag\n1\n2\n..\n").unwrap();
    assert_eq!((g.height, g.width), (1, 2));
}

#[test]
fn solution_zero_agents_keeps_declared_steps() {
    let sol = parse_solution(b"0 3\n").unwrap();
    assert_eq!((sol.agents, sol.steps, sol.data.len()), (0, 3, 3));
    assert_eq!(sol.data[0], vec![]);
}

use wavefc::stringtools::construct_wip_string;
use wavefc::stringtools::deconstruct_string;
use wavefc::stringtools::reconstruct_string;

#[test]
fn deconstruct_string_tags_first_occurrences() {
    let (grid, map) = deconstruct_string(&String::from("LC\nCL"), false);
    assert_eq!(grid, vec![vec![0, 1], vec![1, 0]]);
    assert_eq!(map, vec![(0, 'L'), (1, 'C')]);
}

#[test]
fn deconstruct_string_can_keep_whitespace() {
    let (grid, map) = deconstruct_string(&String::from("A A"), true);
    assert_eq!(grid, vec![vec![0], vec![1], vec![0]]);
    assert_eq!(map, vec![(0, 'A'), (1, ' ')]);
}

#[test]
fn reconstruct_string_renders_rows() {
    let map = vec![(0, 'A'), (1, 'B')];
    let one_row = reconstruct_string(vec![vec![0], vec![1]], &map, false, false);
    assert_eq!(one_row, "A, B, ");

    let two_rows = reconstruct_string(vec![vec![0, 1]], &map, false, false);
    assert_eq!(two_rows, "A, \nB, ");

    let bold = reconstruct_string(vec![vec![0]], &map, false, true);
    assert_eq!(bold, "\u{1b}[1mA, \u{1b}[0m");

    let sea = reconstruct_string(vec![vec![0]], &vec![(0, 'S')], true, false);
    assert_eq!(sea, "\u{1b}[34mS, \u{1b}[0m");
}

#[test]
fn construct_wip_string_sorts_and_pads_candidates() {
    let map = vec![(0, 'B'), (1, 'A')];
    let rendered = construct_wip_string(vec![vec![vec![1, 0]], vec![vec![0]]], &map);
    assert_eq!(rendered, "\n(AB)(B )");
}

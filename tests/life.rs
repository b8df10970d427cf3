use game_of_life::{
    center_offset, contains, count_neighbours, next_generation, parse_pattern, project,
    random_cells, shift_cells, Board, CellRect, ConfigError, LoadError, Pos, Viewport,
};
use std::collections::HashSet;

fn set_of(cells: &[Pos]) -> HashSet<Pos> {
    cells.iter().copied().collect()
}

fn step_n(cells: &Vec<Pos>, n: usize) -> Vec<Pos> {
    let mut cur = cells.clone();
    for _ in 0..n {
        cur = next_generation(&cur);
    }
    cur
}

fn viewport(w: i32, h: i32) -> Viewport {
    Viewport { min_x: 0, min_y: 0, width: w, height: h }
}

#[test]
fn empty_stays_empty() {
    assert!(next_generation(&Vec::new()).is_empty());
}

#[test]
fn block_is_still_life() {
    let block = vec![Pos(0, 0), Pos(1, 0), Pos(0, 1), Pos(1, 1)];
    assert_eq!(set_of(&next_generation(&block)), set_of(&block));
}

#[test]
fn blinker_has_period_two() {
    let blinker = vec![Pos(0, 0), Pos(1, 0), Pos(2, 0)];
    let once = next_generation(&blinker);
    assert_eq!(set_of(&once), set_of(&[Pos(1, -1), Pos(1, 0), Pos(1, 1)]));
    let twice = next_generation(&once);
    assert_eq!(set_of(&twice), set_of(&blinker));
}

#[test]
fn glider_moves_diagonally_in_four_steps() {
    let glider = vec![Pos(1, 0), Pos(2, 1), Pos(0, 2), Pos(1, 2), Pos(2, 2)];
    let after = step_n(&glider, 4);
    let moved: Vec<Pos> = glider.iter().map(|p| Pos(p.0 + 1, p.1 + 1)).collect();
    assert_eq!(set_of(&after), set_of(&moved));
}

#[test]
fn lone_cell_dies_and_no_duplicates() {
    assert!(next_generation(&vec![Pos(5, 5)]).is_empty());
    let glider = vec![Pos(1, 0), Pos(2, 1), Pos(0, 2), Pos(1, 2), Pos(2, 2)];
    let next = next_generation(&glider);
    assert_eq!(next.len(), set_of(&next).len());
    assert_eq!(next.len(), 5);
}

#[test]
fn cells_at_grid_edge_step_without_overflow() {
    let edge = vec![Pos(i32::MAX, 0), Pos(i32::MAX, 1), Pos(i32::MAX, 2)];
    let next = next_generation(&edge);
    assert_eq!(set_of(&next), set_of(&[Pos(i32::MAX, 1), Pos(i32::MAX - 1, 1)]));
}

#[test]
fn neighbours_ignore_the_cell_itself() {
    let around = vec![Pos(0, 0), Pos(1, 0), Pos(2, 2)];
    let mut with_self = around.clone();
    with_self.push(Pos(1, 1));
    assert_eq!(count_neighbours(&around, Pos(1, 1)), 3);
    assert_eq!(count_neighbours(&with_self, Pos(1, 1)), 3);
    assert_eq!(count_neighbours(&around, Pos(5, 5)), 0);
    assert!(contains(&with_self, Pos(1, 1)));
    assert!(!contains(&around, Pos(1, 1)));
}

#[test]
fn board_neighbours_counts_all_eight() {
    let mut b = Board::new();
    assert_eq!(b.generate_from_file(Some("###\n#.#\n###")), Ok(()));
    assert_eq!(b.neighbours(&Pos(1, 1)), 8);
    assert_eq!(b.neighbours(&Pos(0, 0)), 2);
}

#[test]
fn fps_to_speed_truncates() {
    assert_eq!(Board::fps_to_speed(3), 333);
    assert_eq!(Board::fps_to_speed(30), 33);
    assert_eq!(Board::fps_to_speed(60), 16);
    assert_eq!(Board::fps_to_speed(1), 1000);
}

#[test]
fn new_board_defaults() {
    let b = Board::new();
    assert_eq!(b.fps(), 30);
    assert_eq!(b.speed(), 33);
    assert_eq!(b.board_size(), 100);
    assert_eq!(b.cell_size(), 0);
    assert_eq!((b.pan_x(), b.pan_y()), (0, 0));
    assert_eq!(b.last_step(), 0);
    assert!(b.cells().is_empty());
}

#[test]
fn tick_within_interval_steps_once() {
    let mut b = Board::new();
    b.generate_from_file(Some("###")).unwrap();
    assert!(b.update(1000));
    let after_first = set_of(&b.cells());
    assert_eq!(after_first, set_of(&[Pos(1, -1), Pos(1, 0), Pos(1, 1)]));
    assert!(!b.update(1000 + 32));
    assert_eq!(set_of(&b.cells()), after_first);
    assert_eq!(b.last_step(), 1000);
    assert!(b.update(1000 + 33));
    assert_eq!(set_of(&b.cells()), set_of(&[Pos(0, 0), Pos(1, 0), Pos(2, 0)]));
}

#[test]
fn tick_after_long_pause_steps_once() {
    let mut b = Board::new();
    b.generate_from_file(Some("###")).unwrap();
    assert!(b.update(1_000_000));
    assert_eq!(set_of(&b.cells()), set_of(&[Pos(1, -1), Pos(1, 0), Pos(1, 1)]));
    assert_eq!(b.last_step(), 1_000_000);
}

#[test]
fn tick_before_interval_or_in_past_is_skipped() {
    let mut b = Board::new();
    b.generate_from_file(Some("###")).unwrap();
    assert!(!b.update(10));
    assert!(b.update(500));
    assert!(!b.update(100));
    assert_eq!(set_of(&b.cells()), set_of(&[Pos(1, -1), Pos(1, 0), Pos(1, 1)]));
}

#[test]
fn parse_pattern_marks_hashes() {
    assert_eq!(set_of(&parse_pattern("##\n.#")), set_of(&[Pos(0, 0), Pos(1, 0), Pos(1, 1)]));
}

#[test]
fn parse_pattern_empty_and_fillers() {
    assert!(parse_pattern("").is_empty());
    assert!(parse_pattern("..\n  \n\n").is_empty());
    assert_eq!(set_of(&parse_pattern("\n\n  #")), set_of(&[Pos(2, 2)]));
    assert_eq!(set_of(&parse_pattern("é#")), set_of(&[Pos(1, 0)]));
}

#[test]
fn center_single_cell() {
    let mut b = Board::new();
    b.generate_from_file(Some("#")).unwrap();
    b.center_cells(viewport(500, 500));
    assert_eq!(b.cell_size(), 5);
    assert_eq!(b.cells(), vec![Pos(50, 50)]);
}

#[test]
fn center_uses_larger_side_and_bounding_box() {
    let mut b = Board::new();
    b.generate_from_file(Some("#...#\n..#")).unwrap();
    b.center_cells(viewport(300, 800));
    assert_eq!(b.cell_size(), 8);
    assert_eq!(set_of(&b.cells()), set_of(&[Pos(48, 50), Pos(52, 50), Pos(50, 51)]));
}

#[test]
fn center_offset_values() {
    assert_eq!(center_offset(&Vec::new(), 100), (50, 50));
    assert_eq!(center_offset(&vec![Pos(3, 7), Pos(9, 8)], 10), (2, 5));
}

#[test]
fn shift_cells_refuses_leaving_grid() {
    assert_eq!(shift_cells(&vec![Pos(i32::MAX, 0)], 1, 0), None);
    assert_eq!(shift_cells(&vec![Pos(1, 2)], -3, 4), Some(vec![Pos(-2, 6)]));
}

#[test]
fn project_applies_size_pan_and_origin() {
    let vp = Viewport { min_x: 10, min_y: 20, width: 100, height: 100 };
    assert_eq!(
        project(Pos(3, -2), 5, 7, -4, &vp),
        CellRect { min_x: 18, min_y: 14, max_x: 23, max_y: 19 }
    );
}

#[test]
fn generate_cells_appends_one_rect_per_cell() {
    let mut b = Board::new();
    b.generate_from_file(Some("#\n.#")).unwrap();
    b.center_cells(viewport(200, 100));
    b.set_pan(1, 2);
    let mut shapes = vec![CellRect { min_x: 0, min_y: 0, max_x: 1, max_y: 1 }];
    let vp = viewport(200, 100);
    b.generate_cells(&mut shapes, vp);
    assert_eq!(shapes.len(), 3);
    assert_eq!(shapes[0], CellRect { min_x: 0, min_y: 0, max_x: 1, max_y: 1 });
    let got: HashSet<(i64, i64, i64, i64)> =
        shapes[1..].iter().map(|r| (r.min_x, r.min_y, r.max_x, r.max_y)).collect();
    let want: HashSet<(i64, i64, i64, i64)> =
        [(99, 98, 101, 100), (101, 100, 103, 102)].into_iter().collect();
    assert_eq!(got, want);
}

#[test]
fn reload_from_missing_source_keeps_cells() {
    let mut b = Board::new();
    b.generate_from_file(Some("##\n.#")).unwrap();
    let before = b.cells();
    assert_eq!(b.generate_from_file(None), Err(LoadError::SourceUnavailable));
    assert_eq!(b.cells(), before);
}

#[test]
fn set_fps_checks_range() {
    let mut b = Board::new();
    assert_eq!(b.set_fps(3), Ok(()));
    assert_eq!((b.fps(), b.speed()), (3, 333));
    assert_eq!(b.set_fps(0), Err(ConfigError::InvalidFps));
    assert_eq!(b.set_fps(61), Err(ConfigError::InvalidFps));
    assert_eq!((b.fps(), b.speed()), (3, 333));
    assert_eq!(b.set_fps(60), Ok(()));
    assert_eq!(b.speed(), 16);
}

#[test]
fn set_board_size_checks_range() {
    let mut b = Board::new();
    assert_eq!(b.set_board_size(0), Err(ConfigError::InvalidBoardSize));
    assert_eq!(b.set_board_size(-5), Err(ConfigError::InvalidBoardSize));
    assert_eq!(b.board_size(), 100);
    assert_eq!(b.set_board_size(75), Ok(()));
    assert_eq!(b.board_size(), 75);
}

#[test]
fn pan_moves_offsets() {
    let mut b = Board::new();
    b.pan(5, -3);
    b.pan(-2, -3);
    assert_eq!((b.pan_x(), b.pan_y()), (3, -6));
}

#[test]
fn random_cells_follow_draws() {
    // board size 1: cells (0,0), (0,1), (1,0), (1,1), column by column
    let draws = vec![1u8, 2, 3, 1];
    assert_eq!(set_of(&random_cells(1, &draws)), set_of(&[Pos(0, 0), Pos(1, 1)]));
    assert!(random_cells(0, &vec![3u8]).is_empty());
    assert_eq!(random_cells(0, &vec![1u8]), vec![Pos(0, 0)]);
}

#[test]
fn generate_random_and_clean() {
    let mut b = Board::new();
    b.set_board_size(2).unwrap();
    let draws = vec![1u8, 2, 2, 2, 1, 2, 2, 2, 1];
    b.generate_random(&draws);
    assert_eq!(set_of(&b.cells()), set_of(&[Pos(0, 0), Pos(1, 1), Pos(2, 2)]));
    b.clean();
    assert!(b.cells().is_empty());
}

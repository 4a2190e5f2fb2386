use game_of_life::board::{BoardError, CellBoard};
use game_of_life::components::{CellPosition, CellState};
use game_of_life::loader::parse_state;

fn pos(row: usize, col: usize) -> CellPosition {
    CellPosition { row, col }
}

fn live_cells(board: &CellBoard) -> Vec<CellPosition> {
    let mut cells = Vec::new();
    for row in 0..board.height() {
        for col in 0..board.width() {
            if board.alive(pos(row, col)) {
                cells.push(pos(row, col));
            }
        }
    }
    cells
}

fn board_with(width: usize, height: usize, alive: &[(usize, usize)]) -> CellBoard {
    let mut board = CellBoard::new(width, height);
    for &(row, col) in alive {
        board.set(pos(row, col), CellState::Alive);
    }
    board
}

fn glider_board() -> CellBoard {
    let (cells, (w, h)) = parse_state(b"-X-\n--X\nXXX").unwrap();
    let mut board = CellBoard::new(8, 8);
    board.patch(pos(1, 1), &cells, w, h).unwrap();
    board
}

#[test]
fn new_board_is_all_dead() {
    let board = CellBoard::new(4, 3);
    assert_eq!(board.width(), 4);
    assert_eq!(board.height(), 3);
    assert!(live_cells(&board).is_empty());
}

#[test]
fn from_state_reads_row_major() {
    let state = vec![
        CellState::Dead,
        CellState::Alive,
        CellState::Dead,
        CellState::Alive,
        CellState::Dead,
        CellState::Dead,
    ];
    let board = CellBoard::from_state(3, 2, state).unwrap();
    assert_eq!(live_cells(&board), vec![pos(0, 1), pos(1, 0)]);
}

#[test]
fn from_state_refuses_wrong_length() {
    let state = vec![CellState::Dead; 5];
    assert_eq!(CellBoard::from_state(3, 2, state).err(), Some(BoardError::DimensionMismatch));
}

#[test]
fn set_writes_one_cell() {
    let mut board = CellBoard::new(3, 3);
    board.set(pos(2, 1), CellState::Alive);
    assert_eq!(live_cells(&board), vec![pos(2, 1)]);
    board.set(pos(2, 1), CellState::Dead);
    assert!(live_cells(&board).is_empty());
}

#[test]
fn neighbours_wrap_around_the_corner() {
    let board = CellBoard::new(5, 5);
    let ns = board.neighbours(pos(0, 0));
    assert_eq!(
        ns,
        vec![pos(4, 4), pos(4, 0), pos(4, 1), pos(0, 4), pos(0, 1), pos(1, 4), pos(1, 0), pos(1, 1)]
    );
}

#[test]
fn neighbours_are_eight_distinct_cells_on_the_board() {
    let board = CellBoard::new(5, 4);
    for row in 0..4 {
        for col in 0..5 {
            let p = pos(row, col);
            let ns = board.neighbours(p);
            assert_eq!(ns.len(), 8);
            for (k, n) in ns.iter().enumerate() {
                assert!(n.row < 4 && n.col < 5);
                assert_ne!(*n, p);
                for m in &ns[k + 1..] {
                    assert_ne!(n, m);
                }
            }
        }
    }
}

#[test]
fn neighbours_opposite_edge() {
    let board = CellBoard::new(5, 5);
    let ns = board.neighbours(pos(4, 4));
    assert_eq!(ns[7], pos(0, 0));
    assert_eq!(ns[4], pos(4, 0));
    assert_eq!(ns[6], pos(0, 4));
}

#[test]
fn neighbours_on_a_single_cell_board_are_the_cell() {
    let board = CellBoard::new(1, 1);
    assert_eq!(board.neighbours(pos(0, 0)), vec![pos(0, 0); 8]);
}

#[test]
fn glider_first_generation_delta() {
    let mut board = glider_board();
    let delta = board.cycle();
    assert_eq!(
        delta,
        vec![
            (pos(1, 2), CellState::Dead),
            (pos(2, 1), CellState::Alive),
            (pos(3, 1), CellState::Dead),
            (pos(4, 2), CellState::Alive),
        ]
    );
    assert_eq!(live_cells(&board), vec![pos(2, 1), pos(2, 3), pos(3, 2), pos(3, 3), pos(4, 2)]);
}

#[test]
fn glider_returns_shifted_after_four_generations() {
    let mut board = glider_board();
    for _ in 0..4 {
        board.cycle();
    }
    assert_eq!(live_cells(&board), vec![pos(2, 3), pos(3, 4), pos(4, 2), pos(4, 3), pos(4, 4)]);
}

#[test]
fn glider_wraps_across_the_edges() {
    let (cells, (w, h)) = parse_state(b"-X-\n--X\nXXX").unwrap();
    let mut board = CellBoard::new(6, 6);
    board.patch(pos(3, 3), &cells, w, h).unwrap();
    for _ in 0..24 {
        board.cycle();
    }
    assert_eq!(live_cells(&board), vec![pos(3, 4), pos(4, 5), pos(5, 3), pos(5, 4), pos(5, 5)]);
}

#[test]
fn isolated_cell_dies() {
    let mut board = board_with(5, 5, &[(2, 2)]);
    assert_eq!(board.cycle(), vec![(pos(2, 2), CellState::Dead)]);
    assert!(live_cells(&board).is_empty());
}

#[test]
fn lone_cell_on_single_cell_board_dies() {
    let mut board = board_with(1, 1, &[(0, 0)]);
    assert_eq!(board.cycle(), vec![(pos(0, 0), CellState::Dead)]);
}

#[test]
fn block_is_stable() {
    let mut board = board_with(4, 4, &[(1, 1), (1, 2), (2, 1), (2, 2)]);
    assert!(board.cycle().is_empty());
    assert_eq!(live_cells(&board), vec![pos(1, 1), pos(1, 2), pos(2, 1), pos(2, 2)]);
    let mut larger = board_with(6, 7, &[(3, 2), (3, 3), (4, 2), (4, 3)]);
    assert!(larger.cycle().is_empty());
}

#[test]
fn blinker_oscillates() {
    let mut board = board_with(5, 5, &[(2, 1), (2, 2), (2, 3)]);
    let delta = board.cycle();
    assert_eq!(
        delta,
        vec![
            (pos(1, 2), CellState::Alive),
            (pos(2, 1), CellState::Dead),
            (pos(2, 3), CellState::Dead),
            (pos(3, 2), CellState::Alive),
        ]
    );
    board.cycle();
    assert_eq!(live_cells(&board), vec![pos(2, 1), pos(2, 2), pos(2, 3)]);
}

#[test]
fn delta_is_in_row_major_order() {
    let mut board = board_with(7, 6, &[(5, 6), (0, 0), (3, 3), (3, 4), (3, 5), (1, 5)]);
    let delta = board.cycle();
    assert!(delta.len() > 2);
    for pair in delta.windows(2) {
        let (a, b) = (pair[0].0, pair[1].0);
        assert!(a.row * 7 + a.col < b.row * 7 + b.col);
    }
}

#[test]
fn alive_is_stable_without_mutation() {
    let board = board_with(3, 3, &[(1, 1)]);
    for _ in 0..3 {
        assert!(board.alive(pos(1, 1)));
        assert!(!board.alive(pos(0, 1)));
    }
}

#[test]
fn patch_past_right_edge_is_refused() {
    let mut board = board_with(5, 5, &[(0, 0)]);
    let patch = vec![true; 3];
    assert_eq!(board.patch(pos(0, 3), &patch, 3, 1), Err(BoardError::PatchOutOfBounds));
    assert_eq!(live_cells(&board), vec![pos(0, 0)]);
}

#[test]
fn patch_below_bottom_edge_is_refused() {
    let mut board = CellBoard::new(5, 5);
    let patch = vec![true; 2];
    assert_eq!(board.patch(pos(4, 0), &patch, 1, 2), Err(BoardError::PatchOutOfBounds));
}

#[test]
fn patch_at_invalid_origin_is_refused() {
    let mut board = CellBoard::new(5, 5);
    assert_eq!(board.patch(pos(0, 5), &[], 0, 0), Err(BoardError::InvalidPosition));
    assert_eq!(board.patch(pos(5, 0), &[], 0, 0), Err(BoardError::InvalidPosition));
}

#[test]
fn patch_with_wrong_length_is_refused() {
    let mut board = CellBoard::new(5, 5);
    let patch = vec![true; 3];
    assert_eq!(board.patch(pos(1, 1), &patch, 2, 2), Err(BoardError::DimensionMismatch));
}

#[test]
fn patch_that_fits_exactly_keeps_other_cells() {
    let mut board = board_with(5, 4, &[(0, 0), (3, 4), (1, 2)]);
    let patch = vec![true, false, false, true];
    assert_eq!(board.patch(pos(1, 3), &patch, 2, 2), Ok(()));
    assert_eq!(
        live_cells(&board),
        vec![pos(0, 0), pos(1, 2), pos(1, 3), pos(2, 4), pos(3, 4)]
    );
}

#[test]
fn centred_pattern_is_placed_in_the_middle() {
    let board = CellBoard::with_centered_pattern(7, 6, &[true, false, false, true], 2, 2).unwrap();
    assert_eq!(live_cells(&board), vec![pos(2, 2), pos(3, 3)]);
}

#[test]
fn centred_pattern_larger_than_board_is_refused() {
    let r = CellBoard::with_centered_pattern(3, 3, &[true; 4], 4, 1);
    assert_eq!(r.err(), Some(BoardError::PatchOutOfBounds));
    let r = CellBoard::with_centered_pattern(3, 3, &[true; 3], 2, 2);
    assert_eq!(r.err(), Some(BoardError::DimensionMismatch));
}

#[test]
fn loaded_pattern_reads_back_through_alive() {
    let text = "X--X\n-XX-\nX-X-\n";
    let (cells, (w, h)) = parse_state(text.as_bytes()).unwrap();
    assert_eq!((w, h), (4, 3));
    let board = CellBoard::with_centered_pattern(w, h, &cells, w, h).unwrap();
    for (row, line) in text.lines().enumerate() {
        for (col, c) in line.chars().enumerate() {
            assert_eq!(board.alive(pos(row, col)), c == 'X');
        }
    }
}

use minehunter::{Board, BoardState, Cell, CellState, ConfigError, MineField, Outcome, Shape};

fn count_mines(mf: &MineField) -> usize {
    let mut n = 0;
    for irow in 0..mf.nrows() {
        for icol in 0..mf.ncols() {
            if matches!(mf.get(irow, icol), Cell::Mine) {
                n += 1;
            }
        }
    }
    n
}

#[test]
fn new_minefield() {
    let mf = MineField::new(3, 4, &[(1, 2), (0, 0)]);
    assert_eq!(mf.nrows(), 3);
    assert_eq!(mf.ncols(), 4);
    assert!(matches!(mf.get(1, 2), Cell::Mine));
    assert!(matches!(mf.get(0, 0), Cell::Mine));
    assert!(matches!(mf.get(2, 1), Cell::Neighbouring(1)));
    assert!(matches!(mf.get(0, 1), Cell::Neighbouring(2)));
    assert!(matches!(mf.get(1, 1), Cell::Neighbouring(2)));
    assert!(matches!(mf.get(2, 0), Cell::Clear));
    assert!(matches!(mf.get(1, 3), Cell::Neighbouring(1)));
}

#[test]
fn rand_new_minefield() {
    let mf = MineField::with_rand_mines(15, 4, 8).unwrap();
    let nmines: usize = (0..15)
        .map(|irow| {
            (0..4)
                .filter(|&icol| matches!(mf.get(irow, icol), Cell::Mine))
                .count()
        })
        .sum();
    assert_eq!(mf.nrows(), 15);
    assert_eq!(mf.ncols(), 4);
    assert_eq!(nmines, 8);
}

#[test]
fn rand_new_minefield_avoiding() {
    let mf = MineField::with_rand_mines_avoiding(3, 3, 5, 0, 0).unwrap();
    assert!(matches!(mf.get(0, 0), Cell::Clear));
    assert!(matches!(mf.get(0, 1), Cell::Neighbouring(2)));
    assert!(matches!(mf.get(1, 1), Cell::Neighbouring(5)));
}

#[test]
fn board_reveal() {
    let mut board = Board::new(MineField::new(5, 5, &[(2, 2)]));
    board.reveal_cell(1, 1);
    assert!(matches!(board.get(0, 0), CellState::Hidden));
    assert!(matches!(
        board.get(1, 1),
        CellState::Visible(Cell::Neighbouring(1))
    ));
    board.reveal_cell(4, 4);
    assert!(matches!(board.get(0, 0), CellState::Visible(Cell::Clear)));
}

#[test]
fn neighbourhood_includes_self() {
    let shape = Shape { nrows: 4, ncols: 5 };
    let inner = shape.neighbours(1, 1);
    assert_eq!(inner.len(), 9);
    assert!(inner.contains(&(1, 1)));
    assert_eq!(
        inner,
        vec![(0, 0), (0, 1), (0, 2), (1, 0), (1, 1), (1, 2), (2, 0), (2, 1), (2, 2)]
    );
    assert_eq!(shape.neighbours(0, 0), vec![(0, 0), (0, 1), (1, 0), (1, 1)]);
    assert_eq!(shape.neighbours(3, 4), vec![(2, 3), (2, 4), (3, 3), (3, 4)]);
    assert_eq!(shape.neighbours(0, 2).len(), 6);
    assert_eq!(shape.neighbours(2, 4).len(), 6);
    let single = Shape { nrows: 1, ncols: 1 };
    assert_eq!(single.neighbours(0, 0), vec![(0, 0)]);
}

#[test]
fn cells_in_row_major_order() {
    let shape = Shape { nrows: 2, ncols: 3 };
    assert_eq!(shape.ncells(), 6);
    assert_eq!(
        shape.cells(),
        vec![(0, 0), (0, 1), (0, 2), (1, 0), (1, 1), (1, 2)]
    );
}

#[test]
fn explicit_mines_duplicates_collapse() {
    let mf = MineField::new(3, 3, &[(1, 1), (1, 1), (0, 0)]);
    assert_eq!(mf.nmines(), 2);
    assert_eq!(count_mines(&mf), 2);
    assert_eq!(mf.get(0, 1), Cell::Neighbouring(2));
    assert_eq!(mf.get(2, 2), Cell::Neighbouring(1));
}

#[test]
fn explicit_mines_counts_match_neighbourhood() {
    let mines = [(0, 0), (0, 2), (1, 1), (2, 0), (2, 2)];
    let mf = MineField::new(3, 3, &mines);
    assert_eq!(mf.nmines(), 5);
    assert_eq!(mf.get(0, 1), Cell::Neighbouring(3));
    assert_eq!(mf.get(1, 0), Cell::Neighbouring(3));
    let mf = MineField::new(3, 3, &[(0, 0), (0, 1), (0, 2), (1, 0), (1, 2), (2, 0), (2, 1), (2, 2)]);
    assert_eq!(mf.get(1, 1), Cell::Neighbouring(8));
    let empty = MineField::new(2, 2, &[]);
    assert_eq!(empty.nmines(), 0);
    assert_eq!(empty.get(1, 1), Cell::Clear);
}

#[test]
fn random_mines_exact_count_all_cells() {
    let mf = MineField::with_rand_mines(3, 3, 9).unwrap();
    assert_eq!(mf.nmines(), 9);
    assert_eq!(count_mines(&mf), 9);
    let mf = MineField::with_rand_mines(4, 4, 0).unwrap();
    assert_eq!(count_mines(&mf), 0);
}

#[test]
fn random_mines_too_many() {
    let r = MineField::with_rand_mines(2, 3, 7);
    assert!(matches!(
        r,
        Err(ConfigError::TooManyMines { requested: 7, available: 6 })
    ));
}

#[test]
fn random_mines_avoiding_keeps_block_free() {
    for _ in 0..20 {
        let mf = MineField::with_rand_mines_avoiding(6, 7, 20, 3, 3).unwrap();
        assert_eq!(mf.nmines(), 20);
        assert_eq!(count_mines(&mf), 20);
        for (ir, ic) in (Shape { nrows: 6, ncols: 7 }).neighbours(3, 3) {
            assert!(!matches!(mf.get(ir, ic), Cell::Mine));
        }
        assert_eq!(mf.get(3, 3), Cell::Clear);
    }
}

#[test]
fn random_mines_avoiding_corner_limit() {
    let ok = MineField::with_rand_mines_avoiding(4, 4, 12, 0, 0).unwrap();
    assert_eq!(count_mines(&ok), 12);
    let r = MineField::with_rand_mines_avoiding(4, 4, 13, 0, 0);
    assert!(matches!(
        r,
        Err(ConfigError::TooManyMines { requested: 13, available: 12 })
    ));
    let r = MineField::with_rand_mines_avoiding(3, 3, 1, 1, 1);
    assert!(matches!(
        r,
        Err(ConfigError::TooManyMines { requested: 1, available: 0 })
    ));
}

#[test]
fn reveal_twice_is_idempotent() {
    let mut board = Board::new(MineField::new(5, 5, &[(2, 2)]));
    let first = board.reveal_cell(4, 4);
    let after_first: Vec<CellState> = Shape { nrows: 5, ncols: 5 }
        .cells()
        .into_iter()
        .map(|(r, c)| board.get(r, c))
        .collect();
    let second = board.reveal_cell(4, 4);
    let after_second: Vec<CellState> = Shape { nrows: 5, ncols: 5 }
        .cells()
        .into_iter()
        .map(|(r, c)| board.get(r, c))
        .collect();
    assert_eq!(first, Cell::Clear);
    assert_eq!(first, second);
    assert_eq!(after_first, after_second);
}

#[test]
fn flood_fill_stops_at_ring() {
    // A wall of mines in column 2 splits the board.
    let mut board = Board::new(MineField::new(3, 5, &[(0, 2), (1, 2), (2, 2)]));
    assert_eq!(board.reveal_cell(1, 0), Cell::Clear);
    for r in 0..3 {
        assert!(matches!(board.get(r, 0), CellState::Visible(Cell::Clear)));
        assert!(matches!(board.get(r, 1), CellState::Visible(Cell::Neighbouring(_))));
        assert_eq!(board.get(r, 2), CellState::Hidden);
        assert_eq!(board.get(r, 3), CellState::Hidden);
        assert_eq!(board.get(r, 4), CellState::Hidden);
    }
    assert!(matches!(board.outcome(), Outcome::Ongoing));
}

#[test]
fn reveal_number_cell_reveals_only_it() {
    let mut board = Board::new(MineField::new(3, 3, &[(0, 0)]));
    assert_eq!(board.reveal_cell(1, 1), Cell::Neighbouring(1));
    assert_eq!(board.get(1, 2), CellState::Hidden);
    assert_eq!(board.get(2, 2), CellState::Hidden);
}

#[test]
fn reveal_overrides_flag() {
    let mut board = Board::new(MineField::new(3, 3, &[(0, 0)]));
    board.toggle_flag(2, 2);
    assert_eq!(board.get(2, 2), CellState::Flagged);
    assert_eq!(board.reveal_cell(2, 2), Cell::Clear);
    assert_eq!(board.get(2, 2), CellState::Visible(Cell::Clear));
    assert_eq!(board.get(1, 1), CellState::Visible(Cell::Neighbouring(1)));
}

#[test]
fn flag_round_trip() {
    let mut board = Board::new(MineField::new(3, 3, &[(0, 0)]));
    board.toggle_flag(0, 0);
    assert_eq!(board.get(0, 0), CellState::Flagged);
    assert_eq!(board.nflagged(), 1);
    board.toggle_flag(0, 0);
    assert_eq!(board.get(0, 0), CellState::Hidden);
    assert_eq!(board.nflagged(), 0);
    board.reveal_cell(1, 1);
    board.toggle_flag(1, 1);
    assert_eq!(board.get(1, 1), CellState::Visible(Cell::Neighbouring(1)));
    assert_eq!(board.nflagged(), 0);
}

#[test]
fn outcome_lost_when_mine_visible() {
    let mut board = Board::new(MineField::new(2, 2, &[(0, 0)]));
    assert_eq!(board.outcome(), Outcome::Ongoing);
    assert_eq!(board.reveal_cell(0, 0), Cell::Mine);
    assert_eq!(board.outcome(), Outcome::Lost);
}

#[test]
fn outcome_won_when_only_mines_covered() {
    let mut board = Board::new(MineField::new(2, 2, &[(0, 0)]));
    assert_eq!(board.nmines(), 1);
    board.reveal_cell(0, 1);
    board.reveal_cell(1, 0);
    assert_eq!(board.outcome(), Outcome::Ongoing);
    board.reveal_cell(1, 1);
    assert_eq!(board.outcome(), Outcome::Won);
    board.toggle_flag(0, 0);
    assert_eq!(board.outcome(), Outcome::Won);
}

#[test]
fn chord_reveals_hidden_neighbours() {
    let mut board = Board::new(MineField::new(3, 3, &[(0, 0)]));
    board.reveal_cell(1, 1);
    // No flag yet: nothing happens.
    board.reveal_around(1, 1);
    assert_eq!(board.get(2, 2), CellState::Hidden);
    board.toggle_flag(0, 0);
    board.reveal_around(1, 1);
    assert_eq!(board.get(0, 0), CellState::Flagged);
    assert_eq!(board.get(2, 2), CellState::Visible(Cell::Clear));
    assert_eq!(board.get(0, 1), CellState::Visible(Cell::Neighbouring(1)));
    assert_eq!(board.outcome(), Outcome::Won);
}

#[test]
fn chord_with_wrong_flag_reveals_mine() {
    let mut board = Board::new(MineField::new(3, 3, &[(0, 0)]));
    board.reveal_cell(1, 1);
    board.toggle_flag(2, 2);
    board.reveal_around(1, 1);
    assert_eq!(board.get(0, 0), CellState::Visible(Cell::Mine));
    // The flood from the clear cell (1, 2) uncovers the wrongly flagged (2, 2).
    assert_eq!(board.get(2, 2), CellState::Visible(Cell::Clear));
    assert_eq!(board.outcome(), Outcome::Lost);
}

#[test]
fn game_first_click_is_safe() {
    let mut game = BoardState::Waiting(Shape { nrows: 8, ncols: 8 }, 10);
    assert_eq!(game.get(3, 3), CellState::Hidden);
    game.toggle_flag(3, 3);
    assert_eq!(game.get(3, 3), CellState::Hidden);
    assert!(game.reveal_cell(3, 3, 1000).is_ok());
    assert!(matches!(game, BoardState::Initialized(_, 1000)));
    assert_eq!(game.get(3, 3), CellState::Visible(Cell::Clear));
    assert_eq!(game.nmines(), 10);
    assert_eq!(game.shape().nrows, 8);
    game.update_win_lost(2000);
    assert!(matches!(game, BoardState::Initialized(_, 1000)));
}

#[test]
fn game_too_many_mines_stays_waiting() {
    let mut game = BoardState::Waiting(Shape { nrows: 3, ncols: 3 }, 1);
    let r = game.reveal_cell(1, 1, 5);
    assert!(matches!(
        r,
        Err(ConfigError::TooManyMines { requested: 1, available: 0 })
    ));
    assert!(matches!(game, BoardState::Waiting(_, 1)));
}

#[test]
fn game_won_flags_remaining_and_keeps_time() {
    let mut game = BoardState::Waiting(Shape { nrows: 3, ncols: 3 }, 0);
    assert!(game.reveal_cell(0, 0, 100).is_ok());
    game.update_win_lost(1600);
    assert!(matches!(game, BoardState::Won(_, 1500)));

    let mut game = BoardState::Initialized(Board::new(MineField::new(2, 2, &[(1, 1)])), 10);
    assert!(game.reveal_cell(0, 0, 20).is_ok());
    game.update_win_lost(30);
    assert!(matches!(game, BoardState::Initialized(_, 10)));
    game.reveal_cell(0, 1, 40).unwrap();
    game.reveal_cell(1, 0, 40).unwrap();
    game.update_win_lost(5);
    assert!(matches!(game, BoardState::Won(_, 0)));
    assert_eq!(game.get(1, 1), CellState::Flagged);
    // Nothing changes once the game is over.
    game.reveal_cell(1, 1, 50).unwrap();
    assert_eq!(game.get(1, 1), CellState::Flagged);
}

#[test]
fn game_lost_on_mine() {
    let mut game = BoardState::Initialized(Board::new(MineField::new(2, 2, &[(1, 1)])), 0);
    game.toggle_flag(0, 0);
    assert_eq!(game.get(0, 0), CellState::Flagged);
    game.reveal_cell(1, 1, 1).unwrap();
    game.update_win_lost(2);
    assert!(matches!(game, BoardState::Lost(_)));
    assert_eq!(game.get(1, 1), CellState::Visible(Cell::Mine));
}

#[test]
fn game_chord_only_in_play() {
    let mut game = BoardState::Initialized(Board::new(MineField::new(3, 3, &[(0, 0)])), 0);
    game.reveal_cell(1, 1, 0).unwrap();
    game.toggle_flag(0, 0);
    game.reveal_around_nb(1, 1);
    assert_eq!(game.get(2, 2), CellState::Visible(Cell::Clear));
    game.update_win_lost(7);
    assert!(matches!(game, BoardState::Won(_, 7)));
}

#[test]
fn duration_text() {
    assert_eq!(minehunter::format_duration(0), "0.000");
    assert_eq!(minehunter::format_duration(1234), "1.234");
    assert_eq!(minehunter::format_duration(59_999), "59.999");
    assert_eq!(minehunter::format_duration(61_005), "1:01.005");
    assert_eq!(minehunter::format_duration(600_000), "10:00.000");
    assert_eq!(minehunter::format_duration(7_322_070), "122:02.070");
}

use reversi::board::BoardError;
use reversi::board::BoardState;
use reversi::board::Turn;

/// Build a board of side `size` holding exactly the given pieces, with
/// `turn` to move.
fn make_board(size: usize, pieces: &[(usize, usize, Turn)], turn: Turn) -> BoardState {
    let mut cells: Vec<Option<Turn>> = vec![None; size * size];
    for &(i, j, p) in pieces {
        cells[i * size + j] = Some(p);
    }
    BoardState { size, cells, turn, finished: false }
}

fn occupied(b: &BoardState) -> usize {
    b.cells.iter().filter(|c| c.is_some()).count()
}

#[test]
fn initial_state_size8() {
    let b = BoardState::new(8, false).unwrap();
    assert_eq!(occupied(&b), 4);
    assert_eq!(b.cell_at(3, 3), Ok(Some(Turn::White)));
    assert_eq!(b.cell_at(4, 4), Ok(Some(Turn::White)));
    assert_eq!(b.cell_at(3, 4), Ok(Some(Turn::Black)));
    assert_eq!(b.cell_at(4, 3), Ok(Some(Turn::Black)));
    assert_eq!(b.which_turn(), Turn::Black);
    assert_eq!(b.get_size(), 8);
    assert!(!b.is_finished());
    let m = b.cnt_reversable();
    // no captures are possible at the four occupied cells
    assert_eq!(m[3][3], 0);
    assert_eq!(m[3][4], 0);
    assert_eq!(m[4][3], 0);
    assert_eq!(m[4][4], 0);
    // exactly four legal moves for the starting player, diagonal-adjacent
    // to the center cluster
    let mut legal: Vec<(usize, usize)> = Vec::new();
    for i in 0..8 {
        for j in 0..8 {
            if m[i][j] > 0 {
                legal.push((i, j));
            }
        }
    }
    legal.sort();
    assert_eq!(legal, vec![(2, 3), (3, 2), (4, 5), (5, 4)]);
}

#[test]
fn initial_state_mirror_variant() {
    let b = BoardState::new(8, true).unwrap();
    assert_eq!(b.cell_at(3, 3), Ok(Some(Turn::Black)));
    assert_eq!(b.cell_at(4, 4), Ok(Some(Turn::Black)));
    assert_eq!(b.cell_at(3, 4), Ok(Some(Turn::White)));
    assert_eq!(b.cell_at(4, 3), Ok(Some(Turn::White)));
}

#[test]
fn invalid_configuration_rejected() {
    assert_eq!(BoardState::new(5, false).unwrap_err(), BoardError::InvalidConfiguration);
    assert_eq!(BoardState::new(2, false).unwrap_err(), BoardError::InvalidConfiguration);
    assert_eq!(BoardState::new(0, true).unwrap_err(), BoardError::InvalidConfiguration);
}

#[test]
fn score_partitions_occupied_cells() {
    let mut b = BoardState::new(8, false).unwrap();
    let ((_, s1), (_, s2)) = b.count_pieces();
    assert_eq!(s1 + s2, occupied(&b));
    b.put(2, 3).unwrap();
    let ((_, s1), (_, s2)) = b.count_pieces();
    assert_eq!(s1 + s2, occupied(&b));
    b.put(2, 2).unwrap();
    let ((_, s1), (_, s2)) = b.count_pieces();
    assert_eq!(s1 + s2, occupied(&b));
}

#[test]
fn placement_adds_one_and_flips_matrix_count() {
    let mut b = BoardState::new(8, false).unwrap();
    let m = b.cnt_reversable();
    assert_eq!(m[2][3], 1);
    let ((_, black_before), (_, white_before)) = b.count_pieces();
    let before = occupied(&b);
    b.put(2, 3).unwrap();
    assert_eq!(occupied(&b), before + 1);
    let ((_, black_after), (_, white_after)) = b.count_pieces();
    // the mover gains the placed piece plus the flipped run; the opponent
    // loses exactly the flipped run, whose size the matrix predicted
    assert_eq!(black_after, black_before + 1 + m[2][3]);
    assert_eq!(white_after, white_before - m[2][3]);
}

#[test]
fn queries_are_idempotent() {
    let b = BoardState::new(8, false).unwrap();
    assert_eq!(b.cnt_reversable(), b.cnt_reversable());
    assert_eq!(b.count_pieces(), b.count_pieces());
}

#[test]
fn end_to_end_opening_move() {
    let mut b = BoardState::new(8, false).unwrap();
    let m = b.cnt_reversable();
    assert_eq!(m[2][3], 1);
    let r = b.put(2, 3);
    assert_eq!(r, Ok(true));
    assert_eq!(occupied(&b), 5);
    // the captured cell flipped to the mover
    assert_eq!(b.cell_at(3, 3), Ok(Some(Turn::Black)));
    assert_eq!(b.cell_at(2, 3), Ok(Some(Turn::Black)));
    // the opponent has moves, so the turn switches
    assert_eq!(b.which_turn(), Turn::White);
    assert!(!b.is_finished());
}

#[test]
fn illegal_moves_leave_state_unchanged() {
    let mut b = BoardState::new(8, false).unwrap();
    let cells_before = b.cells.clone();
    let turn_before = b.which_turn();
    // occupied cell
    assert_eq!(b.put(3, 3), Err(BoardError::IllegalMove));
    assert_eq!(b.cells, cells_before);
    assert_eq!(b.which_turn(), turn_before);
    // empty cell with zero captures
    assert_eq!(b.put(0, 0), Err(BoardError::IllegalMove));
    assert_eq!(b.cells, cells_before);
    assert_eq!(b.which_turn(), turn_before);
    // out-of-range coordinates
    assert_eq!(b.put(8, 0), Err(BoardError::InvalidCoordinate));
    assert_eq!(b.put(0, 8), Err(BoardError::InvalidCoordinate));
    assert_eq!(b.cells, cells_before);
    assert_eq!(b.which_turn(), turn_before);
    assert!(!b.is_finished());
}

#[test]
fn invalid_coordinate_on_cell_query() {
    let b = BoardState::new(4, false).unwrap();
    assert_eq!(b.cell_at(4, 0).unwrap_err(), BoardError::InvalidCoordinate);
    assert_eq!(b.cell_at(0, 4).unwrap_err(), BoardError::InvalidCoordinate);
    assert_eq!(b.cell_at(1, 1), Ok(Some(Turn::White)));
}

#[test]
fn pass_keeps_turn_when_opponent_is_stuck() {
    // After Black plays the corner, White has no legal answer anywhere,
    // but Black can still capture the second White piece later: the turn
    // stays with Black (an implicit pass).
    let mut b = make_board(
        4,
        &[
            (0, 1, Turn::White),
            (0, 2, Turn::Black),
            (0, 3, Turn::Black),
            (2, 0, Turn::White),
            (3, 0, Turn::Black),
        ],
        Turn::Black,
    );
    let r = b.put(0, 0);
    assert_eq!(r, Ok(true));
    assert_eq!(b.which_turn(), Turn::Black);
    assert!(!b.is_finished());
}

#[test]
fn game_ends_when_no_player_can_move() {
    // Capturing the only White piece leaves no capture for either side.
    let mut b = make_board(
        4,
        &[(0, 1, Turn::White), (0, 2, Turn::Black), (0, 3, Turn::Black)],
        Turn::Black,
    );
    let r = b.put(0, 0);
    assert_eq!(r, Ok(false));
    assert!(b.is_finished());
    let ((c1, s1), (c2, s2)) = b.count_pieces();
    assert_eq!((c1, s1), (Turn::Black, 4));
    assert_eq!((c2, s2), (Turn::White, 0));
}

#[test]
fn multi_direction_capture_flips_every_closed_run() {
    // Placing at (0, 3) captures two pieces leftward, one downward and
    // one down-left: the matrix predicts 4 and the score moves by 4.
    let mut b = make_board(
        4,
        &[
            (0, 0, Turn::Black),
            (0, 1, Turn::White),
            (0, 2, Turn::White),
            (1, 3, Turn::White),
            (2, 3, Turn::Black),
            (1, 2, Turn::White),
            (2, 1, Turn::Black),
        ],
        Turn::Black,
    );
    let m = b.cnt_reversable();
    assert_eq!(m[0][3], 4);
    let r = b.put(0, 3);
    // every White piece is captured, so nobody can capture any more
    assert_eq!(r, Ok(false));
    assert!(b.is_finished());
    let ((_, s1), (_, s2)) = b.count_pieces();
    assert_eq!(s1, 8);
    assert_eq!(s2, 0);
    for (i, j) in [(0, 1), (0, 2), (1, 3), (1, 2)] {
        assert_eq!(b.cell_at(i, j), Ok(Some(Turn::Black)));
    }
}

#[test]
fn tie_is_reported_as_equal_counts() {
    // The fresh board already holds two pieces a side: a tied score.
    let b = BoardState::new(4, false).unwrap();
    let ((c1, s1), (c2, s2)) = b.count_pieces();
    assert_eq!(c1, Turn::Black);
    assert_eq!(c2, Turn::White);
    assert_eq!(s1, s2);
    // a tie compares as neither side ahead
    assert!(!(s1 > s2) && !(s2 > s1));
}

use reversi::advisor::suggest_move;
use reversi::board::BoardError;
use reversi::board::BoardState;
use reversi::board::Turn;

fn make_board(size: usize, pieces: &[(usize, usize, Turn)], turn: Turn) -> BoardState {
    let mut cells: Vec<Option<Turn>> = vec![None; size * size];
    for &(i, j, p) in pieces {
        cells[i * size + j] = Some(p);
    }
    BoardState { size, cells, turn, finished: false }
}

#[test]
fn advisor_suggests_a_legal_move() {
    let b = BoardState::new(8, false).unwrap();
    let m = b.cnt_reversable();
    for _ in 0..20 {
        let (i, j) = suggest_move(&b).unwrap();
        assert!(i < 8 && j < 8);
        assert!(m[i][j] > 0);
    }
}

#[test]
fn advisor_always_takes_the_single_legal_corner() {
    // (0, 0) is the only legal corner for Black: placing there captures
    // (0, 1).  (2, 0) is a legal non-corner cell, so both pools are
    // non-empty and the corner pool must win every time.
    let b = make_board(
        4,
        &[
            (0, 1, Turn::White),
            (0, 2, Turn::Black),
            (2, 1, Turn::White),
            (2, 2, Turn::Black),
        ],
        Turn::Black,
    );
    let m = b.cnt_reversable();
    assert!(m[0][0] > 0);
    assert!(m[2][0] > 0);
    for _ in 0..50 {
        assert_eq!(suggest_move(&b), Ok((0, 0)));
    }
}

#[test]
fn advisor_reports_no_legal_move() {
    // an empty grid offers no capture to anyone
    let b = make_board(4, &[], Turn::Black);
    assert_eq!(suggest_move(&b), Err(BoardError::NoLegalMove));
}

use connect4::game::{Board, BoardError, GamePlayError, RulesVariation, Token};

fn classic() -> Board {
    Board::new(RulesVariation::Classic)
}

fn column(b: &Board, col: usize) -> Vec<Token> {
    (0..b.rows).map(|r| b.token_at(col, r).unwrap()).collect()
}

fn all_cells(b: &Board) -> Vec<Vec<Token>> {
    (0..b.cols).map(|c| column(b, c)).collect()
}

#[test]
fn new_board_is_empty_classic() {
    let b = classic();
    assert_eq!(b.cols, 7);
    assert_eq!(b.rows, 6);
    assert_eq!(b.current_token, Token::Red);
    for c in 0..7 {
        assert_eq!(column(&b, c), vec![Token::Invalid; 6]);
        assert_eq!(b.find_row_for_col(c), None);
    }
    assert_eq!(b.serialize(), "");
    assert_eq!(b.token_at(7, 0), None);
    assert_eq!(b.token_at(0, 6), None);
}

#[test]
fn drop_lands_on_lowest_empty_row() {
    let mut b = classic();
    assert_eq!(b.drop(2), Ok(()));
    assert_eq!(b.find_row_for_col(2), Some(0));
    b.switch_token();
    assert_eq!(b.drop(2), Ok(()));
    assert_eq!(b.find_row_for_col(2), Some(1));
    assert_eq!(b.token_at(2, 0), Some(Token::Red));
    assert_eq!(b.token_at(2, 1), Some(Token::Yellow));
    assert_eq!(b.token_at(2, 2), Some(Token::Invalid));
    assert_eq!(b.find_row_for_col(3), None);
}

#[test]
fn drop_does_not_switch_turn() {
    let mut b = classic();
    assert_eq!(b.drop(0), Ok(()));
    assert_eq!(b.current_token, Token::Red);
    assert_eq!(b.drop(0), Ok(()));
    assert_eq!(column(&b, 0)[..2], [Token::Red, Token::Red]);
}

#[test]
fn drop_on_full_column_fails_and_changes_nothing() {
    let mut b = classic();
    for _ in 0..6 {
        assert_eq!(b.drop(4), Ok(()));
        b.switch_token();
    }
    let cells = all_cells(&b);
    let saved = b.serialize();
    let turn = b.current_token;
    assert_eq!(b.drop(4), Err(GamePlayError::ColumnFull));
    assert_eq!(all_cells(&b), cells);
    assert_eq!(b.serialize(), saved);
    assert_eq!(b.current_token, turn);
    assert_eq!(b.find_row_for_col(4), Some(5));
}

#[test]
fn drop_out_of_range_is_invalid_column() {
    let mut b = classic();
    assert_eq!(b.drop(7), Err(GamePlayError::InvalidColumn));
    assert_eq!(b.drop(8), Err(GamePlayError::InvalidColumn));
    assert_eq!(b.drop(usize::MAX), Err(GamePlayError::InvalidColumn));
    assert_eq!(b.serialize(), "");
    assert_eq!(all_cells(&b), vec![vec![Token::Invalid; 6]; 7]);
    assert_eq!(b.drop(6), Ok(()));
}

#[test]
fn find_row_out_of_range_is_none() {
    let b = classic();
    assert_eq!(b.find_row_for_col(7), None);
}

#[test]
fn round_trip_through_saved_text() {
    let mut b = classic();
    for c in [3usize, 3, 4, 2, 6, 0, 3, 5, 1, 1] {
        assert_eq!(b.drop(c), Ok(()));
        b.switch_token();
    }
    let saved = b.serialize();
    assert_eq!(saved, "3342603511");
    let loaded = match Board::from_string(&saved) {
        Ok(l) => l,
        Err(e) => panic!("load failed: {:?}", e),
    };
    assert_eq!(all_cells(&loaded), all_cells(&b));
    assert_eq!(loaded.serialize(), saved);
    assert_eq!(loaded.current_token, b.current_token);
}

#[test]
fn load_alternates_players() {
    let b = match Board::from_string("0000") {
        Ok(b) => b,
        Err(e) => panic!("load failed: {:?}", e),
    };
    assert_eq!(
        column(&b, 0),
        vec![Token::Red, Token::Yellow, Token::Red, Token::Yellow, Token::Invalid, Token::Invalid]
    );
    assert_eq!(b.current_token, Token::Red);
    let b = match Board::from_string("123") {
        Ok(b) => b,
        Err(e) => panic!("load failed: {:?}", e),
    };
    assert_eq!(b.current_token, Token::Yellow);
    assert_eq!(b.token_at(3, 0), Some(Token::Red));
}

#[test]
fn load_rejects_short_text() {
    assert!(matches!(Board::from_string("12"), Err(BoardError::BadFormat)));
    assert!(matches!(Board::from_string("99"), Err(BoardError::BadFormat)));
    assert!(matches!(Board::from_string(""), Err(BoardError::BadFormat)));
}

#[test]
fn load_rejects_non_digits() {
    assert!(matches!(Board::from_string("1a2"), Err(BoardError::BadFormat)));
    assert!(matches!(Board::from_string("12 "), Err(BoardError::BadFormat)));
    assert!(matches!(Board::from_string("9x9"), Err(BoardError::BadFormat)));
}

#[test]
fn load_rejects_unplayable_moves() {
    assert!(matches!(Board::from_string("799"), Err(BoardError::InvalidBoard)));
    assert!(matches!(Board::from_string("017"), Err(BoardError::InvalidBoard)));
    assert!(matches!(Board::from_string("0000000"), Err(BoardError::InvalidBoard)));
    assert!(Board::from_string("000000").is_ok());
}

#[test]
fn no_win_on_fresh_board_or_before_four_moves() {
    let mut b = classic();
    assert!(!b.check_win());
    for _ in 0..3 {
        assert_eq!(b.drop(1), Ok(()));
        assert!(!b.check_win());
    }
}

#[test]
fn vertical_four_wins() {
    let mut b = classic();
    for _ in 0..3 {
        assert_eq!(b.drop(3), Ok(()));
        assert!(!b.check_win());
    }
    assert_eq!(b.drop(3), Ok(()));
    assert!(b.check_win());
}

#[test]
fn horizontal_four_wins() {
    let mut b = classic();
    for c in [0usize, 1, 2] {
        assert_eq!(b.drop(c), Ok(()));
        assert!(!b.check_win());
    }
    assert_eq!(b.drop(3), Ok(()));
    assert!(b.check_win());
}

#[test]
fn broken_row_does_not_win() {
    let mut b = classic();
    for c in [0usize, 1, 3, 4] {
        assert_eq!(b.drop(c), Ok(()));
    }
    assert!(!b.check_win());
    b.switch_token();
    assert_eq!(b.drop(2), Ok(()));
    assert!(!b.check_win());
}

fn place(b: &mut Board, col: usize, t: Token) {
    b.current_token = t;
    assert_eq!(b.drop(col), Ok(()));
}

#[test]
fn rising_diagonal_wins() {
    let mut b = classic();
    place(&mut b, 0, Token::Red);
    place(&mut b, 1, Token::Yellow);
    place(&mut b, 1, Token::Red);
    place(&mut b, 2, Token::Yellow);
    place(&mut b, 2, Token::Yellow);
    place(&mut b, 2, Token::Red);
    place(&mut b, 3, Token::Yellow);
    place(&mut b, 3, Token::Yellow);
    place(&mut b, 3, Token::Yellow);
    assert!(!b.check_win());
    place(&mut b, 3, Token::Red);
    assert_eq!(b.find_row_for_col(3), Some(3));
    assert!(b.check_win());
}

#[test]
fn falling_diagonal_wins() {
    let mut b = classic();
    place(&mut b, 6, Token::Red);
    place(&mut b, 5, Token::Yellow);
    place(&mut b, 5, Token::Red);
    place(&mut b, 4, Token::Yellow);
    place(&mut b, 4, Token::Yellow);
    place(&mut b, 4, Token::Red);
    place(&mut b, 3, Token::Yellow);
    place(&mut b, 3, Token::Yellow);
    place(&mut b, 3, Token::Yellow);
    assert!(!b.check_win());
    place(&mut b, 3, Token::Red);
    assert!(b.check_win());
}

#[test]
fn win_is_judged_from_the_last_move() {
    let mut b = classic();
    for c in [0usize, 1, 2, 3] {
        place(&mut b, c, Token::Red);
    }
    assert!(b.check_win());
    place(&mut b, 6, Token::Yellow);
    assert!(!b.check_win());
}

#[test]
fn switch_turn_twice_returns() {
    let mut b = classic();
    assert_eq!(b.current_token, Token::Red);
    b.switch_token();
    assert_eq!(b.current_token, Token::Yellow);
    b.switch_token();
    assert_eq!(b.current_token, Token::Red);
}

#[test]
fn token_cycle() {
    let mut t = Token::Red;
    let mut it = t.iter();
    assert_eq!(it.next(), Some(Token::Yellow));
    assert_eq!(it.next(), Some(Token::Red));
    let mut e = Token::Invalid;
    assert_eq!(e.iter().next(), None);
    assert!(Token::Yellow.is_valid());
    assert!(!Token::Invalid.is_valid());
}

#[test]
fn token_from_char() {
    assert_eq!(Token::from(&'R'), Token::Red);
    assert_eq!(Token::from(&'Y'), Token::Yellow);
    assert_eq!(Token::from(&'x'), Token::Invalid);
}

#[test]
fn winning_cells_of_a_row() {
    let mut b = classic();
    for c in [2usize, 3, 4] {
        place(&mut b, c, Token::Yellow);
    }
    assert_eq!(b.winning_cells(), None);
    place(&mut b, 5, Token::Yellow);
    assert_eq!(b.winning_cells(), Some(vec![(2, 0), (3, 0), (4, 0), (5, 0)]));
}

#[test]
fn winning_cells_of_a_column() {
    let mut b = classic();
    place(&mut b, 6, Token::Red);
    for _ in 0..4 {
        place(&mut b, 6, Token::Yellow);
    }
    assert_eq!(b.winning_cells(), Some(vec![(6, 1), (6, 2), (6, 3), (6, 4)]));
}

#[test]
fn winning_cells_of_diagonals() {
    let mut b = classic();
    place(&mut b, 0, Token::Red);
    place(&mut b, 1, Token::Yellow);
    place(&mut b, 1, Token::Red);
    place(&mut b, 2, Token::Yellow);
    place(&mut b, 2, Token::Yellow);
    place(&mut b, 2, Token::Red);
    place(&mut b, 3, Token::Yellow);
    place(&mut b, 3, Token::Yellow);
    place(&mut b, 3, Token::Yellow);
    place(&mut b, 3, Token::Red);
    assert_eq!(b.winning_cells(), Some(vec![(0, 0), (1, 1), (2, 2), (3, 3)]));

    let mut b = classic();
    place(&mut b, 6, Token::Red);
    place(&mut b, 5, Token::Yellow);
    place(&mut b, 5, Token::Red);
    place(&mut b, 4, Token::Yellow);
    place(&mut b, 4, Token::Yellow);
    place(&mut b, 4, Token::Red);
    place(&mut b, 3, Token::Yellow);
    place(&mut b, 3, Token::Yellow);
    place(&mut b, 3, Token::Yellow);
    place(&mut b, 3, Token::Red);
    assert_eq!(b.winning_cells(), Some(vec![(3, 3), (4, 2), (5, 1), (6, 0)]));
}

#[test]
fn run_of_five_wins_from_its_first_four() {
    let mut b = classic();
    for c in [0usize, 1, 3, 4, 2] {
        place(&mut b, c, Token::Red);
    }
    assert!(b.check_win());
    assert_eq!(b.winning_cells(), Some(vec![(0, 0), (1, 0), (2, 0), (3, 0)]));
}

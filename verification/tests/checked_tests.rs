use connect4_bot::{compute_move_checked, MoveError};

#[test]
fn zero_dimension_is_invalid_configuration() {
    assert_eq!(
        compute_move_checked(vec![], "easy".to_owned(), 0, 7, 4),
        Err(MoveError::InvalidConfiguration)
    );
    assert_eq!(
        compute_move_checked(vec![], "easy".to_owned(), 6, 0, 4),
        Err(MoveError::InvalidConfiguration)
    );
    assert_eq!(
        compute_move_checked(vec![], "easy".to_owned(), 6, 7, 0),
        Err(MoveError::InvalidConfiguration)
    );
}

#[test]
fn win_length_beyond_both_dimensions_is_invalid() {
    assert_eq!(
        compute_move_checked(vec![], "medium".to_owned(), 6, 7, 8),
        Err(MoveError::InvalidConfiguration)
    );
    // Exceeding only one dimension is accepted: such a run can still
    // form along the other orientation.
    assert!(compute_move_checked(vec![], "medium".to_owned(), 6, 7, 7).is_ok());
}

#[test]
fn overfull_column_is_an_illegal_history() {
    // Column 0 of a 2-row grid takes two pieces; the third is illegal.
    assert_eq!(
        compute_move_checked(vec![0, 0, 0], "easy".to_owned(), 2, 3, 2),
        Err(MoveError::IllegalMoveInHistory)
    );
}

#[test]
fn off_board_column_is_an_illegal_history() {
    assert_eq!(
        compute_move_checked(vec![7], "easy".to_owned(), 6, 7, 4),
        Err(MoveError::IllegalMoveInHistory)
    );
}

#[test]
fn full_board_reports_no_legal_move() {
    // A 1x2 grid filled by two moves.
    assert_eq!(
        compute_move_checked(vec![0, 1], "medium".to_owned(), 1, 2, 2),
        Err(MoveError::NoLegalMove)
    );
}

#[test]
fn checked_agrees_with_the_unchecked_entry_point() {
    let moves = vec![6u8, 0, 6, 1, 6, 2, 5];
    let checked = compute_move_checked(moves.clone(), "medium".to_owned(), 6, 7, 4);
    let plain = connect4_bot::compute_move(moves, "medium".to_owned(), 6, 7, 4);
    assert_eq!(checked, Ok(plain));
    assert_eq!(checked, Ok(3));
}

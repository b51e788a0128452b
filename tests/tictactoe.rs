use neat_engine::tictactoe::{Fields, MoveNotPossibleError, TicTacToeGame};

#[test]
fn new_game_is_empty_and_x_starts() {
    let game = TicTacToeGame::new();
    assert_eq!(game.whos_turn(), Fields::X);
    assert_eq!(game.winner, Fields::Empty);
    assert_eq!(game.num_of_moves, 0);
    for row in game.board.iter() {
        for field in row.iter() {
            assert_eq!(*field, Fields::Empty);
        }
    }
}

#[test]
fn turns_alternate() {
    let mut game = TicTacToeGame::new();
    assert_eq!(game.make_move((0, 0)).unwrap(), None);
    assert_eq!(game.whos_turn(), Fields::O);
    assert_eq!(game.board[0][0], Fields::X);
    assert_eq!(game.make_move((1, 1)).unwrap(), None);
    assert_eq!(game.whos_turn(), Fields::X);
    assert_eq!(game.board[1][1], Fields::O);
    assert_eq!(game.num_of_moves, 2);
}

#[test]
fn x_wins_with_a_row() {
    let mut game = TicTacToeGame::new();
    assert_eq!(game.make_move((0, 0)).unwrap(), None);
    assert_eq!(game.make_move((1, 0)).unwrap(), None);
    assert_eq!(game.make_move((0, 1)).unwrap(), None);
    assert_eq!(game.make_move((1, 1)).unwrap(), None);
    assert_eq!(game.make_move((0, 2)).unwrap(), Some(Fields::X));
    assert_eq!(game.winner, Fields::X);
}

#[test]
fn o_wins_with_a_column() {
    let mut game = TicTacToeGame::new();
    assert_eq!(game.make_move((0, 0)).unwrap(), None);
    assert_eq!(game.make_move((0, 2)).unwrap(), None);
    assert_eq!(game.make_move((1, 1)).unwrap(), None);
    assert_eq!(game.make_move((1, 2)).unwrap(), None);
    assert_eq!(game.make_move((2, 0)).unwrap(), None);
    assert_eq!(game.make_move((2, 2)).unwrap(), Some(Fields::O));
}

#[test]
fn x_wins_with_the_reverse_diagonal() {
    let mut game = TicTacToeGame::new();
    assert_eq!(game.make_move((0, 2)).unwrap(), None);
    assert_eq!(game.make_move((0, 0)).unwrap(), None);
    assert_eq!(game.make_move((1, 1)).unwrap(), None);
    assert_eq!(game.make_move((0, 1)).unwrap(), None);
    assert_eq!(game.make_move((2, 0)).unwrap(), Some(Fields::X));
}

#[test]
fn o_wins_with_the_diagonal() {
    let mut game = TicTacToeGame::new();
    assert_eq!(game.make_move((0, 1)).unwrap(), None);
    assert_eq!(game.make_move((0, 0)).unwrap(), None);
    assert_eq!(game.make_move((0, 2)).unwrap(), None);
    assert_eq!(game.make_move((1, 1)).unwrap(), None);
    assert_eq!(game.make_move((1, 0)).unwrap(), None);
    assert_eq!(game.make_move((2, 2)).unwrap(), Some(Fields::O));
}

#[test]
fn move_outside_the_board_is_refused() {
    let mut game = TicTacToeGame::new();
    assert_eq!(game.make_move((3, 0)), Err(MoveNotPossibleError::NotAValidField));
    assert_eq!(game.make_move((0, 7)), Err(MoveNotPossibleError::NotAValidField));
    assert_eq!(game.num_of_moves, 0);
    assert_eq!(game.whos_turn(), Fields::X);
}

#[test]
fn taken_field_is_refused() {
    let mut game = TicTacToeGame::new();
    game.make_move((2, 1)).unwrap();
    assert_eq!(game.make_move((2, 1)), Err(MoveNotPossibleError::FieldNotEmpty));
    assert_eq!(game.whos_turn(), Fields::O);
    assert_eq!(game.num_of_moves, 1);
}

#[test]
fn full_board_refuses_every_move() {
    let mut game = TicTacToeGame::new();
    let moves = [(0, 0), (0, 1), (0, 2), (1, 1), (1, 0), (1, 2), (2, 1), (2, 0), (2, 2)];
    for m in moves.iter() {
        assert_eq!(game.make_move(*m).unwrap(), None);
    }
    assert_eq!(game.num_of_moves, 9);
    assert_eq!(game.make_move((1, 1)), Err(MoveNotPossibleError::FieldNotEmpty));
    game.num_of_moves = 10;
    assert_eq!(game.make_move((1, 1)), Err(MoveNotPossibleError::NoEmptyFieldLeft));
}

#[test]
fn board_is_formatted_in_three_lines() {
    let mut game = TicTacToeGame::new();
    assert_eq!(game.format_board(), "- - -\n- - -\n- - -");
    game.make_move((0, 0)).unwrap();
    game.make_move((2, 1)).unwrap();
    assert_eq!(game.format_board(), "X - -\n- - -\n- O -");
}

#[test]
fn refused_move_has_a_message() {
    assert_eq!(MoveNotPossibleError::FieldNotEmpty.message(), "Move not possible");
}

#[test]
fn two_in_a_row_is_no_win() {
    let mut game = TicTacToeGame::new();
    assert_eq!(game.make_move((1, 0)).unwrap(), None);
    assert_eq!(game.make_move((0, 0)).unwrap(), None);
    assert_eq!(game.make_move((1, 1)).unwrap(), None);
    assert_eq!(game.make_move((2, 2)).unwrap(), None);
    assert_eq!(game.winner, Fields::Empty);
    assert_eq!(game.make_move((1, 2)).unwrap(), Some(Fields::X));
    assert_eq!(game.format_board(), "O - -\nX X X\n- - O");
}

use vstd::prelude::*;

verus! {

/// A tic-tac-toe board and the bookkeeping that detects a winner.
///
/// Each row, column and diagonal has a counter: a move of X adds one, a move
/// of O takes one away, so a counter reaches 3 or -3 exactly when one player
/// holds the whole line.
pub struct TicTacToeGame {
    pub current_players_turn: Fields,
    pub board: [[Fields; 3]; 3],
    pub row_container: [i8; 3],
    pub column_container: [i8; 3],
    pub diagonal_container: i8,
    pub reverse_diagonal_container: i8,
    pub winner: Fields,
    pub num_of_moves: u8,
}

/// What a field of the board holds.
#[derive(Clone, Copy, PartialEq, Eq, Debug, Structural)]
pub enum Fields {
    X,
    O,
    Empty,
}

/// Why a move was refused.
#[derive(Debug, Clone, Copy, PartialEq, Eq, Structural)]
pub enum MoveNotPossibleError {
    FieldNotEmpty,
    NoEmptyFieldLeft,
    NotAValidField,
}

impl MoveNotPossibleError {
    /// The message shown for every refused move.
    pub fn message(&self) -> (r: String)
        ensures
            r@ == "Move not possible"@,
    {
        String::from_str("Move not possible")
    }
}

/// The mark that the player whose turn it is puts on the board.
pub open spec fn mark_of(turn: Fields) -> Fields {
    if turn == Fields::X {
        Fields::X
    } else {
        Fields::O
    }
}

/// The player who moves after `turn`.
pub open spec fn next_turn(turn: Fields) -> Fields {
    if turn == Fields::X {
        Fields::O
    } else {
        Fields::X
    }
}

/// The character that shows a field.
pub open spec fn field_char(f: Fields) -> char {
    match f {
        Fields::X => 'X',
        Fields::O => 'O',
        Fields::Empty => '-',
    }
}

/// A row shown as its three fields separated by single spaces.
pub open spec fn row_text(row: [Fields; 3]) -> Seq<char> {
    seq![field_char(row[0]), ' ', field_char(row[1]), ' ', field_char(row[2])]
}

/// The board shown as three rows separated by line breaks.
pub open spec fn board_text(b: [[Fields; 3]; 3]) -> Seq<char> {
    row_text(b[0]) + seq!['\n'] + row_text(b[1]) + seq!['\n'] + row_text(b[2])
}

/// What a field adds to the counter of a line through it.
pub open spec fn score(f: Fields) -> int {
    match f {
        Fields::X => 1,
        Fields::O => -1,
        Fields::Empty => 0,
    }
}

/// How many of the given fields are taken.
pub open spec fn taken(f: Fields) -> int {
    if f == Fields::Empty {
        0
    } else {
        1
    }
}

#[verifier::opaque]
pub open spec fn row_score(b: [[Fields; 3]; 3], i: int) -> int {
    score(b[i][0]) + score(b[i][1]) + score(b[i][2])
}

#[verifier::opaque]
pub open spec fn column_score(b: [[Fields; 3]; 3], j: int) -> int {
    score(b[0][j]) + score(b[1][j]) + score(b[2][j])
}

#[verifier::opaque]
pub open spec fn diagonal_score(b: [[Fields; 3]; 3]) -> int {
    score(b[0][0]) + score(b[1][1]) + score(b[2][2])
}

#[verifier::opaque]
pub open spec fn reverse_diagonal_score(b: [[Fields; 3]; 3]) -> int {
    score(b[0][2]) + score(b[1][1]) + score(b[2][0])
}

/// The number of X marks less the number of O marks.
#[verifier::opaque]
pub open spec fn board_score(b: [[Fields; 3]; 3]) -> int {
    row_score(b, 0) + row_score(b, 1) + row_score(b, 2)
}

/// The number of fields taken.
#[verifier::opaque]
pub open spec fn filled(b: [[Fields; 3]; 3]) -> int {
    taken(b[0][0]) + taken(b[0][1]) + taken(b[0][2]) + taken(b[1][0]) + taken(b[1][1]) + taken(b[1][2])
        + taken(b[2][0]) + taken(b[2][1]) + taken(b[2][2])
}

#[verifier::opaque]
pub open spec fn row_full(b: [[Fields; 3]; 3], i: int, p: Fields) -> bool {
    b[i][0] == p && b[i][1] == p && b[i][2] == p
}

#[verifier::opaque]
pub open spec fn column_full(b: [[Fields; 3]; 3], j: int, p: Fields) -> bool {
    b[0][j] == p && b[1][j] == p && b[2][j] == p
}

#[verifier::opaque]
pub open spec fn diagonal_full(b: [[Fields; 3]; 3], p: Fields) -> bool {
    b[0][0] == p && b[1][1] == p && b[2][2] == p
}

#[verifier::opaque]
pub open spec fn reverse_diagonal_full(b: [[Fields; 3]; 3], p: Fields) -> bool {
    b[0][2] == p && b[1][1] == p && b[2][0] == p
}

/// Whether `p` holds a whole row or a whole column.
#[verifier::opaque]
pub open spec fn straight_line_full(b: [[Fields; 3]; 3], p: Fields) -> bool {
    row_full(b, 0, p) || row_full(b, 1, p) || row_full(b, 2, p) || column_full(b, 0, p) || column_full(b, 1, p)
        || column_full(b, 2, p)
}

/// Whether `p` holds a whole row, column or diagonal.
#[verifier::opaque]
pub open spec fn line_full(b: [[Fields; 3]; 3], p: Fields) -> bool {
    straight_line_full(b, p) || diagonal_full(b, p) || reverse_diagonal_full(b, p)
}

/// The winner once `mover` has taken field `(x, y)` of board `b`: the mover
/// wins when it then holds a whole row or column, or a whole diagonal through
/// `(x, y)`; otherwise the winner stays `before`.
pub open spec fn winner_with(b: [[Fields; 3]; 3], mover: Fields, x: int, y: int, before: Fields) -> Fields {
    if straight_line_full(b, mover) || (x == y && diagonal_full(b, mover)) || (x + y == 2
        && reverse_diagonal_full(b, mover)) {
        mover
    } else {
        before
    }
}

/// Whether `b` is `before` with the empty field `(x, y)` taken by `p`.
pub open spec fn placed(before: [[Fields; 3]; 3], b: [[Fields; 3]; 3], x: int, y: int, p: Fields) -> bool {
    &&& 0 <= x < 3
    &&& 0 <= y < 3
    &&& p != Fields::Empty
    &&& before[x][y] == Fields::Empty
    &&& b[x][y] == p
    &&& forall|i: int, j: int| 0 <= i < 3 && 0 <= j < 3 && !(i == x && j == y) ==> #[trigger] b[i][j] == before[i][j]
}

/// Three fields add up to 3 exactly when all are X, to -3 exactly when all are O.
proof fn lemma_three(a: Fields, b: Fields, c: Fields)
    ensures
        (score(a) + score(b) + score(c) > 2) == (a == Fields::X && b == Fields::X && c == Fields::X),
        (score(a) + score(b) + score(c) < -2) == (a == Fields::O && b == Fields::O && c == Fields::O),
        -3 <= score(a) + score(b) + score(c) <= 3,
{
}

proof fn lemma_full_lines(b: [[Fields; 3]; 3])
    ensures
        (row_score(b, 0) > 2 || row_score(b, 1) > 2 || row_score(b, 2) > 2 || column_score(b, 0) > 2
            || column_score(b, 1) > 2 || column_score(b, 2) > 2) == straight_line_full(b, Fields::X),
        (row_score(b, 0) < -2 || row_score(b, 1) < -2 || row_score(b, 2) < -2 || column_score(b, 0) < -2
            || column_score(b, 1) < -2 || column_score(b, 2) < -2) == straight_line_full(b, Fields::O),
        (diagonal_score(b) > 2) == diagonal_full(b, Fields::X),
        (diagonal_score(b) < -2) == diagonal_full(b, Fields::O),
        (reverse_diagonal_score(b) > 2) == reverse_diagonal_full(b, Fields::X),
        (reverse_diagonal_score(b) < -2) == reverse_diagonal_full(b, Fields::O),
{
    reveal(row_score);
    reveal(column_score);
    reveal(diagonal_score);
    reveal(reverse_diagonal_score);
    reveal(row_full);
    reveal(column_full);
    reveal(diagonal_full);
    reveal(reverse_diagonal_full);
    reveal(straight_line_full);
    assert forall|i: int| 0 <= i < 3 implies (#[trigger] row_score(b, i) > 2) == row_full(b, i, Fields::X) && (
    row_score(b, i) < -2) == row_full(b, i, Fields::O) by {
        lemma_three(b[i][0], b[i][1], b[i][2]);
    }
    assert forall|j: int| 0 <= j < 3 implies (#[trigger] column_score(b, j) > 2) == column_full(b, j, Fields::X)
        && (column_score(b, j) < -2) == column_full(b, j, Fields::O) by {
        lemma_three(b[0][j], b[1][j], b[2][j]);
    }
    lemma_three(b[0][0], b[1][1], b[2][2]);
    lemma_three(b[0][2], b[1][1], b[2][0]);
}

/// Every line's score lies between -3 and 3.
proof fn lemma_bounds(b: [[Fields; 3]; 3])
    ensures
        forall|i: int| 0 <= i < 3 ==> -3 <= #[trigger] row_score(b, i) <= 3,
        forall|j: int| 0 <= j < 3 ==> -3 <= #[trigger] column_score(b, j) <= 3,
        -3 <= diagonal_score(b) <= 3,
        -3 <= reverse_diagonal_score(b) <= 3,
{
    reveal(row_score);
    reveal(column_score);
    reveal(diagonal_score);
    reveal(reverse_diagonal_score);
    lemma_three(b[0][0], b[0][1], b[0][2]);
    lemma_three(b[1][0], b[1][1], b[1][2]);
    lemma_three(b[2][0], b[2][1], b[2][2]);
    lemma_three(b[0][0], b[1][0], b[2][0]);
    lemma_three(b[0][1], b[1][1], b[2][1]);
    lemma_three(b[0][2], b[1][2], b[2][2]);
    lemma_three(b[0][0], b[1][1], b[2][2]);
    lemma_three(b[0][2], b[1][1], b[2][0]);
}

/// What taking one empty field changes: the scores of the lines through it,
/// the number of fields taken, and which lines are full.
proof fn lemma_place(before: [[Fields; 3]; 3], b: [[Fields; 3]; 3], x: int, y: int, p: Fields)
    requires
        placed(before, b, x, y, p),
    ensures
        forall|i: int| 0 <= i < 3 ==> #[trigger] row_score(b, i) == row_score(before, i) + if i == x { score(p) } else { 0 },
        forall|j: int| 0 <= j < 3 ==> #[trigger] column_score(b, j) == column_score(before, j) + if j == y { score(p) } else { 0 },
        diagonal_score(b) == diagonal_score(before) + if x == y { score(p) } else { 0 },
        reverse_diagonal_score(b) == reverse_diagonal_score(before) + if x + y == 2 { score(p) } else { 0 },
        filled(b) == filled(before) + 1,
        board_score(b) == board_score(before) + score(p),
        line_full(before, Fields::X) ==> line_full(b, Fields::X),
        line_full(before, Fields::O) ==> line_full(b, Fields::O),
        !line_full(before, p) && line_full(b, p) ==> straight_line_full(b, p) || (x == y && diagonal_full(b, p)) || (x
            + y == 2 && reverse_diagonal_full(b, p)),
        p == Fields::X ==> (line_full(b, Fields::O) == line_full(before, Fields::O)),
        p == Fields::O ==> (line_full(b, Fields::X) == line_full(before, Fields::X)),
{
    reveal(row_score);
    reveal(column_score);
    reveal(diagonal_score);
    reveal(reverse_diagonal_score);
    reveal(board_score);
    reveal(filled);
    reveal(row_full);
    reveal(column_full);
    reveal(diagonal_full);
    reveal(reverse_diagonal_full);
    reveal(straight_line_full);
    reveal(line_full);
    assert(b[0][0] == before[0][0] || (x == 0 && y == 0));
    assert(b[0][1] == before[0][1] || (x == 0 && y == 1));
    assert(b[0][2] == before[0][2] || (x == 0 && y == 2));
    assert(b[1][0] == before[1][0] || (x == 1 && y == 0));
    assert(b[1][1] == before[1][1] || (x == 1 && y == 1));
    assert(b[1][2] == before[1][2] || (x == 1 && y == 2));
    assert(b[2][0] == before[2][0] || (x == 2 && y == 0));
    assert(b[2][1] == before[2][1] || (x == 2 && y == 1));
    assert(b[2][2] == before[2][2] || (x == 2 && y == 2));
}

impl TicTacToeGame {
    /// The counters hold, for each line, the number of X marks less the number
    /// of O marks on it.
    pub open spec fn counters_match(&self) -> bool {
        &&& forall|i: int| 0 <= i < 3 ==> #[trigger] self.row_container[i] == row_score(self.board, i)
        &&& forall|j: int| 0 <= j < 3 ==> #[trigger] self.column_container[j] == column_score(self.board, j)
        &&& self.diagonal_container == diagonal_score(self.board)
        &&& self.reverse_diagonal_container == reverse_diagonal_score(self.board)
    }

    /// The invariant of a game: the counters follow the board, the move count
    /// is the number of fields taken, X moves when both have as many marks and
    /// O when X has one more, and a winner is recorded for a full line.
    pub open spec fn wf(&self) -> bool {
        &&& self.counters_match()
        &&& self.num_of_moves == filled(self.board)
        &&& (self.current_players_turn == Fields::X && board_score(self.board) == 0)
            || (self.current_players_turn == Fields::O && board_score(self.board) == 1)
        &&& self.winner != Fields::Empty ==> line_full(self.board, self.winner)
        &&& self.winner == Fields::Empty ==> !line_full(self.board, Fields::X) && !line_full(self.board, Fields::O)
    }

    /// Whose turn it is.
    pub open spec fn turn(&self) -> Fields {
        self.current_players_turn
    }

    /// A new game with an empty board; X moves first.
    pub fn new() -> (g: TicTacToeGame)
        ensures
            g.wf(),
            g.turn() == Fields::X,
            forall|i: int, j: int| 0 <= i < 3 && 0 <= j < 3 ==> #[trigger] g.board[i][j] == Fields::Empty,
            g.winner == Fields::Empty,
            g.num_of_moves == 0,
            forall|i: int| 0 <= i < 3 ==> #[trigger] g.row_container[i] == 0 && g.column_container[i] == 0,
            g.diagonal_container == 0,
            g.reverse_diagonal_container == 0,
    {
        proof {
            reveal(row_score);
            reveal(column_score);
            reveal(diagonal_score);
            reveal(reverse_diagonal_score);
            reveal(board_score);
            reveal(filled);
            reveal(row_full);
            reveal(column_full);
            reveal(diagonal_full);
            reveal(reverse_diagonal_full);
            reveal(straight_line_full);
            reveal(line_full);
        }
        TicTacToeGame {
            current_players_turn: Fields::X,
            board: [[Fields::Empty; 3]; 3],
            row_container: [0; 3],
            column_container: [0; 3],
            diagonal_container: 0,
            reverse_diagonal_container: 0,
            winner: Fields::Empty,
            num_of_moves: 0,
        }
    }

    /// Whose turn it is.
    pub fn whos_turn(&self) -> (r: Fields)
        ensures
            r == self.turn(),
    {
        self.current_players_turn
    }

    /// Takes field `coords` for the player whose turn it is.
    ///
    /// Returns the winner, if there is one after the move, or why the move
    /// is refused; a refused move leaves the game as it was.
    pub fn make_move(&mut self, coords: (usize, usize)) -> (r: Result<Option<Fields>, MoveNotPossibleError>)
        requires
            old(self).wf(),
        ensures
            final(self).wf(),
            old(self).num_of_moves > 9 ==> r == Err::<Option<Fields>, _>(MoveNotPossibleError::NoEmptyFieldLeft),
            old(self).num_of_moves <= 9 && (coords.0 > 2 || coords.1 > 2) ==> r == Err::<Option<Fields>, _>(
                MoveNotPossibleError::NotAValidField,
            ),
            old(self).num_of_moves <= 9 && coords.0 <= 2 && coords.1 <= 2 && old(self).board[coords.0 as int][coords.1 as int]
                != Fields::Empty ==> r == Err::<Option<Fields>, _>(MoveNotPossibleError::FieldNotEmpty),
            r is Err ==> *final(self) == *old(self),
            old(self).num_of_moves <= 9 && coords.0 <= 2 && coords.1 <= 2 && old(self).board[coords.0 as int][coords.1 as int]
                == Fields::Empty ==> {
                let w = winner_with(
                    final(self).board,
                    old(self).turn(),
                    coords.0 as int,
                    coords.1 as int,
                    old(self).winner,
                );
                &&& forall|i: int, j: int|
                    0 <= i < 3 && 0 <= j < 3 ==> #[trigger] final(self).board[i][j] == if i == coords.0 && j
                        == coords.1 {
                        mark_of(old(self).turn())
                    } else {
                        old(self).board[i][j]
                    }
                &&& final(self).winner == w
                &&& final(self).num_of_moves == old(self).num_of_moves + 1
                &&& final(self).turn() == next_turn(old(self).turn())
                &&& r == Ok::<Option<Fields>, MoveNotPossibleError>(
                    if w != Fields::Empty { Some(w) } else { None },
                )
            },
    {
        if self.num_of_moves > 9 {
            return Err(MoveNotPossibleError::NoEmptyFieldLeft);
        }
        if coords.0 > 2 || coords.1 > 2 {
            return Err(MoveNotPossibleError::NotAValidField);
        }
        let (x, y) = coords;
        if self.board[x][y] == Fields::Empty {
            let mark = match self.current_players_turn {
                Fields::X => Fields::X,
                _ => Fields::O,
            };
            let ghost prev = *self;
            let mut row = self.board[x];
            row[y] = mark;
            self.board[x] = row;
            proof {
                assert(placed(prev.board, self.board, x as int, y as int, prev.current_players_turn));
                lemma_place(prev.board, self.board, x as int, y as int, prev.current_players_turn);
            }
            let result = self.check_winner(x, y, Ghost(prev));
            self.num_of_moves = self.num_of_moves + 1;
            self.current_players_turn = match self.current_players_turn {
                Fields::X => Fields::O,
                _ => Fields::X,
            };
            Ok(result)
        } else {
            Err(MoveNotPossibleError::FieldNotEmpty)
        }
    }

    /// Moves the counters of the lines through `(x, y)` one step towards the
    /// player whose turn it is and records a winner if a line is full.
    /// `prev` is the game before that player's mark was put on `(x, y)`.
    fn check_winner(&mut self, x: usize, y: usize, Ghost(prev): Ghost<TicTacToeGame>) -> (r: Option<Fields>)
        requires
            prev.wf(),
            x <= 2,
            y <= 2,
            placed(prev.board, old(self).board, x as int, y as int, prev.current_players_turn),
            old(self).row_container == prev.row_container,
            old(self).column_container == prev.column_container,
            old(self).diagonal_container == prev.diagonal_container,
            old(self).reverse_diagonal_container == prev.reverse_diagonal_container,
            old(self).winner == prev.winner,
            old(self).current_players_turn == prev.current_players_turn,
        ensures
            final(self).board == old(self).board,
            final(self).num_of_moves == old(self).num_of_moves,
            final(self).current_players_turn == old(self).current_players_turn,
            final(self).counters_match(),
            final(self).winner == winner_with(final(self).board, prev.current_players_turn, x as int, y as int, prev.winner),
            final(self).winner != Fields::Empty ==> line_full(final(self).board, final(self).winner),
            final(self).winner == Fields::Empty ==> !line_full(final(self).board, Fields::X) && !line_full(
                final(self).board,
                Fields::O,
            ),
            r == if final(self).winner != Fields::Empty { Some(final(self).winner) } else { None },
    {
        proof {
            lemma_place(prev.board, self.board, x as int, y as int, prev.current_players_turn);
            lemma_full_lines(self.board);
            lemma_bounds(self.board);
            assert(-3 <= row_score(self.board, x as int) <= 3);
            assert(-3 <= column_score(self.board, y as int) <= 3);
            assert(row_score(self.board, x as int) == row_score(prev.board, x as int) + score(prev.current_players_turn));
            assert(column_score(self.board, y as int) == column_score(prev.board, y as int) + score(prev.current_players_turn));
            reveal(line_full);
            assert forall|i: int| 0 <= i < 3 implies #[trigger] row_score(self.board, i) == self.row_container[i] + if i
                == x {
                score(prev.current_players_turn)
            } else {
                0
            } && column_score(self.board, i) == self.column_container[i] + if i == y {
                score(prev.current_players_turn)
            } else {
                0
            } by {
                assert(row_score(self.board, i) == row_score(prev.board, i) + if i == x { score(prev.current_players_turn) } else { 0 });
                assert(column_score(self.board, i) == column_score(prev.board, i) + if i == y { score(prev.current_players_turn) } else { 0 });
            }
        }
        let x_moves = self.current_players_turn == Fields::X;
        let d: i8 = if x_moves {
            1
        } else {
            -1
        };
        self.row_container[x] = self.row_container[x] + d;
        self.column_container[y] = self.column_container[y] + d;
        if x == y {
            self.diagonal_container = self.diagonal_container + d;
        }
        if x + y == 2 {
            self.reverse_diagonal_container = self.reverse_diagonal_container + d;
        }
        let won = if x_moves {
            (x == y && self.diagonal_container > 2) || (x + y == 2 && self.reverse_diagonal_container > 2)
                || self.row_container[0] > 2 || self.row_container[1] > 2 || self.row_container[2] > 2
                || self.column_container[0] > 2 || self.column_container[1] > 2 || self.column_container[2] > 2
        } else {
            (x == y && self.diagonal_container < -2) || (x + y == 2 && self.reverse_diagonal_container < -2)
                || self.row_container[0] < -2 || self.row_container[1] < -2 || self.row_container[2] < -2
                || self.column_container[0] < -2 || self.column_container[1] < -2 || self.column_container[2] < -2
        };
        if won {
            self.winner = if x_moves {
                Fields::X
            } else {
                Fields::O
            };
        }
        if self.winner != Fields::Empty {
            Some(self.winner)
        } else {
            None
        }
    }

    /// The board as three lines of three fields, `X`, `O` or `-`, separated by spaces.
    pub fn format_board(&self) -> (r: String)
        ensures
            r@ == board_text(self.board),
    {
        let mut res = String::new();
        append_row(&mut res, &self.board[0]);
        res.append("\n");
        append_row(&mut res, &self.board[1]);
        res.append("\n");
        append_row(&mut res, &self.board[2]);
        proof {
            reveal_strlit("\n");
            assert(res@ =~= board_text(self.board));
        }
        res
    }
}

/// The text of one field.
fn field_str(f: Fields) -> (r: &'static str)
    ensures
        r@ == seq![field_char(f)],
{
    match f {
        Fields::Empty => {
            proof {
                reveal_strlit("-");
            }
            "-"
        },
        Fields::X => {
            proof {
                reveal_strlit("X");
            }
            "X"
        },
        Fields::O => {
            proof {
                reveal_strlit("O");
            }
            "O"
        },
    }
}

fn append_row(res: &mut String, row: &[Fields; 3])
    ensures
        final(res)@ == old(res)@ + row_text(*row),
{
    let ghost start = res@;
    res.append(field_str(row[0]));
    res.append(" ");
    res.append(field_str(row[1]));
    res.append(" ");
    res.append(field_str(row[2]));
    proof {
        reveal_strlit(" ");
        assert(res@ =~= start + row_text(*row));
    }
}

} // verus!

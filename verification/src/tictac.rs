//! A tic-tac-toe board: a 3x3 grid of cells, immutable moves that return a
//! new board, and an analysis of the position (winner, draw or still in
//! progress).

use vstd::prelude::*;

use vstd::string::StringExecFns;

verus! {

/// Why a move was rejected.
#[derive(Debug)]
pub enum GameError {
    /// The chosen cell is already taken.
    InvalidMove,
    /// The coordinates lie outside the board.
    OutOfBounds,
}

/// What one cell holds.
#[derive(Debug, Clone, Copy, PartialEq, Eq, Structural)]
pub enum CellState {
    Empty,
    X,
    O,
}

/// The outcome of analyzing a position.
#[derive(Debug, Clone, Copy, PartialEq, Eq, Structural)]
pub enum GameResult {
    InProgress,
    Winner(CellState),
    Draw,
}

/// The 3x3 board; `field[row][column]`.
pub struct TicTacToeField {
    field: [[CellState; 3]; 3],
}

/// A player, identified by the mark it places.
pub struct Player {
    symbol: CellState,
}

impl TicTacToeField {
    /// The cell at the given coordinates.
    pub closed spec fn cell(&self, r: int, c: int) -> CellState {
        self.field@[r]@[c]
    }

    /// Three equal, non-empty cells along row `i`.
    pub open spec fn row_win(&self, i: int) -> bool {
        self.cell(i, 0) != CellState::Empty && self.cell(i, 0) == self.cell(i, 1) && self.cell(
            i,
            1,
        ) == self.cell(i, 2)
    }

    /// Three equal, non-empty cells along column `i`.
    pub open spec fn col_win(&self, i: int) -> bool {
        self.cell(0, i) != CellState::Empty && self.cell(0, i) == self.cell(1, i) && self.cell(
            1,
            i,
        ) == self.cell(2, i)
    }

    /// Three equal, non-empty cells along the main diagonal.
    pub open spec fn diag_win(&self) -> bool {
        self.cell(0, 0) != CellState::Empty && self.cell(0, 0) == self.cell(1, 1) && self.cell(
            1,
            1,
        ) == self.cell(2, 2)
    }

    /// Three equal, non-empty cells along the anti-diagonal.
    pub open spec fn anti_diag_win(&self) -> bool {
        self.cell(0, 2) != CellState::Empty && self.cell(0, 2) == self.cell(1, 1) && self.cell(
            1,
            1,
        ) == self.cell(2, 0)
    }

    /// No cell is empty.
    pub open spec fn is_full(&self) -> bool {
        forall|r: int, c: int| 0 <= r < 3 && 0 <= c < 3 ==> self.cell(r, c) != CellState::Empty
    }

    /// What `analyze` reports, scanning rows first, then columns, then the
    /// two diagonals, then checking for a full board.
    pub open spec fn spec_analyze(&self) -> GameResult {
        if self.row_win(0) {
            GameResult::Winner(self.cell(0, 0))
        } else if self.row_win(1) {
            GameResult::Winner(self.cell(1, 0))
        } else if self.row_win(2) {
            GameResult::Winner(self.cell(2, 0))
        } else if self.col_win(0) {
            GameResult::Winner(self.cell(0, 0))
        } else if self.col_win(1) {
            GameResult::Winner(self.cell(0, 1))
        } else if self.col_win(2) {
            GameResult::Winner(self.cell(0, 2))
        } else if self.diag_win() {
            GameResult::Winner(self.cell(0, 0))
        } else if self.anti_diag_win() {
            GameResult::Winner(self.cell(0, 2))
        } else if self.is_full() {
            GameResult::Draw
        } else {
            GameResult::InProgress
        }
    }

    /// An empty board.
    pub fn new() -> (r: Self)
        ensures
            forall|i: int, j: int| 0 <= i < 3 && 0 <= j < 3 ==> r.cell(i, j) == CellState::Empty,
    {
        TicTacToeField { field: [[CellState::Empty;3];3] }
    }

    /// Reports the winner if one line is complete, a draw on a full board,
    /// and an in-progress game otherwise.
    pub fn analyze(&self) -> (r: GameResult)
        ensures
            r == self.spec_analyze(),
    {
        let mut i: usize = 0;
        while i < 3
            invariant
                0 <= i <= 3,
                forall|k: int| 0 <= k < i ==> !self.row_win(k),
            decreases 3 - i,
        {
            if self.field[i][0] != CellState::Empty && self.field[i][0] == self.field[i][1]
                && self.field[i][1] == self.field[i][2] {
                return GameResult::Winner(self.field[i][0]);
            }
            i = i + 1;
        }
        let mut i: usize = 0;
        while i < 3
            invariant
                0 <= i <= 3,
                forall|k: int| 0 <= k < 3 ==> !self.row_win(k),
                forall|k: int| 0 <= k < i ==> !self.col_win(k),
            decreases 3 - i,
        {
            if self.field[0][i] != CellState::Empty && self.field[0][i] == self.field[1][i]
                && self.field[1][i] == self.field[2][i] {
                return GameResult::Winner(self.field[0][i]);
            }
            i = i + 1;
        }
        if self.field[0][0] != CellState::Empty && self.field[0][0] == self.field[1][1]
            && self.field[1][1] == self.field[2][2] {
            return GameResult::Winner(self.field[0][0]);
        }
        if self.field[0][2] != CellState::Empty && self.field[0][2] == self.field[1][1]
            && self.field[1][1] == self.field[2][0] {
            return GameResult::Winner(self.field[0][2]);
        }
        let mut full = true;
        let mut r: usize = 0;
        while r < 3
            invariant
                0 <= r <= 3,
                full <==> (forall|a: int, b: int|
                    0 <= a < r && 0 <= b < 3 ==> self.cell(a, b) != CellState::Empty),
            decreases 3 - r,
        {
            let mut c: usize = 0;
            while c < 3
                invariant
                    0 <= c <= 3,
                    0 <= r < 3,
                    full <==> ((forall|a: int, b: int|
                        0 <= a < r && 0 <= b < 3 ==> self.cell(a, b) != CellState::Empty)
                        && (forall|b: int| 0 <= b < c ==> self.cell(r as int, b)
                        != CellState::Empty)),
                decreases 3 - c,
            {
                proof {
                    assert(self.cell(r as int, c as int) == self.field@[r as int]@[c as int]);
                }
                if self.field[r][c] == CellState::Empty {
                    full = false;
                }
                c = c + 1;
            }
            r = r + 1;
        }
        if full {
            return GameResult::Draw;
        }
        GameResult::InProgress
    }

    /// Places the player's mark at `(x, y)` on a copy of the board;
    /// coordinates beyond the grid or an occupied cell are rejected.
    pub fn make_move(&self, x: u32, y: u32, player: &Player) -> (r: Result<
        TicTacToeField,
        GameError,
    >)
        ensures
            x > 2 || y > 2 ==> r matches Err(GameError::OutOfBounds),
            x <= 2 && y <= 2 && self.cell(x as int, y as int) != CellState::Empty ==> r matches Err(
                GameError::InvalidMove,
            ),
            x <= 2 && y <= 2 && self.cell(x as int, y as int) == CellState::Empty ==> r is Ok && (
            forall|i: int, j: int|
                0 <= i < 3 && 0 <= j < 3 ==> r->Ok_0.cell(i, j) == if i == x && j == y {
                    player.symbol()
                } else {
                    self.cell(i, j)
                }),
    {
        if x > 2 || y > 2 {
            return Err(GameError::OutOfBounds);
        }
        let xi = x as usize;
        let yi = y as usize;
        if self.field[xi][yi] != CellState::Empty {
            return Err(GameError::InvalidMove);
        }
        let mut new_field = self.clone();
        new_field.field[xi][yi] = player.symbol;
        Ok(new_field)
    }

    /// Renders the board as the text that used to be printed: four dashed
    /// separator lines with the three cell rows between them.
    pub fn display_string(&self) -> (r: String)
        ensures
            r@ == "-------------\n"@ + self.spec_row_text(0) + self.spec_row_text(1)
                + self.spec_row_text(2),
    {
        let mut out = String::from_str("-------------\n");
        let mut r: usize = 0;
        proof {
            assert(rendered_prefix(self, 0) == "-------------\n"@);
        }
        while r < 3
            invariant
                0 <= r <= 3,
                out@ == rendered_prefix(self, r as int),
            decreases 3 - r,
        {
            out.append("| ");
            proof {
                assert(self.spec_cells_text(r as int, 0) == Seq::<char>::empty());
                assert(out@ =~= rendered_prefix(self, r as int) + "| "@ + self.spec_cells_text(
                    r as int,
                    0,
                ));
            }
            let mut c: usize = 0;
            while c < 3
                invariant
                    0 <= c <= 3,
                    0 <= r < 3,
                    out@ == rendered_prefix(self, r as int) + "| "@ + self.spec_cells_text(
                        r as int,
                        c as int,
                    ),
                decreases 3 - c,
            {
                proof {
                    assert(self.cell(r as int, c as int) == self.field@[r as int]@[c as int]);
                }
                match self.field[r][c] {
                    CellState::Empty => out.append("  | "),
                    CellState::X => out.append("X | "),
                    CellState::O => out.append("O | "),
                }
                proof {
                    assert(self.spec_cells_text(r as int, c as int + 1) == self.spec_cells_text(
                        r as int,
                        c as int,
                    ) + cell_text(self.cell(r as int, c as int)));
                    assert(out@ =~= rendered_prefix(self, r as int) + "| "@
                        + self.spec_cells_text(r as int, c as int + 1));
                }
                c = c + 1;
            }
            out.append("\n-------------\n");
            proof {
                assert(out@ =~= rendered_prefix(self, r as int) + self.spec_row_text(r as int));
                assert(rendered_prefix(self, r as int + 1) == rendered_prefix(self, r as int)
                    + self.spec_row_text(r as int));
            }
            r = r + 1;
        }
        proof {
            assert(rendered_prefix(self, 3) == rendered_prefix(self, 2) + self.spec_row_text(2));
            assert(rendered_prefix(self, 2) == rendered_prefix(self, 1) + self.spec_row_text(1));
            assert(rendered_prefix(self, 1) == rendered_prefix(self, 0) + self.spec_row_text(0));
            assert(out@ =~= "-------------\n"@ + self.spec_row_text(0) + self.spec_row_text(1)
                + self.spec_row_text(2));
        }
        out
    }

    /// The first `c` cells of row `r` as text.
    pub open spec fn spec_cells_text(&self, r: int, c: int) -> Seq<char>
        decreases c,
    {
        if c <= 0 {
            Seq::empty()
        } else {
            self.spec_cells_text(r, c - 1) + cell_text(self.cell(r, c - 1))
        }
    }

    /// One full row as text: the leading bar, three cells, and the dashed
    /// line that closes the row.
    pub open spec fn spec_row_text(&self, r: int) -> Seq<char> {
        "| "@ + self.spec_cells_text(r, 3) + "\n-------------\n"@
    }
}

/// The rendering of one cell.
pub open spec fn cell_text(c: CellState) -> Seq<char> {
    match c {
        CellState::Empty => "  | "@,
        CellState::X => "X | "@,
        CellState::O => "O | "@,
    }
}

/// The separator plus the first `r` rendered rows.
pub open spec fn rendered_prefix(b: &TicTacToeField, r: int) -> Seq<char>
    decreases r,
{
    if r <= 0 {
        "-------------\n"@
    } else {
        rendered_prefix(b, r - 1) + b.spec_row_text(r - 1)
    }
}

impl Clone for TicTacToeField {
    /// An identical, independent copy of the board.
    fn clone(&self) -> (r: Self)
        ensures
            forall|i: int, j: int| 0 <= i < 3 && 0 <= j < 3 ==> r.cell(i, j) == self.cell(i, j),
    {
        TicTacToeField { field: self.field }
    }
}

impl Default for TicTacToeField {
    /// The default board is empty.
    fn default() -> (r: Self)
        ensures
            forall|i: int, j: int| 0 <= i < 3 && 0 <= j < 3 ==> r.cell(i, j) == CellState::Empty,
    {
        Self::new()
    }
}

impl Player {
    /// The mark this player places.
    pub closed spec fn symbol(&self) -> CellState {
        self.symbol
    }

    /// A player placing the given mark; an empty mark falls back to `X`.
    pub fn new(symbol: CellState) -> (r: Self)
        ensures
            r.symbol() == if symbol == CellState::Empty {
                CellState::X
            } else {
                symbol
            },
    {
        let valid_symbol = match symbol {
            CellState::Empty => CellState::X,
            _ => symbol,
        };
        Player { symbol: valid_symbol }
    }
}

} // verus!

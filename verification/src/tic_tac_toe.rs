//! The board engine: pieces, the authoritative board, win and draw detection,
//! and the turn tags that drive one match.
use vstd::prelude::*;

verus! {

/// One mark on the board. `Empty` is the "no mark" sentinel and is never
/// assigned to a player as their own piece.
#[derive(Clone, Copy, PartialEq, Eq, Structural, Debug)]
pub enum Piece {
    Nought,
    Cross,
    Empty,
}

/// How a finished match ended.
#[derive(Clone, Copy, PartialEq, Eq, Structural, Debug)]
pub enum End {
    Victory(Piece),
    Draw,
    Disconnect,
}

/// The phase of one match, from creation to conclusion. `TurnStart` and
/// `TurnWait` alternate once per ply until a terminal condition is reached.
#[derive(Clone, Copy, PartialEq, Eq, Structural, Debug)]
pub enum Turn {
    Begin,
    TurnStart,
    TurnWait,
    End,
}

/// The display name of the supported game.
pub const NAME: &'static str = "Tic Tac Toe";

/// The board size used for a standard match.
pub const BOARD_SIZE: usize = 3;

/// How a player enters a move at a terminal.
pub const INSTRUCTIONS: &'static str = "
  Wait until your turn then
  enter two numbers, eg 1 2
  for your move. 1 1 starts
  at the the top left cell.
";

/// An `n` by `n` grid of pieces, stored row by row: `grid[y][x]` is the cell
/// in column `x` of row `y`.
#[derive(Clone, PartialEq, Debug)]
pub struct Board {
    pub grid: Vec<Vec<Piece>>,
    pub size: usize,
}

impl View for Board {
    type V = Seq<Seq<Piece>>;

    open spec fn view(&self) -> Seq<Seq<Piece>> {
        Seq::new(self.grid@.len(), |i: int| self.grid@[i]@)
    }
}

/// A grid is well formed when it is square with side `size`.
pub open spec fn grid_wf(g: Seq<Seq<Piece>>, size: nat) -> bool {
    &&& g.len() == size
    &&& forall|i: int| 0 <= i < g.len() ==> (#[trigger] g[i]).len() == size
}

/// Row `y` is occupied by `p` from end to end.
pub open spec fn row_won(g: Seq<Seq<Piece>>, size: nat, p: Piece, y: int) -> bool {
    forall|x: int| 0 <= x < size ==> g[y][x] == p
}

/// Column `x` is occupied by `p` from end to end.
pub open spec fn col_won(g: Seq<Seq<Piece>>, size: nat, p: Piece, x: int) -> bool {
    forall|y: int| 0 <= y < size ==> g[y][x] == p
}

/// The main diagonal is occupied by `p` from end to end.
pub open spec fn diag_won(g: Seq<Seq<Piece>>, size: nat, p: Piece) -> bool {
    forall|i: int| 0 <= i < size ==> g[i][i] == p
}

/// The anti-diagonal is occupied by `p` from end to end.
pub open spec fn anti_diag_won(g: Seq<Seq<Piece>>, size: nat, p: Piece) -> bool {
    forall|i: int| 0 <= i < size ==> g[i][size - 1 - i] == p
}

/// `p` occupies an entire row, an entire column, the main diagonal, or the
/// anti-diagonal.
pub open spec fn wins(g: Seq<Seq<Piece>>, size: nat, p: Piece) -> bool {
    ||| exists|y: int| 0 <= y < size && row_won(g, size, p, y)
    ||| exists|x: int| 0 <= x < size && col_won(g, size, p, x)
    ||| diag_won(g, size, p)
    ||| anti_diag_won(g, size, p)
}

/// No cell of the grid is empty.
pub open spec fn is_full(g: Seq<Seq<Piece>>, size: nat) -> bool {
    forall|y: int, x: int| 0 <= y < size && 0 <= x < size ==> g[y][x] != Piece::Empty
}

/// What checking the board for `p` reports: a victory if `p` holds a complete
/// line, else a draw if the board is full, else nothing.
pub open spec fn outcome_of(g: Seq<Seq<Piece>>, size: nat, p: Piece) -> Option<End> {
    if wins(g, size, p) {
        Some(End::Victory(p))
    } else if is_full(g, size) {
        Some(End::Draw)
    } else {
        None
    }
}

impl Board {
    /// The board is a square grid of its declared size.
    pub open spec fn wf(&self) -> bool {
        grid_wf(self@, self.size as nat)
    }

    /// A fresh board of the given size with every cell empty.
    pub fn new(size: usize) -> (board: Self)
        ensures
            board.wf(),
            board.size == size,
            forall|y: int, x: int|
                0 <= y < size && 0 <= x < size ==> board@[y][x] == Piece::Empty,
    {
        let row: Vec<Piece> = vec![Piece::Empty; size];
        let grid: Vec<Vec<Piece>> = vec![row; size];
        Board { grid, size }
    }

    /// Unconditionally overwrite the cell at `(x, y)`. Used when the caller
    /// has already validated the move, e.g. when a client mirrors a move that
    /// the server confirmed.
    pub fn place(&mut self, p: Piece, x: usize, y: usize)
        requires
            y < old(self)@.len(),
            x < old(self)@[y as int].len(),
        ensures
            final(self)@ == old(self)@.update(y as int, old(self)@[y as int].update(x as int, p)),
            final(self).size == old(self).size,
    {
        self.grid[y][x] = p;
        proof {
            assert(final(self)@ =~= old(self)@.update(
                y as int,
                old(self)@[y as int].update(x as int, p),
            ));
        }
    }

    /// Claim cell `(x, y)` for `p` if it is empty. On an occupied cell the
    /// board is left unchanged and the failure names the occupant and the
    /// cell. Coordinates are validated by the caller; the session coordinator
    /// bounds-checks every move before it reaches the engine.
    pub fn try_place(&mut self, p: Piece, x: usize, y: usize) -> (r: Result<
        (Piece, usize, usize),
        String,
    >)
        requires
            old(self).wf(),
            x < old(self).size,
            y < old(self).size,
        ensures
            final(self).size == old(self).size,
            final(self).wf(),
            old(self)@[y as int][x as int] == Piece::Empty ==> {
                &&& r == Ok::<(Piece, usize, usize), String>((p, x, y))
                &&& final(self)@ == old(self)@.update(
                    y as int,
                    old(self)@[y as int].update(x as int, p),
                )
            },
            old(self)@[y as int][x as int] != Piece::Empty ==> {
                &&& *final(self) == *old(self)
                &&& r matches Err(e) && e@ == crate::text::occupied_msg(
                    old(self)@[y as int][x as int],
                    x as nat,
                    y as nat,
                )
            },
    {
        proof {
            assert(self@[y as int] == self.grid@[y as int]@);
        }
        let cell = self.grid[y][x];
        match cell {
            Piece::Empty => {
                self.place(p, x, y);
                proof {
                    assert(self.wf());
                }
                Ok((p, x, y))
            },
            occupant => Err(crate::text::occupied_message(occupant, x, y)),
        }
    }

    /// The rows of the board, outermost first. Callers walk the returned
    /// vector instead of an iterator.
    pub fn iter(&self) -> (rows: &Vec<Vec<Piece>>)
        ensures
            rows@.len() == self@.len(),
            forall|i: int| 0 <= i < rows@.len() ==> (#[trigger] rows@[i])@ == self@[i],
    {
        &self.grid
    }

    /// Report how the match stands for `piece`: `Victory(piece)` if `piece`
    /// holds a complete row, column or diagonal, `Draw` if the board is full
    /// without one, and nothing while the board is still open.
    pub fn check_victory(&self, piece: Piece) -> (r: Option<End>)
        requires
            self.wf(),
        ensures
            r == outcome_of(self@, self.size as nat, piece),
    {
        let size = self.size;
        let ghost g = self@;
        let ghost n = size as nat;

        // check for a horizontal victory
        let mut has_row = false;
        let mut y: usize = 0;
        while y < size
            invariant
                self.wf(),
                size == self.size,
                g == self@,
                n == size as nat,
                y <= size,
                has_row <==> exists|j: int| 0 <= j < y && row_won(g, n, piece, j),
            decreases size - y,
        {
            let mut all = true;
            let mut x: usize = 0;
            while x < size
                invariant
                    self.wf(),
                    size == self.size,
                    g == self@,
                    n == size as nat,
                    y < size,
                    x <= size,
                    all <==> forall|i: int| 0 <= i < x ==> g[y as int][i] == piece,
                decreases size - x,
            {
                proof {
                    assert(self@[y as int] == self.grid@[y as int]@);
                }
                if self.grid[y][x] != piece {
                    all = false;
                }
                x += 1;
            }
            proof {
                if all {
                    assert(row_won(g, n, piece, y as int));
                } else {
                    assert(!row_won(g, n, piece, y as int));
                }
            }
            if all {
                has_row = true;
            }
            y += 1;
        }

        // check for a vertical victory
        let mut has_col = false;
        let mut x: usize = 0;
        while x < size
            invariant
                self.wf(),
                size == self.size,
                g == self@,
                n == size as nat,
                x <= size,
                has_col <==> exists|j: int| 0 <= j < x && col_won(g, n, piece, j),
            decreases size - x,
        {
            let mut all = true;
            let mut y: usize = 0;
            while y < size
                invariant
                    self.wf(),
                    size == self.size,
                    g == self@,
                    n == size as nat,
                    x < size,
                    y <= size,
                    all <==> forall|i: int| 0 <= i < y ==> g[i][x as int] == piece,
                decreases size - y,
            {
                proof {
                    assert(self@[y as int] == self.grid@[y as int]@);
                }
                if self.grid[y][x] != piece {
                    all = false;
                }
                y += 1;
            }
            proof {
                if all {
                    assert(col_won(g, n, piece, x as int));
                } else {
                    assert(!col_won(g, n, piece, x as int));
                }
            }
            if all {
                has_col = true;
            }
            x += 1;
        }

        // check both diagonals in one pass
        let mut diag = true;
        let mut anti = true;
        let mut i: usize = 0;
        while i < size
            invariant
                self.wf(),
                size == self.size,
                g == self@,
                n == size as nat,
                i <= size,
                diag <==> forall|k: int| 0 <= k < i ==> g[k][k] == piece,
                anti <==> forall|k: int| 0 <= k < i ==> g[k][n - 1 - k] == piece,
            decreases size - i,
        {
            proof {
                assert(self@[i as int] == self.grid@[i as int]@);
            }
            if self.grid[i][i] != piece {
                diag = false;
            }
            if self.grid[i][size - i - 1] != piece {
                anti = false;
            }
            i += 1;
        }

        if has_row || has_col || diag || anti {
            Some(End::Victory(piece))
        } else if self.check_draw() {
            Some(End::Draw)
        } else {
            None
        }
    }

    /// The board is full: no empty cell remains anywhere on the grid.
    pub fn check_draw(&self) -> (r: bool)
        requires
            self.wf(),
        ensures
            r == is_full(self@, self.size as nat),
    {
        let size = self.size;
        let ghost g = self@;
        let ghost n = size as nat;
        let mut full = true;
        let mut y: usize = 0;
        while y < size
            invariant
                self.wf(),
                size == self.size,
                g == self@,
                n == size as nat,
                y <= size,
                full <==> forall|j: int, i: int|
                    0 <= j < y && 0 <= i < n ==> g[j][i] != Piece::Empty,
            decreases size - y,
        {
            let mut x: usize = 0;
            while x < size
                invariant
                    self.wf(),
                    size == self.size,
                    g == self@,
                    n == size as nat,
                    y < size,
                    x <= size,
                    full <==> (forall|j: int, i: int|
                        0 <= j < y && 0 <= i < n ==> g[j][i] != Piece::Empty) && (forall|i: int|
                        0 <= i < x ==> g[y as int][i] != Piece::Empty),
                decreases size - x,
            {
                proof {
                    assert(self@[y as int] == self.grid@[y as int]@);
                }
                if self.grid[y][x] == Piece::Empty {
                    full = false;
                }
                x += 1;
            }
            y += 1;
        }
        full
    }
}

/// Law: on a board of any size whose row `y` is entirely `p` while every
/// other cell is empty, checking for `p` reports a victory for `p`.
pub proof fn lemma_row_victory(g: Seq<Seq<Piece>>, size: nat, p: Piece, y: int)
    requires
        grid_wf(g, size),
        0 <= y < size,
        forall|x: int| 0 <= x < size ==> g[y][x] == p,
        forall|j: int, x: int| 0 <= j < size && 0 <= x < size && j != y ==> g[j][x] == Piece::Empty,
    ensures
        outcome_of(g, size, p) == Some(End::Victory(p)),
{
    assert(row_won(g, size, p, y));
}

/// Law: on a board of any size whose column `x` is entirely `p` while every
/// other cell is empty, checking for `p` reports a victory for `p`.
pub proof fn lemma_col_victory(g: Seq<Seq<Piece>>, size: nat, p: Piece, x: int)
    requires
        grid_wf(g, size),
        0 <= x < size,
        forall|y: int| 0 <= y < size ==> g[y][x] == p,
        forall|y: int, i: int| 0 <= y < size && 0 <= i < size && i != x ==> g[y][i] == Piece::Empty,
    ensures
        outcome_of(g, size, p) == Some(End::Victory(p)),
{
    assert(col_won(g, size, p, x));
}

/// Law: on a board of any size whose main diagonal is entirely `p` while
/// every other cell is empty, checking for `p` reports a victory for `p`.
pub proof fn lemma_diag_victory(g: Seq<Seq<Piece>>, size: nat, p: Piece)
    requires
        grid_wf(g, size),
        size > 0,
        forall|i: int| 0 <= i < size ==> g[i][i] == p,
        forall|y: int, x: int| 0 <= y < size && 0 <= x < size && y != x ==> g[y][x] == Piece::Empty,
    ensures
        outcome_of(g, size, p) == Some(End::Victory(p)),
{
    assert(diag_won(g, size, p));
}

/// Law: on a board of any size whose anti-diagonal is entirely `p` while
/// every other cell is empty, checking for `p` reports a victory for `p`.
pub proof fn lemma_anti_diag_victory(g: Seq<Seq<Piece>>, size: nat, p: Piece)
    requires
        grid_wf(g, size),
        size > 0,
        forall|i: int| 0 <= i < size ==> g[i][size - 1 - i] == p,
        forall|y: int, x: int|
            0 <= y < size && 0 <= x < size && x != size - 1 - y ==> g[y][x] == Piece::Empty,
    ensures
        outcome_of(g, size, p) == Some(End::Victory(p)),
{
    assert(anti_diag_won(g, size, p));
}

/// Law: a fully filled board on which `p` holds no complete line is reported
/// as a draw.
pub proof fn lemma_full_without_line_is_draw(g: Seq<Seq<Piece>>, size: nat, p: Piece)
    requires
        grid_wf(g, size),
        !wins(g, size, p),
        is_full(g, size),
    ensures
        outcome_of(g, size, p) == Some(End::Draw),
{
}

/// Law: a board with at least one empty cell on which `p` holds no complete
/// line is reported as still open.
pub proof fn lemma_open_without_line_is_none(g: Seq<Seq<Piece>>, size: nat, p: Piece)
    requires
        grid_wf(g, size),
        !wins(g, size, p),
        exists|y: int, x: int| 0 <= y < size && 0 <= x < size && g[y][x] == Piece::Empty,
    ensures
        outcome_of(g, size, p) is None,
{
}

impl Piece {
    /// The piece whose turn follows this one. Only player pieces alternate;
    /// callers never hand in `Empty`.
    pub fn next(self) -> (r: Self)
        requires
            self != Piece::Empty,
        ensures
            self == Piece::Cross ==> r == Piece::Nought,
            self == Piece::Nought ==> r == Piece::Cross,
    {
        match self {
            Piece::Cross => Piece::Nought,
            Piece::Nought => Piece::Cross,
            Piece::Empty => Piece::Empty,
        }
    }
}

/// The server's authoritative state for one match. Created at match start and
/// dropped when the session coordinator returns.
pub struct ServerState {
    pub board: Board,
    pub turn: Turn,
    pub current_player: Piece,
    pub crosses_player: usize,
    pub noughts_player: usize,
    pub winner: End,
}

impl ServerState {
    /// A fresh match: an empty board, the `Begin` phase, crosses to move
    /// first, and `Disconnect` standing in as the outcome until one is
    /// decided. The crosses seat is the first-seated player.
    pub fn new(board_size: usize) -> (s: Self)
        ensures
            s.board.wf(),
            s.board.size == board_size,
            forall|y: int, x: int|
                0 <= y < board_size && 0 <= x < board_size ==> s.board@[y][x] == Piece::Empty,
            s.turn == Turn::Begin,
            s.current_player == Piece::Cross,
            s.crosses_player == 0,
            s.noughts_player == 1,
            s.winner == End::Disconnect,
    {
        ServerState {
            board: Board::new(board_size),
            turn: Turn::Begin,
            winner: End::Disconnect,
            current_player: Piece::Cross,
            crosses_player: 0,
            noughts_player: 1,
        }
    }
}

/// The subset of match state a client is allowed to know: its opponent, its
/// own piece, and a board it rebuilds from the placements it is sent. At
/// handshake time only the board size travels, never the grid.
#[derive(Clone, PartialEq, Debug)]
pub struct ClientState {
    pub board: Board,
    pub turn: Turn,
    pub opponent: String,
    pub piece: Piece,
}

impl ClientState {
    /// The view handed to a client at match start: the opponent's identity,
    /// the client's piece, and the board size with an empty grid — the client
    /// initialises its own grid, so the server never sends one.
    pub fn new(opponent: String, piece: Piece, board_size: usize) -> (s: Self)
        ensures
            s.board@ == Seq::<Seq<Piece>>::empty(),
            s.board.size == board_size,
            s.turn == Turn::Begin,
            s.opponent == opponent,
            s.piece == piece,
    {
        let s = ClientState {
            board: Board { grid: Vec::new(), size: board_size },
            turn: Turn::Begin,
            opponent,
            piece,
        };
        proof {
            assert(s.board@ =~= Seq::<Seq<Piece>>::empty());
        }
        s
    }
}

/// One wire message between server and client. Each message travels as one
/// encoded frame; see the codec for the byte format.
#[derive(PartialEq, Debug)]
pub enum Message {
    Preamble(ClientState),
    WaitTurn,
    YourTurn,
    Move((Piece, usize, usize)),
    InvalidMove(String),
    GameOver(End),
    Status(crate::ServerStatus),
}

} // verus!

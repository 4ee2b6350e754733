//! The rules engine: legal moves, captures, turns and the end of the game.

use vstd::prelude::*;
use crate::error::ReversiError;
use crate::board::{
    Board, Cell, Color, Move, Pos, cell_index, count_cells, dir_x, dir_y, direction, in_bounds,
    step,
};

verus! {

/// Whether the run of `c.opposite()` pieces that starts at (x, y) and goes in
/// direction (dx, dy) ends on a piece of color `c`: such a run is captured.
pub open spec fn closes(b: Seq<Cell>, x: int, y: int, dx: int, dy: int, c: Color, fuel: nat) -> bool
    decreases fuel,
{
    if fuel == 0 {
        false
    } else {
        &&& in_bounds(x, y)
        &&& b[cell_index(x, y)] == Cell::Piece(c.opposite())
        &&& ((in_bounds(x + dx, y + dy) && b[cell_index(x + dx, y + dy)] == Cell::Piece(c))
            || closes(b, x + dx, y + dy, dx, dy, c, (fuel - 1) as nat))
    }
}

/// Whether square (qx, qy) lies in the captured run that starts at (x, y).
pub open spec fn in_capture(
    b: Seq<Cell>,
    x: int,
    y: int,
    dx: int,
    dy: int,
    c: Color,
    qx: int,
    qy: int,
    fuel: nat,
) -> bool
    decreases fuel,
{
    if fuel == 0 {
        false
    } else {
        &&& closes(b, x, y, dx, dy, c, fuel)
        &&& ((qx == x && qy == y) || in_capture(b, x + dx, y + dy, dx, dy, c, qx, qy, (fuel - 1) as nat))
    }
}

/// Whether a piece of color `c` on (x, y) captures in direction k.
pub open spec fn captures_in(b: Seq<Cell>, x: int, y: int, c: Color, k: int) -> bool {
    closes(b, x + dir_x(k), y + dir_y(k), dir_x(k), dir_y(k), c, 8)
}

/// Whether a piece of color `c` on (x, y) would capture at least one run.
pub open spec fn can_place(b: Seq<Cell>, x: int, y: int, c: Color) -> bool {
    exists|k: int| 0 <= k < 8 && #[trigger] captures_in(b, x, y, c, k)
}

/// Whether square (qx, qy) is turned over by a piece of color `c` placed on (x, y),
/// counting the first `n` directions only.
pub open spec fn captured_upto(
    b: Seq<Cell>,
    x: int,
    y: int,
    c: Color,
    qx: int,
    qy: int,
    n: int,
) -> bool {
    exists|k: int|
        0 <= k < n && #[trigger] in_capture(
            b,
            x + dir_x(k),
            y + dir_y(k),
            dir_x(k),
            dir_y(k),
            c,
            qx,
            qy,
            8,
        )
}

/// Whether square (qx, qy) is turned over by a piece of color `c` placed on (x, y).
pub open spec fn captured(b: Seq<Cell>, x: int, y: int, c: Color, qx: int, qy: int) -> bool {
    captured_upto(b, x, y, c, qx, qy, 8)
}

/// The board after a piece of color `c` is placed on (x, y) and every run it
/// captures is turned over.
pub open spec fn after_move(b: Seq<Cell>, x: int, y: int, c: Color) -> Seq<Cell> {
    Seq::new(
        64,
        |i: int|
            if i == cell_index(x, y) || captured(b, x, y, c, i % 8, i / 8) {
                Cell::Piece(c)
            } else {
                b[i]
            },
    )
}

/// The board with each cell that is not a piece marked available when a piece
/// of color `c` could be placed there, and empty otherwise.
pub open spec fn mark(b: Seq<Cell>, c: Color) -> Seq<Cell> {
    Seq::new(
        64,
        |i: int|
            if b[i] is Piece {
                b[i]
            } else if can_place(b, i % 8, i / 8, c) {
                Cell::Available
            } else {
                Cell::Empty
            },
    )
}

/// Whether some cell of `b` is marked available.
pub open spec fn has_available(b: Seq<Cell>) -> bool {
    exists|i: int| 0 <= i < b.len() && b[i] == Cell::Available
}

/// Whether a piece of color `c` could be placed anywhere on `b`.
pub open spec fn has_move(b: Seq<Cell>, c: Color) -> bool {
    exists|x: int, y: int|
        in_bounds(x, y) && !(b[cell_index(x, y)] is Piece) && #[trigger] can_place(b, x, y, c)
}

/// Searches direction d from `pos` for a captured run.
fn closes_from(board: &Board, pos: Pos<usize>, d: Pos<i32>, c: Color) -> (r: bool)
    requires
        board@.len() == 64,
        pos.x < 8,
        pos.y < 8,
        -1 <= d.x <= 1,
        -1 <= d.y <= 1,
    ensures
        r == closes(board@, pos.x + d.x, pos.y + d.y, d.x as int, d.y as int, c, 8),
{
    match pos + d {
        Some(start) => closes_at(board, start, d, c),
        None => false,
    }
}

/// Whether the run that starts on `start` and goes in direction d is captured.
fn closes_at(board: &Board, start: Pos<usize>, d: Pos<i32>, c: Color) -> (r: bool)
    requires
        board@.len() == 64,
        start.x < 8,
        start.y < 8,
        -1 <= d.x <= 1,
        -1 <= d.y <= 1,
    ensures
        r == closes(board@, start.x as int, start.y as int, d.x as int, d.y as int, c, 8),
{
    let ghost b = board@;
    let ghost (dx, dy) = (d.x as int, d.y as int);
    let mut cur = Some(start);
    let mut fuel: u64 = 8;
    let opponent = Cell::Piece(if c.is_black() { Color::White } else { Color::Black });
    while fuel > 0
        invariant
            b == board@,
            b.len() == 64,
            dx == d.x,
            dy == d.y,
            -1 <= dx <= 1,
            -1 <= dy <= 1,
            opponent == Cell::Piece(c.opposite()),
            fuel <= 8,
            cur matches Some(p) ==> p.x < 8 && p.y < 8,
            closes(b, start.x as int, start.y as int, dx, dy, c, 8) == match cur {
                Some(p) => closes(b, p.x as int, p.y as int, dx, dy, c, fuel as nat),
                None => false,
            },
        decreases fuel,
    {
        match cur {
            None => {
                return false;
            },
            Some(p) => {
                if board.get_cell(p) != opponent {
                    return false;
                }
                let next = p + d;
                match next {
                    Some(q) => {
                        if board.get_cell(q) == Cell::Piece(c) {
                            return true;
                        }
                    },
                    None => {
                        assert(!closes(b, p.x + dx, p.y + dy, dx, dy, c, (fuel - 1) as nat));
                    },
                }
                cur = next;
                fuel -= 1;
            },
        }
    }
    false
}

/// Whether a piece of color `c` on `pos` captures anything.
fn can_place_on(board: &Board, pos: Pos<usize>, c: Color) -> (r: bool)
    requires
        board@.len() == 64,
        pos.x < 8,
        pos.y < 8,
    ensures
        r == can_place(board@, pos.x as int, pos.y as int, c),
{
    let mut k: usize = 0;
    while k < 8
        invariant
            k <= 8,
            board@.len() == 64,
            pos.x < 8,
            pos.y < 8,
            forall|j: int| 0 <= j < k ==> !#[trigger] captures_in(board@, pos.x as int, pos.y as int, c, j),
        decreases 8 - k,
    {
        let d = direction(k);
        if closes_from(board, pos, d, c) {
            assert(captures_in(board@, pos.x as int, pos.y as int, c, k as int));
            return true;
        }
        k += 1;
    }
    false
}

/// A captured run lies ahead of its first square, in the run's direction.
proof fn lemma_capture_ahead(
    b: Seq<Cell>,
    x: int,
    y: int,
    dx: int,
    dy: int,
    c: Color,
    qx: int,
    qy: int,
    fuel: nat,
)
    requires
        in_capture(b, x, y, dx, dy, c, qx, qy, fuel),
    ensures
        dx > 0 ==> qx >= x,
        dx < 0 ==> qx <= x,
        dx == 0 ==> qx == x,
        dy > 0 ==> qy >= y,
        dy < 0 ==> qy <= y,
        dy == 0 ==> qy == y,
    decreases fuel,
{
    if !(qx == x && qy == y) {
        lemma_capture_ahead(b, x + dx, y + dy, dx, dy, c, qx, qy, (fuel - 1) as nat);
    }
}

/// Turns over the captured run of `orig` that starts at `start`.
fn flip_line(board: &mut Board, orig: &Board, start: Pos<usize>, d: Pos<i32>, c: Color)
    requires
        old(board)@.len() == 64,
        orig@.len() == 64,
        start.x < 8,
        start.y < 8,
        -1 <= d.x <= 1,
        -1 <= d.y <= 1,
        d.x != 0 || d.y != 0,
        closes(orig@, start.x as int, start.y as int, d.x as int, d.y as int, c, 8),
    ensures
        final(board)@.len() == 64,
        forall|qx: int, qy: int|
            in_bounds(qx, qy) ==> #[trigger] final(board)@[cell_index(qx, qy)] == if in_capture(
                orig@,
                start.x as int,
                start.y as int,
                d.x as int,
                d.y as int,
                c,
                qx,
                qy,
                8,
            ) {
                Cell::Piece(c)
            } else {
                old(board)@[cell_index(qx, qy)]
            },
{
    let ghost o = orig@;
    let ghost b0 = board@;
    let ghost (sx, sy, dx, dy) = (start.x as int, start.y as int, d.x as int, d.y as int);
    let opponent = Cell::Piece(if c.is_black() { Color::White } else { Color::Black });
    let mut p = start;
    let mut fuel: u64 = 8;
    while orig.get_cell(p) == opponent
        invariant
            o == orig@,
            o.len() == 64,
            board@.len() == 64,
            dx == d.x,
            dy == d.y,
            -1 <= dx <= 1,
            -1 <= dy <= 1,
            dx != 0 || dy != 0,
            opponent == Cell::Piece(c.opposite()),
            p.x < 8,
            p.y < 8,
            fuel <= 8,
            closes(o, p.x as int, p.y as int, dx, dy, c, fuel as nat) || o[cell_index(
                p.x as int,
                p.y as int,
            )] == Cell::Piece(c),
            forall|qx: int, qy: int|
                #[trigger] in_capture(o, p.x as int, p.y as int, dx, dy, c, qx, qy, fuel as nat)
                    ==> in_capture(o, sx, sy, dx, dy, c, qx, qy, 8),
            forall|qx: int, qy: int|
                in_bounds(qx, qy) ==> #[trigger] board@[cell_index(qx, qy)] == if in_capture(
                    o,
                    sx,
                    sy,
                    dx,
                    dy,
                    c,
                    qx,
                    qy,
                    8,
                ) && !in_capture(o, p.x as int, p.y as int, dx, dy, c, qx, qy, fuel as nat) {
                    Cell::Piece(c)
                } else {
                    b0[cell_index(qx, qy)]
                },
        decreases fuel,
    {
        let ghost (px, py, f) = (p.x as int, p.y as int, fuel as nat);
        assert(closes(o, px, py, dx, dy, c, f));
        assert(in_capture(o, px, py, dx, dy, c, px, py, f));
        proof {
            if in_capture(o, px + dx, py + dy, dx, dy, c, px, py, (f - 1) as nat) {
                lemma_capture_ahead(o, px + dx, py + dy, dx, dy, c, px, py, (f - 1) as nat);
            }
        }
        board.set_cell(p, Cell::Piece(c));
        match p + d {
            Some(q) => {
                p = q;
            },
            None => {
                assert(!closes(o, px + dx, py + dy, dx, dy, c, (f - 1) as nat));
                assert(false);
            },
        }
        fuel -= 1;
        assert forall|qx: int, qy: int|
            #[trigger] in_capture(o, p.x as int, p.y as int, dx, dy, c, qx, qy, fuel as nat)
                implies in_capture(o, sx, sy, dx, dy, c, qx, qy, 8) by {
            assert(in_capture(o, px, py, dx, dy, c, qx, qy, f));
        }
        assert forall|qx: int, qy: int| in_bounds(qx, qy) implies #[trigger] board@[cell_index(qx, qy)]
            == if in_capture(o, sx, sy, dx, dy, c, qx, qy, 8) && !in_capture(
                o,
                p.x as int,
                p.y as int,
                dx,
                dy,
                c,
                qx,
                qy,
                fuel as nat,
            ) {
                Cell::Piece(c)
            } else {
                b0[cell_index(qx, qy)]
            } by {
            if qx != px || qy != py {
                assert(in_capture(o, px, py, dx, dy, c, qx, qy, f) == in_capture(
                    o,
                    px + dx,
                    py + dy,
                    dx,
                    dy,
                    c,
                    qx,
                    qy,
                    (f - 1) as nat,
                ));
            }
        }
    }
    assert forall|qx: int, qy: int|
        !#[trigger] in_capture(o, p.x as int, p.y as int, dx, dy, c, qx, qy, fuel as nat) by {
        if fuel > 0 {
            assert(!closes(o, p.x as int, p.y as int, dx, dy, c, fuel as nat));
        }
    }
}

/// The state of a game, as plain values.
pub struct GameView {
    pub board: Seq<Cell>,
    pub turn: Color,
    pub is_start: bool,
    pub is_over: bool,
    pub pass: bool,
}

/// The game after the available cells are recomputed for the player to move.
/// A player without a legal move passes; when the other player cannot move
/// either, the game is over.
pub open spec fn update_spec(g: GameView) -> GameView {
    let b1 = mark(g.board, g.turn);
    if has_available(b1) {
        GameView { board: b1, turn: g.turn, is_start: g.is_start, is_over: g.is_over, pass: false }
    } else if g.pass {
        GameView { board: b1, turn: g.turn, is_start: g.is_start, is_over: true, pass: g.pass }
    } else {
        let t2 = g.turn.opposite();
        let b2 = mark(b1, t2);
        if has_available(b2) {
            GameView { board: b2, turn: t2, is_start: g.is_start, is_over: g.is_over, pass: false }
        } else {
            GameView { board: b2, turn: t2, is_start: g.is_start, is_over: true, pass: true }
        }
    }
}

/// The game after the turn passes to the other player.
pub open spec fn change_turn_spec(g: GameView) -> GameView {
    update_spec(
        GameView {
            board: g.board,
            turn: g.turn.opposite(),
            is_start: g.is_start,
            is_over: g.is_over,
            pass: g.pass,
        },
    )
}

/// The opening position: four pieces in the centre, white on the diagonal.
pub open spec fn start_board() -> Seq<Cell> {
    Seq::new(
        64,
        |i: int|
            if i == cell_index(3, 3) || i == cell_index(4, 4) {
                Cell::Piece(Color::White)
            } else if i == cell_index(3, 4) || i == cell_index(4, 3) {
                Cell::Piece(Color::Black)
            } else {
                Cell::Empty
            },
    )
}

/// A fresh game: the opening position, black to move, available cells marked.
pub open spec fn initial_game() -> GameView {
    update_spec(
        GameView {
            board: start_board(),
            turn: Color::Black,
            is_start: false,
            is_over: false,
            pass: false,
        },
    )
}

/// The winner of a finished game: the color with strictly more pieces.
pub open spec fn winner_spec(g: GameView) -> Option<Color> {
    let black = count_cells(g.board, Cell::Piece(Color::Black));
    let white = count_cells(g.board, Cell::Piece(Color::White));
    if !g.is_over {
        None
    } else if black > white {
        Some(Color::Black)
    } else if white > black {
        Some(Color::White)
    } else {
        None
    }
}

/// What playing `m` does to game `g`: the refusal, or the game after the move.
pub open spec fn move_spec(g: GameView, m: Move) -> Result<GameView, ReversiError> {
    if m.color != g.turn {
        Err(ReversiError::WrongTurn)
    } else if !(m.x < 8 && m.y < 8 && g.board[cell_index(m.x as int, m.y as int)] == Cell::Available) {
        Err(ReversiError::CellNotAvailable)
    } else {
        Ok(GameView { board: after_move(g.board, m.x as int, m.y as int, m.color), ..g })
    }
}

/// A move as a room plays it: refused before the game has started; after the
/// move the turn passes, unless the game is over.
pub open spec fn play_spec(g: GameView, m: Move) -> Result<GameView, ReversiError> {
    if !g.is_start {
        Err(ReversiError::GameNotStarted)
    } else {
        match move_spec(g, m) {
            Err(e) => Err(e),
            Ok(h) => Ok(
                if h.is_over {
                    h
                } else {
                    change_turn_spec(h)
                },
            ),
        }
    }
}

/// Who has won, if anyone: `None` while the game goes on and on a tie.
pub type Winner = Option<Color>;

/// One game of Reversi.
#[derive(Clone, Copy, Debug)]
pub struct Game {
    pub board: Board,
    pub turn: Color,
    pub is_start: bool,
    pub is_over: bool,
    pub pass: bool,
}

impl View for Game {
    type V = GameView;

    open spec fn view(&self) -> GameView {
        GameView {
            board: self.board@,
            turn: self.turn,
            is_start: self.is_start,
            is_over: self.is_over,
            pass: self.pass,
        }
    }
}

impl Game {
    /// A fresh game.
    pub fn new() -> (r: Game)
        ensures
            r@ == initial_game(),
    {
        let mut board = Board::new();
        board.set_cell(Pos { x: 3, y: 3 }, Cell::Piece(Color::White));
        board.set_cell(Pos { x: 4, y: 4 }, Cell::Piece(Color::White));
        board.set_cell(Pos { x: 3, y: 4 }, Cell::Piece(Color::Black));
        board.set_cell(Pos { x: 4, y: 3 }, Cell::Piece(Color::Black));
        assert(board@ =~= start_board());
        let mut game = Game { board, turn: Color::Black, is_start: false, is_over: false, pass: false };
        game.update_available_cell();
        game
    }

    /// Passes the turn to the other player and recomputes the available cells.
    pub fn change_turn(&mut self)
        ensures
            final(self)@ == change_turn_spec(old(self)@),
    {
        self.turn = match self.turn {
            Color::Black => Color::White,
            _ => Color::Black,
        };
        self.update_available_cell();
    }

    /// The winner, once the game is over.
    pub fn winner(&self) -> (r: Winner)
        ensures
            r == winner_spec(self@),
    {
        if !self.is_over {
            return None;
        }
        let (black, white, _, _) = self.board.count_piece();
        if black > white {
            Some(Color::Black)
        } else if white > black {
            Some(Color::White)
        } else {
            None
        }
    }

    /// Whether a piece of color `turn` on `pos` would capture anything.
    pub fn can_put(&self, pos: Pos<usize>, turn: Color) -> (r: bool)
        requires
            pos.x < 8,
            pos.y < 8,
        ensures
            r == can_place(self.board@, pos.x as int, pos.y as int, turn),
    {
        can_place_on(&self.board, pos, turn)
    }

    /// Places a piece of the player to move on `m`'s square and turns over
    /// every run it captures.
    pub fn put_piece(&mut self, m: Move) -> (r: Result<(), ReversiError>)
        ensures
            m.color != old(self).turn ==> r == Err::<(), ReversiError>(ReversiError::WrongTurn),
            m.color == old(self).turn && !(m.x < 8 && m.y < 8 && old(self).board@[cell_index(
                m.x as int,
                m.y as int,
            )] == Cell::Available) ==> r == Err::<(), ReversiError>(ReversiError::CellNotAvailable),
            r is Err ==> *final(self) == *old(self),
            r is Ok ==> final(self)@ == (GameView {
                board: after_move(old(self).board@, m.x as int, m.y as int, m.color),
                ..old(self)@
            }),
            match move_spec(old(self)@, m) {
                Ok(h) => r is Ok && final(self)@ == h,
                Err(e) => r == Err::<(), ReversiError>(e),
            },
    {
        if !Color::equal(&self.turn, &m.color) {
            return Err(ReversiError::WrongTurn);
        }
        if m.x >= 8 || m.y >= 8 {
            return Err(ReversiError::CellNotAvailable);
        }
        let pos = Pos { x: m.x, y: m.y };
        if !self.board.get_cell(pos).is_available() {
            return Err(ReversiError::CellNotAvailable);
        }
        let ghost b0 = self.board@;
        self.flip(pos);
        self.board.set_cell(pos, Cell::Piece(m.color));
        assert forall|i: int| 0 <= i < 64 implies #[trigger] self.board@[i] == after_move(
            b0,
            m.x as int,
            m.y as int,
            m.color,
        )[i] by {
            assert(i == cell_index(i % 8, i / 8));
        }
        assert(self.board@ =~= after_move(b0, m.x as int, m.y as int, m.color));
        Ok(())
    }

    /// Turns over every run that a piece of the player to move on `pos` captures.
    pub fn flip(&mut self, pos: Pos<usize>)
        requires
            pos.x < 8,
            pos.y < 8,
        ensures
            final(self)@ == (GameView { board: final(self)@.board, ..old(self)@ }),
            final(self).board@.len() == 64,
            forall|qx: int, qy: int|
                in_bounds(qx, qy) ==> #[trigger] final(self).board@[cell_index(qx, qy)] == if captured(
                    old(self).board@,
                    pos.x as int,
                    pos.y as int,
                    old(self).turn,
                    qx,
                    qy,
                ) {
                    Cell::Piece(old(self).turn)
                } else {
                    old(self).board@[cell_index(qx, qy)]
                },
    {
        let orig = self.board;
        let c = self.turn;
        let mut k: usize = 0;
        while k < 8
            invariant
                k <= 8,
                pos.x < 8,
                pos.y < 8,
                orig@.len() == 64,
                self.board@.len() == 64,
                orig@ == old(self).board@,
                c == old(self).turn,
                self@ == (GameView { board: self@.board, ..old(self)@ }),
                forall|qx: int, qy: int|
                    in_bounds(qx, qy) ==> #[trigger] self.board@[cell_index(qx, qy)] == if captured_upto(
                        orig@,
                        pos.x as int,
                        pos.y as int,
                        c,
                        qx,
                        qy,
                        k as int,
                    ) {
                        Cell::Piece(c)
                    } else {
                        orig@[cell_index(qx, qy)]
                    },
            decreases 8 - k,
        {
            let d = direction(k);
            let ghost prev = self.board@;
            let ghost (sx, sy) = (pos.x + d.x, pos.y + d.y);
            assert(d.x != 0 || d.y != 0);
            if closes_from(&orig, pos, d, c) {
                match pos + d {
                    Some(start) => {
                        flip_line(&mut self.board, &orig, start, d, c);
                    },
                    None => {},
                }
            }
            assert forall|qx: int, qy: int| in_bounds(qx, qy) implies #[trigger] self.board@[cell_index(qx, qy)]
                == if captured_upto(orig@, pos.x as int, pos.y as int, c, qx, qy, k + 1) {
                    Cell::Piece(c)
                } else {
                    orig@[cell_index(qx, qy)]
                } by {
                let here = in_capture(orig@, sx, sy, d.x as int, d.y as int, c, qx, qy, 8);
                if here {
                    assert(captured_upto(orig@, pos.x as int, pos.y as int, c, qx, qy, k + 1));
                }
                if captured_upto(orig@, pos.x as int, pos.y as int, c, qx, qy, k + 1) && !here {
                    let j = choose|j: int|
                        0 <= j < k + 1 && #[trigger] in_capture(
                            orig@,
                            pos.x + dir_x(j),
                            pos.y + dir_y(j),
                            dir_x(j),
                            dir_y(j),
                            c,
                            qx,
                            qy,
                            8,
                        );
                    assert(j < k);
                    assert(captured_upto(orig@, pos.x as int, pos.y as int, c, qx, qy, k as int));
                }
            }
            k += 1;
        }
    }

    /// Turns over the run that starts at `pos` and goes in direction `d`, when a
    /// piece of the player to move closes it. `Ok` when the run is closed, and
    /// also when `pos` itself holds such a piece (nothing to turn over).
    pub fn flip_recursive(&mut self, pos: Option<Pos<usize>>, d: Pos<i32>) -> (r: Result<(), String>)
        requires
            -1 <= d.x <= 1,
            -1 <= d.y <= 1,
            d.x != 0 || d.y != 0,
        ensures
            final(self)@ == (GameView { board: final(self)@.board, ..old(self)@ }),
            final(self).board@.len() == 64,
            r is Ok <==> (pos matches Some(p) && p.x < 8 && p.y < 8 && (old(self).board@[cell_index(
                p.x as int,
                p.y as int,
            )] == Cell::Piece(old(self).turn) || closes(
                old(self).board@,
                p.x as int,
                p.y as int,
                d.x as int,
                d.y as int,
                old(self).turn,
                8,
            ))),
            forall|qx: int, qy: int|
                in_bounds(qx, qy) ==> #[trigger] final(self).board@[cell_index(qx, qy)] == if (
                pos matches Some(p) && in_capture(
                    old(self).board@,
                    p.x as int,
                    p.y as int,
                    d.x as int,
                    d.y as int,
                    old(self).turn,
                    qx,
                    qy,
                    8,
                )) {
                    Cell::Piece(old(self).turn)
                } else {
                    old(self).board@[cell_index(qx, qy)]
                },
    {
        let orig = self.board;
        let c = self.turn;
        match pos {
            Some(p) => {
                if p.x < 8 && p.y < 8 {
                    if orig.get_cell(p) == Cell::Piece(c) {
                        return Ok(());
                    }
                    if closes_at(&orig, p, d, c) {
                        flip_line(&mut self.board, &orig, p, d, c);
                        return Ok(());
                    }
                }
            },
            None => {},
        }
        Err("out of board".to_owned())
    }

    /// Marks each cell that is not a piece available or empty, for the player to move.
    fn mark_available(&mut self)
        ensures
            final(self)@ == (GameView { board: mark(old(self).board@, old(self).turn), ..old(self)@ }),
    {
        let orig = self.board;
        let c = self.turn;
        let positions = Board::all_pos();
        let mut i: usize = 0;
        while i < 64
            invariant
                i <= 64,
                orig@.len() == 64,
                self.board@.len() == 64,
                c == self.turn,
                self.turn == old(self).turn,
                self.is_start == old(self).is_start,
                self.is_over == old(self).is_over,
                self.pass == old(self).pass,
                orig@ == old(self).board@,
                positions@.len() == 64,
                forall|j: int|
                    0 <= j < 64 ==> #[trigger] positions@[j].x == j % 8 && positions@[j].y == j / 8,
                forall|j: int| 0 <= j < i ==> #[trigger] self.board@[j] == mark(orig@, c)[j],
                forall|j: int| i <= j < 64 ==> #[trigger] self.board@[j] == orig@[j],
            decreases 64 - i,
        {
            let p = positions[i];
            assert(p.y * 8 + p.x == i);
            let cell = orig.get_cell(p);
            if !cell.is_piece() {
                if can_place_on(&orig, p, c) {
                    self.board.set_cell(p, Cell::Available);
                } else {
                    self.board.set_cell(p, Cell::Empty);
                }
            }
            i += 1;
        }
        assert(self.board@ =~= mark(orig@, c));
    }

    /// Recomputes the available cells. A player without a legal move passes;
    /// when the other player cannot move either, the game is over.
    pub fn update_available_cell(&mut self)
        ensures
            final(self)@ == update_spec(old(self)@),
    {
        self.mark_available();
        if self.board.has_available_cell() {
            self.pass = false;
        } else if self.pass {
            self.is_over = true;
        } else {
            self.pass = true;
            self.turn = match self.turn {
                Color::Black => Color::White,
                _ => Color::Black,
            };
            self.mark_available();
            if self.board.has_available_cell() {
                self.pass = false;
            } else {
                self.is_over = true;
            }
        }
    }
}

/// A game state that the engine can reach: 64 cells, and a pass that is still
/// recorded only in a game that is over.
pub open spec fn wf(g: GameView) -> bool {
    &&& g.board.len() == 64
    &&& (g.pass ==> g.is_over)
}

/// Two boards with the same pieces in the same places.
pub open spec fn same_pieces(b1: Seq<Cell>, b2: Seq<Cell>) -> bool {
    &&& b1.len() == b2.len()
    &&& forall|i: int|
        0 <= i < b1.len() ==> ((#[trigger] b1[i] is Piece || b2[i] is Piece) ==> b1[i] == b2[i])
}

proof fn lemma_index_coords(i: int)
    requires
        0 <= i < 64,
    ensures
        in_bounds(i % 8, i / 8),
        cell_index(i % 8, i / 8) == i,
{
}

proof fn lemma_coords_index(x: int, y: int)
    requires
        in_bounds(x, y),
    ensures
        0 <= cell_index(x, y) < 64,
        cell_index(x, y) % 8 == x,
        cell_index(x, y) / 8 == y,
{
}

/// Captured runs only look at pieces.
proof fn lemma_closes_same_pieces(
    b1: Seq<Cell>,
    b2: Seq<Cell>,
    x: int,
    y: int,
    dx: int,
    dy: int,
    c: Color,
    fuel: nat,
)
    requires
        b1.len() == 64,
        same_pieces(b1, b2),
    ensures
        closes(b1, x, y, dx, dy, c, fuel) == closes(b2, x, y, dx, dy, c, fuel),
    decreases fuel,
{
    if fuel > 0 {
        lemma_closes_same_pieces(b1, b2, x + dx, y + dy, dx, dy, c, (fuel - 1) as nat);
        if in_bounds(x, y) {
            lemma_coords_index(x, y);
        }
        if in_bounds(x + dx, y + dy) {
            lemma_coords_index(x + dx, y + dy);
        }
    }
}

proof fn lemma_can_place_same_pieces(b1: Seq<Cell>, b2: Seq<Cell>, x: int, y: int, c: Color)
    requires
        b1.len() == 64,
        same_pieces(b1, b2),
    ensures
        can_place(b1, x, y, c) == can_place(b2, x, y, c),
{
    assert forall|k: int|
        #![trigger captures_in(b1, x, y, c, k)]
        #![trigger captures_in(b2, x, y, c, k)]
        0 <= k < 8 implies captures_in(b1, x, y, c, k) == captures_in(b2, x, y, c, k) by {
        lemma_closes_same_pieces(b1, b2, x + dir_x(k), y + dir_y(k), dir_x(k), dir_y(k), c, 8);
    }
}

/// Marking keeps the pieces, and a marked board has the same legal moves.
proof fn lemma_mark_keeps_moves(b: Seq<Cell>, c: Color, c2: Color)
    requires
        b.len() == 64,
    ensures
        same_pieces(b, mark(b, c)),
        has_available(mark(b, c)) == has_move(b, c),
        has_move(mark(b, c), c2) == has_move(b, c2),
{
    let m = mark(b, c);
    assert(same_pieces(b, m));
    if has_available(m) {
        let i = choose|i: int| 0 <= i < m.len() && m[i] == Cell::Available;
        lemma_index_coords(i);
        assert(can_place(b, i % 8, i / 8, c));
    }
    if has_move(b, c) {
        let (x, y) = choose|x: int, y: int|
            in_bounds(x, y) && !(b[cell_index(x, y)] is Piece) && #[trigger] can_place(b, x, y, c);
        lemma_coords_index(x, y);
        assert(m[cell_index(x, y)] == Cell::Available);
    }
    if has_move(b, c2) {
        let (x, y) = choose|x: int, y: int|
            in_bounds(x, y) && !(b[cell_index(x, y)] is Piece) && #[trigger] can_place(b, x, y, c2);
        lemma_coords_index(x, y);
        lemma_can_place_same_pieces(b, m, x, y, c2);
        assert(!(m[cell_index(x, y)] is Piece));
    }
    if has_move(m, c2) {
        let (x, y) = choose|x: int, y: int|
            in_bounds(x, y) && !(m[cell_index(x, y)] is Piece) && #[trigger] can_place(m, x, y, c2);
        lemma_coords_index(x, y);
        lemma_can_place_same_pieces(b, m, x, y, c2);
        assert(!(b[cell_index(x, y)] is Piece));
    }
}

/// Recomputing the available cells always yields a state the engine can reach.
pub proof fn lemma_update_wf(g: GameView)
    requires
        g.board.len() == 64,
    ensures
        wf(update_spec(g)),
{
}

/// After the available cells are recomputed, playing any available cell turns
/// over at least one piece of the other color.
pub proof fn lemma_available_cell_flips(g: GameView, x: int, y: int)
    requires
        g.board.len() == 64,
        in_bounds(x, y),
        update_spec(g).board[cell_index(x, y)] == Cell::Available,
    ensures
        ({
            let h = update_spec(g);
            exists|qx: int, qy: int|
                in_bounds(qx, qy) && h.board[cell_index(qx, qy)] == Cell::Piece(h.turn.opposite())
                    && #[trigger] after_move(h.board, x, y, h.turn)[cell_index(qx, qy)] == Cell::Piece(
                    h.turn,
                )
        }),
{
    let h = update_spec(g);
    let b1 = mark(g.board, g.turn);
    lemma_coords_index(x, y);
    // the board h.board was marked from has the same pieces as h.board
    let src = if h.board == b1 {
        g.board
    } else {
        b1
    };
    assert(h.board == mark(src, h.turn));
    assert(src.len() == 64);
    lemma_mark_keeps_moves(src, h.turn, h.turn);
    assert(can_place(src, x, y, h.turn));
    lemma_can_place_same_pieces(src, h.board, x, y, h.turn);
    let k = choose|k: int| 0 <= k < 8 && #[trigger] captures_in(h.board, x, y, h.turn, k);
    let (qx, qy) = (x + dir_x(k), y + dir_y(k));
    assert(in_capture(h.board, qx, qy, dir_x(k), dir_y(k), h.turn, qx, qy, 8));
    assert(captured(h.board, x, y, h.turn, qx, qy));
    lemma_coords_index(qx, qy);
    assert(after_move(h.board, x, y, h.turn)[cell_index(qx, qy)] == Cell::Piece(h.turn));
}

/// Boards with the same pieces hold as many pieces of each color.
proof fn lemma_count_same_pieces(b1: Seq<Cell>, b2: Seq<Cell>, c: Color)
    requires
        same_pieces(b1, b2),
    ensures
        count_cells(b1, Cell::Piece(c)) == count_cells(b2, Cell::Piece(c)),
    decreases b1.len(),
{
    if b1.len() > 0 {
        assert(same_pieces(b1.drop_last(), b2.drop_last()));
        assert(b1.last() == b1[b1.len() - 1]);
        lemma_count_same_pieces(b1.drop_last(), b2.drop_last(), c);
    }
}

/// After a legal move in a game that is not over, passing the turn hands it to
/// the other player when that player can move. When that player cannot, the turn
/// comes back to the mover (two flips) if the mover can move, and otherwise the
/// game is over.
pub proof fn lemma_turn_alternation(g: GameView, m: Move)
    requires
        wf(g),
        !g.is_over,
        m.color == g.turn,
        in_bounds(m.x as int, m.y as int),
        g.board[cell_index(m.x as int, m.y as int)] == Cell::Available,
    ensures
        ({
            let b = after_move(g.board, m.x as int, m.y as int, m.color);
            let n = change_turn_spec(GameView { board: b, ..g });
            &&& has_move(b, g.turn.opposite()) ==> n.turn == g.turn.opposite() && !n.is_over
            &&& !has_move(b, g.turn.opposite()) && has_move(b, g.turn) ==> n.turn == g.turn
                && !n.is_over
            &&& !has_move(b, g.turn.opposite()) && !has_move(b, g.turn) ==> n.is_over
        }),
{
    let b = after_move(g.board, m.x as int, m.y as int, m.color);
    let t2 = g.turn.opposite();
    lemma_mark_keeps_moves(b, t2, g.turn);
    lemma_mark_keeps_moves(mark(b, t2), g.turn, g.turn);
    assert(t2.opposite() == g.turn);
}

/// When neither player has a legal move, passing the turn ends the game, the
/// pieces stay as they were, and the winner is the color with strictly more
/// pieces, or nobody on a tie.
pub proof fn lemma_no_moves_ends_game(g: GameView)
    requires
        wf(g),
        !has_move(g.board, Color::Black),
        !has_move(g.board, Color::White),
    ensures
        ({
            let n = change_turn_spec(g);
            let black = count_cells(g.board, Cell::Piece(Color::Black));
            let white = count_cells(g.board, Cell::Piece(Color::White));
            &&& n.is_over
            &&& same_pieces(g.board, n.board)
            &&& winner_spec(n) == if black > white {
                Some(Color::Black)
            } else if white > black {
                Some(Color::White)
            } else {
                None
            }
        }),
{
    let t = g.turn.opposite();
    let b1 = mark(g.board, t);
    lemma_mark_keeps_moves(g.board, t, t.opposite());
    lemma_mark_keeps_moves(b1, t.opposite(), t.opposite());
    let n = change_turn_spec(g);
    assert(t == Color::Black || t == Color::White);
    assert(t.opposite() == Color::Black || t.opposite() == Color::White);
    assert(same_pieces(g.board, n.board));
    lemma_count_same_pieces(g.board, n.board, Color::Black);
    lemma_count_same_pieces(g.board, n.board, Color::White);
}

proof fn lemma_count_update(a: Seq<Cell>, i: int, v: Cell, t: Cell)
    requires
        0 <= i < a.len(),
    ensures
        count_cells(a.update(i, v), t) + (if a[i] == t {
            1int
        } else {
            0int
        }) == count_cells(a, t) + (if v == t {
            1int
        } else {
            0int
        }),
    decreases a.len(),
{
    let u = a.update(i, v);
    if i == a.len() - 1 {
        assert(u.drop_last() =~= a.drop_last());
    } else {
        assert(u.drop_last() =~= a.drop_last().update(i, v));
        lemma_count_update(a.drop_last(), i, v, t);
    }
}

proof fn lemma_count_mono(a: Seq<Cell>, b: Seq<Cell>, t: Cell)
    requires
        a.len() == b.len(),
        forall|i: int| 0 <= i < a.len() && #[trigger] a[i] == t ==> b[i] == t,
    ensures
        count_cells(a, t) <= count_cells(b, t),
    decreases a.len(),
{
    if a.len() > 0 {
        assert forall|i: int| 0 <= i < a.drop_last().len() && #[trigger] a.drop_last()[i] == t implies b.drop_last()[i]
            == t by {
            assert(a[i] == t);
        }
        lemma_count_mono(a.drop_last(), b.drop_last(), t);
        assert(a.last() == a[a.len() - 1]);
    }
}

proof fn lemma_count_same(a: Seq<Cell>, b: Seq<Cell>, t: Cell)
    requires
        a.len() == b.len(),
        forall|i: int| 0 <= i < a.len() ==> (#[trigger] a[i] == t) == (b[i] == t),
    ensures
        count_cells(a, t) == count_cells(b, t),
{
    lemma_count_mono(a, b, t);
    assert forall|i: int| 0 <= i < b.len() && #[trigger] b[i] == t implies a[i] == t by {
        assert((a[i] == t) == (b[i] == t));
    }
    lemma_count_mono(b, a, t);
}

/// A captured square holds a piece of the other color.
proof fn lemma_capture_is_opponent(
    b: Seq<Cell>,
    x: int,
    y: int,
    dx: int,
    dy: int,
    c: Color,
    qx: int,
    qy: int,
    fuel: nat,
)
    requires
        in_capture(b, x, y, dx, dy, c, qx, qy, fuel),
    ensures
        in_bounds(qx, qy),
        b[cell_index(qx, qy)] == Cell::Piece(c.opposite()),
    decreases fuel,
{
    if !(qx == x && qy == y) {
        lemma_capture_is_opponent(b, x + dx, y + dy, dx, dy, c, qx, qy, (fuel - 1) as nat);
    }
}

/// After the available cells are recomputed, playing an available cell gives
/// the mover the new piece and at least one captured piece, takes at least one
/// piece from the other color, and adds exactly one piece to the board.
pub proof fn lemma_available_cell_counts(g: GameView, x: int, y: int)
    requires
        g.board.len() == 64,
        in_bounds(x, y),
        update_spec(g).board[cell_index(x, y)] == Cell::Available,
    ensures
        ({
            let h = update_spec(g);
            let a = after_move(h.board, x, y, h.turn);
            let own = Cell::Piece(h.turn);
            let other = Cell::Piece(h.turn.opposite());
            &&& count_cells(a, own) >= count_cells(h.board, own) + 2
            &&& count_cells(a, other) + 1 <= count_cells(h.board, other)
            &&& count_cells(a, own) + count_cells(a, other) == count_cells(h.board, own)
                + count_cells(h.board, other) + 1
        }),
{
    let h = update_spec(g);
    let b = h.board;
    let t = h.turn;
    let a = after_move(b, x, y, t);
    let own = Cell::Piece(t);
    let other = Cell::Piece(t.opposite());
    let xy = cell_index(x, y);
    lemma_coords_index(x, y);
    lemma_available_cell_flips(g, x, y);
    let (qx, qy) = choose|qx: int, qy: int|
        in_bounds(qx, qy) && b[cell_index(qx, qy)] == other && #[trigger] after_move(b, x, y, t)[cell_index(
            qx,
            qy,
        )] == own;
    lemma_coords_index(qx, qy);
    let q = cell_index(qx, qy);
    assert(q != xy);
    // every square that changes becomes the mover's, and only the played
    // square was not a piece before
    assert forall|i: int| 0 <= i < 64 implies (#[trigger] a[i] == own || a[i] == b[i]) && (a[i] != b[i]
        ==> (i == xy || b[i] == other)) by {
        lemma_index_coords(i);
        if i != xy && captured(b, x, y, t, i % 8, i / 8) {
            let k = choose|k: int|
                0 <= k < 8 && #[trigger] in_capture(
                    b,
                    x + dir_x(k),
                    y + dir_y(k),
                    dir_x(k),
                    dir_y(k),
                    t,
                    i % 8,
                    i / 8,
                    8,
                );
            lemma_capture_is_opponent(b, x + dir_x(k), y + dir_y(k), dir_x(k), dir_y(k), t, i % 8, i / 8, 8);
        }
    }
    assert(t.opposite() != t);
    // the mover: +1 for the played square, +1 for q, and never less elsewhere
    let m1 = b.update(xy, own);
    let m2 = m1.update(q, own);
    lemma_count_update(b, xy, own, own);
    lemma_count_update(m1, q, own, own);
    lemma_count_mono(m2, a, own);
    // the other color: q is lost, and nothing is gained
    let n = b.update(q, own);
    lemma_count_update(b, q, own, other);
    assert forall|i: int| 0 <= i < a.len() && #[trigger] a[i] == other implies n[i] == other by {
        assert(a[i] == own || a[i] == b[i]);
    }
    lemma_count_mono(a, n, other);
    // the squares that are not pieces: only the played one changed
    assert forall|i: int| 0 <= i < a.len() implies (#[trigger] a[i] == Cell::Available) == (m1[i]
        == Cell::Available) by {
        assert(a[i] == own || a[i] == b[i]);
    }
    assert forall|i: int| 0 <= i < a.len() implies (#[trigger] a[i] == Cell::Empty) == (m1[i] == Cell::Empty) by {
        assert(a[i] == own || a[i] == b[i]);
    }
    lemma_count_same(a, m1, Cell::Available);
    lemma_count_same(a, m1, Cell::Empty);
    lemma_count_update(b, xy, own, Cell::Available);
    lemma_count_update(b, xy, own, Cell::Empty);
    crate::board::lemma_counts_cover_board(a);
    crate::board::lemma_counts_cover_board(b);
    assert(t == Color::Black || t == Color::White);
}

} // verus!

//! Board representation: colors, cells, positions and the 8x8 grid.

use vstd::prelude::*;

verus! {

/// The two sides of the game.
#[derive(Clone, Copy, PartialEq, Eq, Debug, Structural)]
pub enum Color {
    Black,
    White,
}

impl Color {
    /// The other side.
    pub open spec fn opposite(self) -> Color {
        match self {
            Color::Black => Color::White,
            Color::White => Color::Black,
        }
    }

    /// Two colors are equal when both are black or both are white.
    pub fn equal(color1: &Color, color2: &Color) -> (r: bool)
        ensures
            r == (*color1 == *color2),
    {
        !(color1.is_black() ^ color2.is_black())
    }

    pub fn is_black(&self) -> (r: bool)
        ensures
            r == (*self == Color::Black),
    {
        match *self {
            Color::Black => true,
            _ => false,
        }
    }

    pub fn is_white(&self) -> (r: bool)
        ensures
            r == (*self == Color::White),
    {
        !self.is_black()
    }
}

/// The content of one square.
#[derive(Clone, Copy, PartialEq, Eq, Debug, Structural)]
pub enum Cell {
    Empty,
    Available,
    Piece(Color),
}

impl Cell {
    pub fn is_empty(&self) -> (r: bool)
        ensures
            r == (*self is Empty),
    {
        match *self {
            Cell::Empty => true,
            _ => false,
        }
    }

    pub fn is_available(&self) -> (r: bool)
        ensures
            r == (*self is Available),
    {
        match *self {
            Cell::Available => true,
            _ => false,
        }
    }

    /// The symbol a cell is drawn with on a text board.
    pub fn symbol(&self) -> (r: char)
        ensures
            r == match *self {
                Cell::Piece(Color::Black) => '\u{25cb}',
                Cell::Piece(Color::White) => '\u{25cf}',
                Cell::Empty => '\u{25a1}',
                Cell::Available => '\u{d7}',
            },
    {
        match *self {
            Cell::Piece(Color::Black) => '\u{25cb}',
            Cell::Piece(Color::White) => '\u{25cf}',
            Cell::Empty => '\u{25a1}',
            Cell::Available => '\u{d7}',
        }
    }

    pub fn is_piece(&self) -> (r: bool)
        ensures
            r == (*self is Piece),
    {
        match *self {
            Cell::Piece(_) => true,
            _ => false,
        }
    }
}

/// A square of the grid, or a step between squares.
#[derive(Clone, Copy, Debug)]
pub struct Pos<T> {
    pub x: T,
    pub y: T,
}

/// Whether (x, y) names a square of the 8x8 grid.
pub open spec fn in_bounds(x: int, y: int) -> bool {
    0 <= x < 8 && 0 <= y < 8
}

/// Where square (x, y) is stored: row by row.
pub open spec fn cell_index(x: int, y: int) -> int {
    y * 8 + x
}

/// Horizontal component of the k-th of the eight compass directions.
pub open spec fn dir_x(k: int) -> int {
    if k == 0 || k == 1 || k == 7 {
        1
    } else if k == 3 || k == 4 || k == 5 {
        -1
    } else {
        0
    }
}

/// Vertical component of the k-th of the eight compass directions.
pub open spec fn dir_y(k: int) -> int {
    if k == 1 || k == 2 || k == 3 {
        1
    } else if k == 5 || k == 6 || k == 7 {
        -1
    } else {
        0
    }
}

/// The k-th compass direction, as a step.
pub fn direction(k: usize) -> (d: Pos<i32>)
    requires
        k < 8,
    ensures
        d.x == dir_x(k as int),
        d.y == dir_y(k as int),
{
    match k {
        0 => Pos { x: 1, y: 0 },
        1 => Pos { x: 1, y: 1 },
        2 => Pos { x: 0, y: 1 },
        3 => Pos { x: -1, y: 1 },
        4 => Pos { x: -1, y: 0 },
        5 => Pos { x: -1, y: -1 },
        6 => Pos { x: 0, y: -1 },
        _ => Pos { x: 1, y: -1 },
    }
}

/// Where a step from p lands, when it lands on the grid.
pub open spec fn step(p: Pos<usize>, d: Pos<i32>) -> Option<Pos<usize>> {
    if in_bounds(p.x + d.x, p.y + d.y) {
        Some(Pos { x: (p.x + d.x) as usize, y: (p.y + d.y) as usize })
    } else {
        None
    }
}

impl core::ops::Add<Pos<i32>> for Pos<usize> {
    type Output = Option<Pos<usize>>;

    /// Steps from a square; `None` when the step leaves the grid.
    fn add(self, other: Pos<i32>) -> (r: Option<Pos<usize>>) {
        let x: i128 = self.x as i128 + other.x as i128;
        let y: i128 = self.y as i128 + other.y as i128;
        if x < 0 || x > 7 || y < 0 || y > 7 {
            return None;
        }
        Some(Pos { x: x as usize, y: y as usize })
    }
}

impl vstd::std_specs::ops::AddSpecImpl<Pos<i32>> for Pos<usize> {
    open spec fn obeys_add_spec() -> bool {
        true
    }

    open spec fn add_req(self, rhs: Pos<i32>) -> bool {
        true
    }

    open spec fn add_spec(self, rhs: Pos<i32>) -> Option<Pos<usize>> {
        step(self, rhs)
    }
}

/// A move: the square played and the color that plays it.
#[derive(Clone, Copy, Debug)]
pub struct Move {
    pub x: usize,
    pub y: usize,
    pub color: Color,
}

impl Move {
    /// A move on square (x, y); refused when the square is off the grid.
    pub fn new(x: i32, y: i32, color: Color) -> (r: Result<Move, String>)
        ensures
            r is Ok <==> in_bounds(x as int, y as int),
            r matches Ok(m) ==> m.x == x && m.y == y && m.color == color,
    {
        if x < 0 || x > 7 || y < 0 || y > 7 {
            return Err("Invalid Pos".to_owned());
        }
        Ok(Move { x: x as usize, y: y as usize, color })
    }
}

/// How many cells of `s` hold `target`.
pub open spec fn count_cells(s: Seq<Cell>, target: Cell) -> nat
    decreases s.len(),
{
    if s.len() == 0 {
        0
    } else {
        count_cells(s.drop_last(), target) + if s.last() == target {
            1nat
        } else {
            0nat
        }
    }
}

/// Every cell is black, white, available or empty: the four counts make up the board.
pub proof fn lemma_counts_cover_board(s: Seq<Cell>)
    ensures
        count_cells(s, Cell::Piece(Color::Black)) + count_cells(s, Cell::Piece(Color::White))
            + count_cells(s, Cell::Available) + count_cells(s, Cell::Empty) == s.len(),
    decreases s.len(),
{
    if s.len() > 0 {
        lemma_counts_cover_board(s.drop_last());
    }
}

/// The 8x8 grid, stored row by row.
#[derive(Clone, Copy, Debug)]
pub struct Board(pub [Cell; 64]);

impl View for Board {
    type V = Seq<Cell>;

    open spec fn view(&self) -> Seq<Cell> {
        self.0@
    }
}

impl Board {
    pub fn new() -> (r: Board)
        ensures
            r@.len() == 64,
            forall|i: int| 0 <= i < 64 ==> r@[i] == Cell::Empty,
    {
        Board([Cell::Empty; 64])
    }

    /// All 64 squares, row by row.
    pub fn all_pos() -> (v: Vec<Pos<usize>>)
        ensures
            v@.len() == 64,
            forall|i: int| 0 <= i < 64 ==> #[trigger] v@[i].x == i % 8 && v@[i].y == i / 8,
    {
        let mut v: Vec<Pos<usize>> = Vec::new();
        let mut y: usize = 0;
        while y < 8
            invariant
                y <= 8,
                v@.len() == y * 8,
                forall|i: int| 0 <= i < v@.len() ==> #[trigger] v@[i].x == i % 8 && v@[i].y == i / 8,
            decreases 8 - y,
        {
            let mut x: usize = 0;
            while x < 8
                invariant
                    y < 8,
                    x <= 8,
                    v@.len() == y * 8 + x,
                    forall|i: int|
                        0 <= i < v@.len() ==> #[trigger] v@[i].x == i % 8 && v@[i].y == i / 8,
                decreases 8 - x,
            {
                v.push(Pos { x, y });
                x += 1;
            }
            y += 1;
        }
        v
    }

    pub fn get_cell(&self, p: Pos<usize>) -> (r: Cell)
        requires
            p.x < 8,
            p.y < 8,
        ensures
            r == self@[p.y * 8 + p.x],
    {
        self.0[p.y * 8 + p.x]
    }

    pub fn set_cell(&mut self, p: Pos<usize>, cell: Cell)
        requires
            p.x < 8,
            p.y < 8,
        ensures
            final(self)@ == old(self)@.update(p.y * 8 + p.x, cell),
    {
        self.0.set(p.y * 8 + p.x, cell);
    }

    /// Counts of black pieces, white pieces, available cells and empty cells.
    pub fn count_piece(&self) -> (r: (usize, usize, usize, usize))
        ensures
            r.0 == count_cells(self@, Cell::Piece(Color::Black)),
            r.1 == count_cells(self@, Cell::Piece(Color::White)),
            r.2 == count_cells(self@, Cell::Available),
            r.3 == count_cells(self@, Cell::Empty),
            r.0 + r.1 + r.2 + r.3 == 64,
    {
        let mut black: usize = 0;
        let mut white: usize = 0;
        let mut available: usize = 0;
        let mut empty: usize = 0;
        let mut i: usize = 0;
        while i < 64
            invariant
                i <= 64,
                self@.len() == 64,
                black == count_cells(self@.subrange(0, i as int), Cell::Piece(Color::Black)),
                white == count_cells(self@.subrange(0, i as int), Cell::Piece(Color::White)),
                available == count_cells(self@.subrange(0, i as int), Cell::Available),
                empty == count_cells(self@.subrange(0, i as int), Cell::Empty),
                black + white + available + empty == i,
            decreases 64 - i,
        {
            assert(self@.subrange(0, i + 1).drop_last() =~= self@.subrange(0, i as int));
            match self.0[i] {
                Cell::Piece(color) => {
                    if color.is_black() {
                        black += 1;
                    } else {
                        white += 1;
                    }
                },
                Cell::Available => {
                    available += 1;
                },
                Cell::Empty => {
                    empty += 1;
                },
            }
            i += 1;
        }
        assert(self@.subrange(0, 64) =~= self@);
        (black, white, available, empty)
    }

    /// Whether some cell is available to the player to move.
    pub fn has_available_cell(&self) -> (r: bool)
        ensures
            r == (exists|i: int| 0 <= i < 64 && self@[i] == Cell::Available),
    {
        let mut i: usize = 0;
        while i < 64
            invariant
                i <= 64,
                self@.len() == 64,
                forall|j: int| 0 <= j < i ==> self@[j] != Cell::Available,
            decreases 64 - i,
        {
            if self.0[i].is_available() {
                return true;
            }
            i += 1;
        }
        false
    }
}

} // verus!

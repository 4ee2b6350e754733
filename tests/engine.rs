use reversi_server::board::{Board, Cell, Color, Move, Pos};
use reversi_server::error::ReversiError;
use reversi_server::game::Game;

fn available_cells(game: &Game) -> Vec<(usize, usize)> {
    let mut cells = Vec::new();
    for p in Board::all_pos() {
        if game.board.get_cell(p).is_available() {
            cells.push((p.x, p.y));
        }
    }
    cells
}

#[test]
fn starting_position() {
    let game = Game::new();
    assert_eq!(game.board.count_piece(), (2, 2, 4, 56));
    assert_eq!(game.board.get_cell(Pos { x: 3, y: 3 }), Cell::Piece(Color::White));
    assert_eq!(game.board.get_cell(Pos { x: 4, y: 4 }), Cell::Piece(Color::White));
    assert_eq!(game.board.get_cell(Pos { x: 3, y: 4 }), Cell::Piece(Color::Black));
    assert_eq!(game.board.get_cell(Pos { x: 4, y: 3 }), Cell::Piece(Color::Black));
    assert_eq!(game.turn, Color::Black);
    assert!(!game.is_start && !game.is_over && !game.pass);
    let mut cells = available_cells(&game);
    cells.sort();
    assert_eq!(cells, vec![(2, 3), (3, 2), (4, 5), (5, 4)]);
}

#[test]
fn counts_always_cover_the_board() {
    let mut game = Game::new();
    let moves = [(3, 2, Color::Black), (2, 2, Color::White), (2, 3, Color::Black)];
    for (x, y, color) in moves.iter() {
        assert_eq!(game.put_piece(Move { x: *x, y: *y, color: *color }), Ok(()));
        game.change_turn();
        let (b, w, a, e) = game.board.count_piece();
        assert_eq!(b + w + a + e, 64);
    }
    assert_eq!(game.board.count_piece().0 + game.board.count_piece().1, 7);
}

#[test]
fn every_available_cell_flips_something() {
    let game = Game::new();
    for (x, y) in available_cells(&game) {
        let mut g = game;
        let before = g.board.count_piece();
        assert_eq!(g.put_piece(Move { x, y, color: Color::Black }), Ok(()));
        let after = g.board.count_piece();
        // the new piece plus at least one captured white piece
        assert!(after.0 >= before.0 + 2);
        assert!(after.1 < before.1);
    }
}

#[test]
fn opening_move_flips_one_piece_and_passes_turn() {
    let mut game = Game::new();
    assert_eq!(game.put_piece(Move { x: 3, y: 2, color: Color::Black }), Ok(()));
    assert_eq!(game.board.get_cell(Pos { x: 3, y: 2 }), Cell::Piece(Color::Black));
    assert_eq!(game.board.get_cell(Pos { x: 3, y: 3 }), Cell::Piece(Color::Black));
    assert_eq!(game.board.get_cell(Pos { x: 4, y: 4 }), Cell::Piece(Color::White));
    assert_eq!(game.board.count_piece().0, 4);
    assert_eq!(game.board.count_piece().1, 1);
    game.change_turn();
    assert_eq!(game.turn, Color::White);
    assert!(!game.pass && !game.is_over);
    let mut cells = available_cells(&game);
    cells.sort();
    assert_eq!(cells, vec![(2, 2), (2, 4), (4, 2)]);
}

#[test]
fn wrong_turn_is_refused() {
    let mut game = Game::new();
    let before = game.board.count_piece();
    assert_eq!(game.put_piece(Move { x: 3, y: 2, color: Color::White }), Err(ReversiError::WrongTurn));
    assert_eq!(game.board.count_piece(), before);
    assert_eq!(game.turn, Color::Black);
}

#[test]
fn cell_not_available_is_refused() {
    let mut game = Game::new();
    assert_eq!(
        game.put_piece(Move { x: 0, y: 0, color: Color::Black }),
        Err(ReversiError::CellNotAvailable)
    );
    assert_eq!(
        game.put_piece(Move { x: 3, y: 3, color: Color::Black }),
        Err(ReversiError::CellNotAvailable)
    );
    assert_eq!(
        game.put_piece(Move { x: 8, y: 0, color: Color::Black }),
        Err(ReversiError::CellNotAvailable)
    );
    assert_eq!(game.board.count_piece(), (2, 2, 4, 56));
}

fn stuck_game(black: &[(usize, usize)], white: &[(usize, usize)]) -> Game {
    let mut board = Board::new();
    for (x, y) in black {
        board.set_cell(Pos { x: *x, y: *y }, Cell::Piece(Color::Black));
    }
    for (x, y) in white {
        board.set_cell(Pos { x: *x, y: *y }, Cell::Piece(Color::White));
    }
    Game { board, turn: Color::Black, is_start: true, is_over: false, pass: false }
}

#[test]
fn no_moves_for_both_ends_the_game() {
    let mut game = stuck_game(&[(0, 0), (0, 1), (0, 2)], &[(7, 7)]);
    assert_eq!(game.winner(), None);
    game.change_turn();
    assert!(game.is_over);
    assert!(!game.board.has_available_cell());
    assert_eq!(game.winner(), Some(Color::Black));
}

#[test]
fn no_moves_on_a_tie_has_no_winner() {
    let mut game = stuck_game(&[(0, 0)], &[(7, 7)]);
    game.change_turn();
    assert!(game.is_over);
    assert_eq!(game.winner(), None);
}

#[test]
fn white_wins_with_more_pieces() {
    let mut game = stuck_game(&[(0, 0)], &[(7, 7), (7, 6)]);
    game.update_available_cell();
    assert!(game.is_over);
    assert!(game.pass);
    assert_eq!(game.winner(), Some(Color::White));
}

#[test]
fn player_without_moves_passes_back() {
    // White at (1,0) can only be captured by Black from (2,0); White has no move.
    let mut game = stuck_game(&[(0, 0)], &[(1, 0)]);
    game.turn = Color::White;
    game.update_available_cell();
    assert!(!game.is_over);
    assert!(!game.pass);
    assert_eq!(game.turn, Color::Black);
    assert_eq!(game.board.get_cell(Pos { x: 2, y: 0 }), Cell::Available);
    assert_eq!(game.board.count_piece().2, 1);
}

#[test]
fn can_put_follows_runs() {
    let game = Game::new();
    assert!(game.can_put(Pos { x: 3, y: 2 }, Color::Black));
    assert!(!game.can_put(Pos { x: 0, y: 0 }, Color::Black));
    assert!(game.can_put(Pos { x: 4, y: 2 }, Color::White));
}

#[test]
fn flip_recursive_turns_a_closed_run() {
    let mut game = stuck_game(&[(0, 0)], &[(1, 0), (2, 0)]);
    game.board.set_cell(Pos { x: 3, y: 0 }, Cell::Piece(Color::Black));
    let open = game.flip_recursive(Some(Pos { x: 1, y: 0 }), Pos { x: 0, y: 1 });
    assert!(open.is_err());
    assert_eq!(game.flip_recursive(Some(Pos { x: 1, y: 0 }), Pos { x: 1, y: 0 }), Ok(()));
    assert_eq!(game.board.get_cell(Pos { x: 1, y: 0 }), Cell::Piece(Color::Black));
    assert_eq!(game.board.get_cell(Pos { x: 2, y: 0 }), Cell::Piece(Color::Black));
    assert_eq!(game.flip_recursive(None, Pos { x: 1, y: 0 }).is_err(), true);
}

#[test]
fn flip_turns_every_direction() {
    let mut game = stuck_game(&[(0, 0), (4, 0), (2, 2)], &[(1, 0), (3, 0), (2, 1)]);
    game.flip(Pos { x: 2, y: 0 });
    assert_eq!(game.board.get_cell(Pos { x: 1, y: 0 }), Cell::Piece(Color::Black));
    assert_eq!(game.board.get_cell(Pos { x: 3, y: 0 }), Cell::Piece(Color::Black));
    assert_eq!(game.board.get_cell(Pos { x: 2, y: 1 }), Cell::Piece(Color::Black));
    assert_eq!(game.board.get_cell(Pos { x: 2, y: 0 }), Cell::Empty);
}

#[test]
fn positions_step_within_the_grid() {
    let p = Pos { x: 3usize, y: 3usize };
    let q = (p + Pos { x: 1, y: 1 }).unwrap();
    assert_eq!((q.x, q.y), (4, 4));
    assert!((Pos { x: 0usize, y: 5usize } + Pos { x: -1, y: 0 }).is_none());
    assert!((Pos { x: 7usize, y: 7usize } + Pos { x: 0, y: 1 }).is_none());
    let all = Board::all_pos();
    assert_eq!(all.len(), 64);
    assert_eq!((all[9].x, all[9].y), (1, 1));
    assert_eq!((all[63].x, all[63].y), (7, 7));
}

#[test]
fn move_new_checks_the_grid() {
    let m = Move::new(2, 7, Color::White).unwrap();
    assert_eq!((m.x, m.y, m.color), (2, 7, Color::White));
    assert!(Move::new(8, 0, Color::Black).is_err());
    assert!(Move::new(0, -1, Color::Black).is_err());
}

#[test]
fn colors_and_cells() {
    assert!(Color::equal(&Color::Black, &Color::Black));
    assert!(!Color::equal(&Color::Black, &Color::White));
    assert!(Color::White.is_white() && !Color::White.is_black());
    assert!(Cell::Empty.is_empty() && !Cell::Empty.is_piece());
    assert!(Cell::Available.is_available());
    assert!(Cell::Piece(Color::Black).is_piece());
    assert_eq!(Cell::Piece(Color::Black).label(), "black");
    assert_eq!(Cell::Piece(Color::White).label(), "white");
    assert_eq!(Cell::Available.label(), "available");
    assert_eq!(Cell::Empty.label(), "empty");
}

#[test]
fn cell_symbols() {
    assert_eq!(Cell::Piece(Color::Black).symbol(), '\u{25cb}');
    assert_eq!(Cell::Piece(Color::White).symbol(), '\u{25cf}');
    assert_eq!(Cell::Empty.symbol(), '\u{25a1}');
    assert_eq!(Cell::Available.symbol(), '\u{d7}');
}

#[test]
fn step_from_off_grid_square_lands_on_grid() {
    let q = (Pos { x: 9usize, y: 0usize } + Pos { x: -2, y: 0 }).unwrap();
    assert_eq!((q.x, q.y), (7, 0));
    assert!((Pos { x: 9usize, y: 0usize } + Pos { x: -1, y: 0 }).is_none());
    assert!((Pos { x: usize::MAX, y: 0usize } + Pos { x: 1, y: 0 }).is_none());
}

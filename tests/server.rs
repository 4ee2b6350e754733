use reversi_server::board::{Cell, Color, Move};
use reversi_server::error::ReversiError;
use reversi_server::server::{
    ClientReversiMoveMessage, Connect, Disconnect, GameServer, Join, ListRooms, MakeRoom, Outbound,
    ReversiMessageBody, ReversiMessageKind,
};

fn game_start_of(out: &Outbound) -> (usize, Option<Color>) {
    let color = match &out.message.body {
        Some(ReversiMessageBody::GameStart(c)) => Some(*c),
        _ => None,
    };
    assert_eq!(out.message.kind, ReversiMessageKind::GameStart);
    (out.to, color)
}

fn make(server: &mut GameServer<u32>, name: &str, uid: usize, uname: &str, color: Option<Color>) -> Result<(), ReversiError> {
    server.make_room(MakeRoom { name: name.to_string(), uid, uname: uname.to_string(), color })
}

fn join(server: &mut GameServer<u32>, name: &str, uid: usize, uname: &str) -> Result<Vec<Outbound>, ReversiError> {
    server.join(Join { name: name.to_string(), uid, uname: uname.to_string() })
}

fn room_names(server: &GameServer<u32>) -> Vec<String> {
    server.list_rooms(ListRooms { uid: 0 }).into_iter().map(|(name, _)| name).collect()
}

#[test]
fn test_make_room() {
    let mut server: GameServer<u32> = GameServer::new();
    let a = server.connect(Connect { addr: 1 });
    let b = server.connect(Connect { addr: 2 });
    assert_ne!(a, b);
    assert_eq!(make(&mut server, "Shiba", a, "pipopa", Some(Color::Black)), Ok(()));
    let out = join(&mut server, "Shiba", b, "Tatsuo").unwrap();
    assert_eq!(out.len(), 2);
    assert_eq!(game_start_of(&out[0]), (a, Some(Color::Black)));
    assert_eq!(game_start_of(&out[1]), (b, Some(Color::White)));
    assert_eq!(server.sink(a), Some(&1));
    assert_eq!(server.sink(b), Some(&2));
}

#[test]
fn make_room_then_join_starts_game() {
    let mut server: GameServer<u32> = GameServer::new();
    assert_eq!(make(&mut server, "r1", 1, "alice", Some(Color::Black)), Ok(()));
    let out = join(&mut server, "r1", 2, "bob").unwrap();
    assert_eq!(game_start_of(&out[0]), (1, Some(Color::Black)));
    assert_eq!(game_start_of(&out[1]), (2, Some(Color::White)));
    let rooms = server.list_rooms(ListRooms { uid: 1 });
    assert_eq!(rooms.len(), 1);
    let room = &rooms[0].1;
    assert!(room.game().is_start);
    assert_eq!(room.sessions(), &vec![1, 2]);
    assert_eq!(room.black(), Some(1));
    assert_eq!(room.white(), Some(2));
    let seated = room.player2().as_ref().unwrap();
    assert_eq!((seated.id, seated.name.as_str(), seated.color), (2, "bob", Some(Color::White)));
}

#[test]
fn owner_asking_white_plays_white() {
    let mut server: GameServer<u32> = GameServer::new();
    make(&mut server, "r", 5, "carol", Some(Color::White)).unwrap();
    let out = join(&mut server, "r", 6, "dave").unwrap();
    assert_eq!(game_start_of(&out[0]), (6, Some(Color::Black)));
    assert_eq!(game_start_of(&out[1]), (5, Some(Color::White)));
}

#[test]
fn owner_without_color_plays_black() {
    let mut server: GameServer<u32> = GameServer::new();
    make(&mut server, "r", 5, "carol", None).unwrap();
    let rooms = server.list_rooms(ListRooms { uid: 5 });
    assert_eq!(rooms[0].1.player1().as_ref().unwrap().color, None);
    let out = join(&mut server, "r", 6, "dave").unwrap();
    assert_eq!(game_start_of(&out[0]), (5, Some(Color::Black)));
    assert_eq!(game_start_of(&out[1]), (6, Some(Color::White)));
}

#[test]
fn make_room_twice_is_refused() {
    let mut server: GameServer<u32> = GameServer::new();
    make(&mut server, "r", 1, "a", None).unwrap();
    assert_eq!(make(&mut server, "r", 2, "b", Some(Color::White)), Err(ReversiError::RoomAlreadyExists));
    let rooms = server.list_rooms(ListRooms { uid: 1 });
    assert_eq!(rooms.len(), 1);
    assert_eq!(rooms[0].1.player1().as_ref().unwrap().id, 1);
}

#[test]
fn join_missing_room_is_refused() {
    let mut server: GameServer<u32> = GameServer::new();
    assert!(matches!(join(&mut server, "nowhere", 1, "a"), Err(ReversiError::RoomNotFound)));
    assert!(room_names(&server).is_empty());
}

#[test]
fn join_full_room_is_refused() {
    let mut server: GameServer<u32> = GameServer::new();
    make(&mut server, "r", 1, "a", None).unwrap();
    join(&mut server, "r", 2, "b").unwrap();
    assert!(matches!(join(&mut server, "r", 3, "c"), Err(ReversiError::RoomFull)));
    let rooms = server.list_rooms(ListRooms { uid: 1 });
    assert_eq!(rooms[0].1.sessions(), &vec![1, 2]);
}

#[test]
fn joining_leaves_other_rooms() {
    let mut server: GameServer<u32> = GameServer::new();
    make(&mut server, "first", 1, "a", None).unwrap();
    make(&mut server, "second", 2, "b", None).unwrap();
    join(&mut server, "second", 1, "a").unwrap();
    // "first" had only session 1, so it is gone
    assert_eq!(room_names(&server), vec!["second".to_string()]);
}

#[test]
fn move_before_start_is_refused() {
    let mut server: GameServer<u32> = GameServer::new();
    make(&mut server, "r", 1, "a", None).unwrap();
    let m = ClientReversiMoveMessage { id: 1, reversi_move: Move { x: 3, y: 2, color: Color::Black }, room: "r".to_string() };
    assert!(matches!(server.play(m), Err(ReversiError::GameNotStarted)));
    let m = ClientReversiMoveMessage { id: 1, reversi_move: Move { x: 3, y: 2, color: Color::Black }, room: "x".to_string() };
    assert!(matches!(server.play(m), Err(ReversiError::RoomNotFound)));
}

#[test]
fn move_on_unavailable_cell_sends_nothing() {
    let mut server: GameServer<u32> = GameServer::new();
    make(&mut server, "r1", 1, "alice", Some(Color::Black)).unwrap();
    join(&mut server, "r1", 2, "bob").unwrap();
    let before = server.list_rooms(ListRooms { uid: 1 });
    let m = ClientReversiMoveMessage { id: 1, reversi_move: Move { x: 0, y: 0, color: Color::Black }, room: "r1".to_string() };
    assert!(matches!(server.play(m), Err(ReversiError::CellNotAvailable)));
    let after = server.list_rooms(ListRooms { uid: 1 });
    let (g0, g1) = (before[0].1.game(), after[0].1.game());
    assert_eq!(g0.board.count_piece(), g1.board.count_piece());
    assert_eq!(g0.turn, g1.turn);
    for i in 0..64 {
        assert_eq!(g0.board.0[i], g1.board.0[i]);
    }
}

#[test]
fn wrong_turn_through_the_server() {
    let mut server: GameServer<u32> = GameServer::new();
    make(&mut server, "r1", 1, "alice", Some(Color::Black)).unwrap();
    join(&mut server, "r1", 2, "bob").unwrap();
    let m = ClientReversiMoveMessage { id: 2, reversi_move: Move { x: 3, y: 2, color: Color::White }, room: "r1".to_string() };
    assert!(matches!(server.play(m), Err(ReversiError::WrongTurn)));
}

#[test]
fn legal_move_broadcasts_the_game() {
    let mut server: GameServer<u32> = GameServer::new();
    make(&mut server, "r1", 1, "alice", Some(Color::Black)).unwrap();
    join(&mut server, "r1", 2, "bob").unwrap();
    let m = ClientReversiMoveMessage { id: 1, reversi_move: Move { x: 3, y: 2, color: Color::Black }, room: "r1".to_string() };
    let out = server.play(m).unwrap();
    assert_eq!(out.len(), 2);
    assert_eq!((out[0].to, out[1].to), (1, 2));
    for o in out.iter() {
        assert_eq!(o.message.kind, ReversiMessageKind::Game);
        match &o.message.body {
            Some(ReversiMessageBody::Game(snapshot)) => {
                assert_eq!(snapshot.turn, Color::White);
                assert_eq!(snapshot.board.len(), 64);
                assert_eq!(snapshot.board[2 * 8 + 3], "black");
                assert_eq!(snapshot.board[3 * 8 + 3], "black");
                assert_eq!(snapshot.board[4 * 8 + 4], "white");
                assert_eq!(snapshot.board[2 * 8 + 2], "available");
                assert_eq!(snapshot.board[0], "empty");
            }
            _ => panic!("expected a game snapshot"),
        }
    }
    let rooms = server.list_rooms(ListRooms { uid: 1 });
    assert_eq!(rooms[0].1.game().board.get_cell(reversi_server::board::Pos { x: 3, y: 3 }), Cell::Piece(Color::Black));
}

#[test]
fn broadcast_skips_one_session() {
    let mut server: GameServer<u32> = GameServer::new();
    make(&mut server, "r1", 1, "alice", None).unwrap();
    join(&mut server, "r1", 2, "bob").unwrap();
    let message = reversi_server::server::ReversiMessage { kind: ReversiMessageKind::Turn, body: Some(ReversiMessageBody::Turn(Color::White)) };
    let out = server.send_reversi_message_room(&"r1".to_string(), &message, Some(1));
    assert_eq!(out.len(), 1);
    assert_eq!(out[0].to, 2);
    assert!(matches!(out[0].message.body, Some(ReversiMessageBody::Turn(Color::White))));
    assert!(server.send_reversi_message_room(&"none".to_string(), &message, None).is_empty());
}

#[test]
fn room_is_gone_after_both_disconnect() {
    let mut server: GameServer<u32> = GameServer::new();
    let a = server.connect(Connect { addr: 10 });
    let b = server.connect(Connect { addr: 20 });
    make(&mut server, "r", a, "a", None).unwrap();
    join(&mut server, "r", b, "b").unwrap();
    server.disconnect(Disconnect { id: a });
    assert_eq!(room_names(&server), vec!["r".to_string()]);
    let rooms = server.list_rooms(ListRooms { uid: b });
    assert!(rooms[0].1.player1().is_none());
    assert_eq!(rooms[0].1.sessions(), &vec![b]);
    server.disconnect(Disconnect { id: b });
    assert!(room_names(&server).is_empty());
    assert_eq!(server.sink(a), None);
    assert_eq!(server.sink(b), None);
}

#[test]
fn leaving_twice_changes_nothing_more() {
    let mut server: GameServer<u32> = GameServer::new();
    let a = server.connect(Connect { addr: 1 });
    let b = server.connect(Connect { addr: 2 });
    make(&mut server, "r", a, "a", None).unwrap();
    join(&mut server, "r", b, "b").unwrap();
    server.disconnect(Disconnect { id: b });
    let once = server.list_rooms(ListRooms { uid: a });
    server.disconnect(Disconnect { id: b });
    let twice = server.list_rooms(ListRooms { uid: a });
    assert_eq!(once.len(), twice.len());
    assert_eq!(once[0].1.sessions(), twice[0].1.sessions());
    assert!(twice[0].1.player2().is_none());
    assert_eq!(twice[0].1.player1().as_ref().unwrap().id, a);
}

#[test]
fn fresh_ids_avoid_connected_sessions() {
    let mut server: GameServer<u32> = GameServer::new();
    assert_eq!(server.fresh_id(42), 42);
    let mut ids = Vec::new();
    for k in 0..20u32 {
        let id = server.connect(Connect { addr: k });
        assert!(!ids.contains(&id));
        ids.push(id);
    }
    let taken = ids[3];
    let fresh = server.fresh_id(taken);
    assert_ne!(fresh, taken);
    assert!(!ids.contains(&fresh));
    assert!(fresh <= ids.len());
}

#[test]
fn ids_are_never_handed_out_twice() {
    let mut server: GameServer<u32> = GameServer::new();
    let a = server.connect(Connect { addr: 7 });
    server.disconnect(Disconnect { id: a });
    assert_eq!(server.sink(a), None);
    assert_ne!(server.fresh_id(a), a);
    let b = server.connect(Connect { addr: 8 });
    assert_ne!(a, b);
    assert_eq!(server.sink(b), Some(&8));
}

#[test]
fn disconnect_keeps_other_sinks() {
    let mut server: GameServer<u32> = GameServer::new();
    let a = server.connect(Connect { addr: 1 });
    let b = server.connect(Connect { addr: 2 });
    let c = server.connect(Connect { addr: 3 });
    server.disconnect(Disconnect { id: b });
    assert_eq!(server.sink(a), Some(&1));
    assert_eq!(server.sink(b), None);
    assert_eq!(server.sink(c), Some(&3));
    server.disconnect(Disconnect { id: b });
    assert_eq!(server.sink(a), Some(&1));
    assert_eq!(server.sink(c), Some(&3));
}
